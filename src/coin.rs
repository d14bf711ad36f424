use vstd::prelude::*;

verus! {

/// The coins a vending machine takes and gives back.
#[derive(Clone, Copy, Debug, Hash, PartialEq, Eq, Structural, PartialOrd, Ord)]
pub enum Coin {
    One,
    Two,
    Five,
    Ten,
    Twenty,
    Fifty,
}

/// The error of reading a number that is no coin's value.
#[derive(Clone, Copy, Debug, PartialEq, Eq, Structural)]
pub enum CoinError {
    NoSuchCoin,
}

/// The number of kinds of coin.
pub const KINDS: usize = 6;

/// The value of the kind of coin with rank `k`, smallest first.
pub open spec fn denomination(k: int) -> nat {
    if k == 0 {
        1
    } else if k == 1 {
        2
    } else if k == 2 {
        5
    } else if k == 3 {
        10
    } else if k == 4 {
        20
    } else {
        50
    }
}

/// The coin of rank `k`, smallest first.
pub open spec fn coin_of_rank(k: int) -> Coin {
    if k == 0 {
        Coin::One
    } else if k == 1 {
        Coin::Two
    } else if k == 2 {
        Coin::Five
    } else if k == 3 {
        Coin::Ten
    } else if k == 4 {
        Coin::Twenty
    } else {
        Coin::Fifty
    }
}

impl Coin {
    /// The rank of the coin's kind, smallest first.
    pub open spec fn rank(self) -> int {
        match self {
            Coin::One => 0,
            Coin::Two => 1,
            Coin::Five => 2,
            Coin::Ten => 3,
            Coin::Twenty => 4,
            Coin::Fifty => 5,
        }
    }

    pub open spec fn worth(self) -> nat {
        denomination(self.rank())
    }

    /// The coin's value.
    pub fn value(&self) -> (v: usize)
        ensures
            v == self.worth(),
    {
        match self {
            Coin::One => 1,
            Coin::Two => 2,
            Coin::Five => 5,
            Coin::Ten => 10,
            Coin::Twenty => 20,
            Coin::Fifty => 50,
        }
    }

    /// The rank of the coin's kind, smallest first.
    pub fn index(&self) -> (k: usize)
        ensures
            k == self.rank(),
            k < KINDS,
            coin_of_rank(k as int) == *self,
    {
        match self {
            Coin::One => 0,
            Coin::Two => 1,
            Coin::Five => 2,
            Coin::Ten => 3,
            Coin::Twenty => 4,
            Coin::Fifty => 5,
        }
    }

    /// The coin of rank `k`, smallest first.
    pub fn of_rank(k: usize) -> (c: Coin)
        requires
            k < KINDS,
        ensures
            c == coin_of_rank(k as int),
            c.rank() == k,
    {
        if k == 0 {
            Coin::One
        } else if k == 1 {
            Coin::Two
        } else if k == 2 {
            Coin::Five
        } else if k == 3 {
            Coin::Ten
        } else if k == 4 {
            Coin::Twenty
        } else {
            Coin::Fifty
        }
    }

    /// The coin whose value is `value`.
    pub fn try_from(value: u8) -> (r: Result<Coin, CoinError>)
        ensures
            match r {
                Ok(c) => c.worth() == value,
                Err(_) => !(value == 1 || value == 2 || value == 5 || value == 10 || value == 20
                    || value == 50),
            },
    {
        match value {
            1 => Ok(Coin::One),
            2 => Ok(Coin::Two),
            5 => Ok(Coin::Five),
            10 => Ok(Coin::Ten),
            20 => Ok(Coin::Twenty),
            50 => Ok(Coin::Fifty),
            _ => Err(CoinError::NoSuchCoin),
        }
    }
}

} // verus!
