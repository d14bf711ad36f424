use vstd::prelude::*;

use crate::change::{count, lemma_push_coin, lemma_worth_update, lemma_worth_zero, payable, total, worth_of};
use crate::coin::{denomination, Coin, KINDS};
use crate::sealed::VendingMachineStateSecure;

verus! {

/// A product as sold: its price and its name.
#[derive(Clone, Debug)]
pub struct Product {
    price: usize,
    name: String,
}

impl Product {
    pub closed spec fn price(&self) -> usize {
        self.price
    }

    pub closed spec fn name(&self) -> Seq<char> {
        self.name@
    }

    /// The price.
    pub fn get_price(&self) -> (p: usize)
        ensures
            p == self.price(),
    {
        self.price
    }

    /// The name.
    pub fn get_name(&self) -> (n: &String)
        ensures
            n@ == self.name(),
    {
        &self.name
    }
}

/// What a machine holds of one product: its name, price and number of items.
#[derive(Clone, Debug)]
struct Stock {
    name: String,
    price: usize,
    amount: usize,
}

/// Why a machine refused a request.
#[derive(Clone, Debug)]
pub enum VendingMachineError {
    SameProductNameDifferentPrice,
    OutOfFreeSpace,
    NoProduct,
    NotEnoughMoney,
    /// The machine cannot give the change; the paid coins go back.
    CantGiveRest(Vec<Coin>),
}

/// A stage of a purchase.
pub trait VendingMachineState: VendingMachineStateSecure {}

/// Waiting for a customer, open for restocking.
#[derive(Debug, Clone, Copy)]
pub struct Ready;

/// A product is chosen and coins are being paid in.
#[derive(Debug, Clone)]
pub struct Paying {
    product: Product,
    payed: Vec<Coin>,
}

impl VendingMachineStateSecure for Ready {}

impl VendingMachineStateSecure for Paying {}

impl VendingMachineState for Ready {}

impl VendingMachineState for Paying {}

/// Whether the entry at position `i` of `stock` is named `name`.
pub open spec fn named(stock: Seq<(Seq<char>, usize, usize)>, name: Seq<char>, i: int) -> bool {
    0 <= i < stock.len() && stock[i].0 == name
}

/// What stocking one item of `name` at `price` does to a machine holding
/// `stock` with room for `space` more items: the new stock and room, or why
/// it is refused.
pub open spec fn add_one(
    stock: Seq<(Seq<char>, usize, usize)>,
    space: usize,
    name: Seq<char>,
    price: usize,
) -> Result<(Seq<(Seq<char>, usize, usize)>, usize), VendingMachineError> {
    if space == 0 {
        Err(VendingMachineError::OutOfFreeSpace)
    } else if exists|i: int| named(stock, name, i) {
        let i = choose|i: int| named(stock, name, i);
        if stock[i].1 == price {
            Ok((stock.update(i, (name, price, (stock[i].2 + 1) as usize)), (space - 1) as usize))
        } else {
            Err(VendingMachineError::SameProductNameDifferentPrice)
        }
    } else {
        Ok((stock.push((name, price, 1usize)), (space - 1) as usize))
    }
}

/// Stocking the items `items`, each as (name, price), in order, up to the
/// first refusal.
pub open spec fn add_all(
    stock: Seq<(Seq<char>, usize, usize)>,
    space: usize,
    items: Seq<(Seq<char>, usize)>,
) -> Result<(Seq<(Seq<char>, usize, usize)>, usize), VendingMachineError>
    decreases items.len(),
{
    if items.len() == 0 {
        Ok((stock, space))
    } else {
        match add_all(stock, space, items.drop_last()) {
            Ok((s, sp)) => add_one(s, sp, items.last().0, items.last().1),
            Err(e) => Err(e),
        }
    }
}

/// The stock after one item of the product named `name` is sold: one item
/// fewer, and the product gone once its last item is.
pub open spec fn sold(stock: Seq<(Seq<char>, usize, usize)>, name: Seq<char>) -> Seq<(Seq<char>, usize, usize)> {
    let i = choose|i: int| named(stock, name, i);
    if stock[i].2 <= 1 {
        stock.remove(i)
    } else {
        stock.update(i, (stock[i].0, stock[i].1, (stock[i].2 - 1) as usize))
    }
}

/// A vending machine in stage `State`: the products it holds, each as
/// (name, price, items), room for `space_left` more items, and `coins()[k]`
/// coins of rank `k` to give change from.
#[derive(Clone, Debug)]
pub struct VendingMachine<State> {
    products: Vec<Stock>,
    space_left: usize,
    coins: Vec<usize>,
    state: State,
}

impl<State> VendingMachine<State> {
    /// The products, each as (name, price, items), in the order they were
    /// first stocked.
    pub closed spec fn stock(&self) -> Seq<(Seq<char>, usize, usize)> {
        self.products@.map_values(|s: Stock| (s.name@, s.price, s.amount))
    }

    pub closed spec fn space_left(&self) -> usize {
        self.space_left
    }

    /// How many coins of each rank the machine holds for change.
    pub closed spec fn coins(&self) -> Seq<usize> {
        self.coins@
    }

    /// No two products share a name, every product has an item, and no
    /// count can overflow as the machine fills.
    pub closed spec fn wf(&self) -> bool {
        &&& self.coins@.len() == KINDS
        &&& forall|i: int, j: int|
            0 <= i < self.products@.len() && 0 <= j < self.products@.len() && i != j
                ==> self.products@[i].name@ != self.products@[j].name@
        &&& forall|i: int|
            0 <= i < self.products@.len() ==> {
                &&& 1 <= #[trigger] self.products@[i].amount
                &&& self.products@[i].amount + self.space_left <= usize::MAX
            }
    }

    /// The position of the product named `name`, if there is one.
    fn find(&self, name: &String) -> (r: Option<usize>)
        requires
            self.wf(),
        ensures
            r matches Some(i) ==> named(self.stock(), name@, i as int),
            r is None ==> forall|i: int| !named(self.stock(), name@, i),
    {
        let mut i: usize = 0;
        while i < self.products.len()
            invariant
                i <= self.products@.len(),
                forall|j: int| 0 <= j < i ==> !named(self.stock(), name@, j),
            decreases self.products@.len() - i,
        {
            if self.products[i].name == *name {
                return Some(i);
            }
            i = i + 1;
        }
        None
    }
}

impl VendingMachine<Ready> {
    /// An empty machine with room for `capacity` items.
    pub fn new(capacity: usize) -> (m: Self)
        ensures
            m.wf(),
            m.stock() == Seq::<(Seq<char>, usize, usize)>::empty(),
            m.space_left() == capacity,
            m.coins() == Seq::new(KINDS as nat, |k: int| 0usize),
    {
        let mut coins: Vec<usize> = Vec::new();
        let mut k: usize = 0;
        while k < KINDS
            invariant
                k <= KINDS,
                coins@ == Seq::new(k as nat, |j: int| 0usize),
            decreases KINDS - k,
        {
            coins.push(0);
            k = k + 1;
            proof {
                assert(coins@ =~= Seq::new(k as nat, |j: int| 0usize));
            }
        }
        let m = VendingMachine { products: Vec::new(), space_left: capacity, coins, state: Ready };
        proof {
            assert(m.stock() =~= Seq::<(Seq<char>, usize, usize)>::empty());
        }
        m
    }

    /// Stocks one item of `name` at `price`. Refused when the machine is
    /// full, or when it holds `name` at another price; the machine is then
    /// left as it was.
    pub fn add_product(machine: &mut Self, name: String, price: usize) -> (r: Result<(), VendingMachineError>)
        requires
            old(machine).wf(),
        ensures
            final(machine).wf(),
            final(machine).coins() == old(machine).coins(),
            match add_one(old(machine).stock(), old(machine).space_left(), name@, price) {
                Ok((stock, space)) => {
                    &&& r is Ok
                    &&& final(machine).stock() == stock
                    &&& final(machine).space_left() == space
                },
                Err(e) => r == Err::<(), _>(e) && *final(machine) == *old(machine),
            },
    {
        if machine.space_left == 0 {
            return Err(VendingMachineError::OutOfFreeSpace);
        }
        let ghost pre = *machine;
        match machine.find(&name) {
            Some(i) => {
                if machine.products[i].price == price {
                    proof {
                        assert(pre.products@[i as int].amount + pre.space_left <= usize::MAX);
                    }
                    let amount = machine.products[i].amount + 1;
                    machine.products[i].amount = amount;
                    machine.space_left = machine.space_left - 1;
                    proof {
                        assert forall|j: int| named(pre.stock(), name@, j) implies j == i by {
                            if j != i {
                                assert(pre.products@[j].name@ != pre.products@[i as int].name@);
                            }
                        }
                        assert(machine.stock() =~= pre.stock().update(i as int, (name@, price, amount)));
                    }
                    Ok(())
                } else {
                    proof {
                        assert forall|j: int| named(pre.stock(), name@, j) implies j == i by {
                            if j != i {
                                assert(pre.products@[j].name@ != pre.products@[i as int].name@);
                            }
                        }
                    }
                    Err(VendingMachineError::SameProductNameDifferentPrice)
                }
            },
            None => {
                machine.products.push(Stock { name, price, amount: 1 });
                machine.space_left = machine.space_left - 1;
                proof {
                    let n = pre.products@.len() as int;
                    assert forall|j: int| 0 <= j < n implies #[trigger] machine.products@[j].name@
                        != machine.products@[n].name@ by {
                        assert(!named(pre.stock(), machine.products@[n].name@, j));
                    }
                    assert(machine.stock() =~= pre.stock().push((machine.products@[pre.products@.len() as int].name@, price, 1usize)));
                }
                Ok(())
            },
        }
    }

    /// Stocks the items `products`, each as (name, price), in order, and
    /// stops at the first refusal, which it returns; what was stocked before
    /// it stays.
    pub fn add_products(machine: &mut Self, products: Vec<(String, usize)>) -> (r: Result<(), VendingMachineError>)
        requires
            old(machine).wf(),
        ensures
            final(machine).wf(),
            final(machine).coins() == old(machine).coins(),
            match add_all(
                old(machine).stock(),
                old(machine).space_left(),
                products@.map_values(|p: (String, usize)| (p.0@, p.1)),
            ) {
                Ok((stock, space)) => {
                    &&& r is Ok
                    &&& final(machine).stock() == stock
                    &&& final(machine).space_left() == space
                },
                Err(e) => r == Err::<(), _>(e),
            },
    {
        let ghost items = products@.map_values(|p: (String, usize)| (p.0@, p.1));
        let ghost stock0 = machine.stock();
        let ghost space0 = machine.space_left();
        let ghost coins0 = machine.coins();
        let ghost all = products@;
        for item in it: products.into_iter()
            invariant
                it.seq() == all,
                all == products@,
                items == all.map_values(|p: (String, usize)| (p.0@, p.1)),
                stock0 == old(machine).stock(),
                space0 == old(machine).space_left(),
                coins0 == old(machine).coins(),
                machine.wf(),
                machine.coins() == coins0,
                add_all(stock0, space0, items.take(it.index())) == Ok::<_, VendingMachineError>(
                    (machine.stock(), machine.space_left()),
                ),
        {
            let ghost i = it.index();
            proof {
                assert(items.take(i + 1).drop_last() =~= items.take(i));
                assert(items.take(i + 1).last() == (item.0@, item.1));
            }
            let (name, price) = item;
            let ghost before = *machine;
            let r = Self::add_product(machine, name, price);
            if r.is_err() {
                proof {
                    assert(add_all(stock0, space0, items.take(i + 1)) == add_one(
                        before.stock(),
                        before.space_left(),
                        items[i].0,
                        items[i].1,
                    ));
                    lemma_add_all_stops(stock0, space0, items, i + 1);
                }
                return r;
            }
        }
        proof {
            assert(items.take(all.len() as int) =~= items);
        }
        Ok(())
    }

    /// Puts one `coin` into the change box.
    pub fn add_coin(machine: &mut Self, coin: Coin)
        requires
            old(machine).wf(),
            old(machine).coins()[coin.rank()] < usize::MAX,
        ensures
            final(machine).wf(),
            final(machine).stock() == old(machine).stock(),
            final(machine).space_left() == old(machine).space_left(),
            final(machine).coins() == old(machine).coins().update(
                coin.rank(),
                (old(machine).coins()[coin.rank()] + 1) as usize,
            ),
    {
        let k = coin.index();
        machine.coins[k] = machine.coins[k] + 1;
    }

    /// Puts the coins `coins` into the change box.
    pub fn add_coins(machine: &mut Self, coins: Vec<Coin>)
        requires
            old(machine).wf(),
            forall|k: int| 0 <= k < KINDS ==> old(machine).coins()[k] + #[trigger] count(coins@, k) <= usize::MAX,
        ensures
            final(machine).wf(),
            final(machine).stock() == old(machine).stock(),
            final(machine).space_left() == old(machine).space_left(),
            forall|k: int| 0 <= k < KINDS ==> #[trigger] final(machine).coins()[k] == old(machine).coins()[k] + count(coins@, k),
    {
        let ghost all = coins@;
        let ghost start = machine.coins();
        for coin in it: coins.into_iter()
            invariant
                it.seq() == all,
                all == coins@,
                start == old(machine).coins(),
                machine.wf(),
                machine.stock() == old(machine).stock(),
                machine.space_left() == old(machine).space_left(),
                forall|k: int| 0 <= k < KINDS ==> old(machine).coins()[k] + #[trigger] count(all, k) <= usize::MAX,
                forall|k: int| 0 <= k < KINDS ==> #[trigger] machine.coins()[k] == start[k] + count(all.take(it.index()), k),
        {
            let ghost i = it.index();
            proof {
                assert(all.take(i + 1) =~= all.take(i).push(coin));
                lemma_count_push(all.take(i), coin);
                lemma_count_prefix(all, i + 1, coin.rank());
                assert(count(all.take(i + 1), coin.rank()) == count(all.take(i), coin.rank()) + 1);
                assert(machine.coins()[coin.rank()] == start[coin.rank()] + count(all.take(i), coin.rank()));
                assert(count(all, coin.rank()) + old(machine).coins()[coin.rank()] <= usize::MAX);
            }
            Self::add_coin(machine, coin);
            proof {
                assert forall|k: int| 0 <= k < KINDS implies #[trigger] machine.coins()[k] == start[k] + count(all.take(i + 1), k) by {
                    assert(count(all.take(i).push(coin), k) == count(all.take(i), k) + if coin.rank() == k { 1nat } else { 0nat });
                }
            }
        }
        proof {
            assert(all.take(all.len() as int) =~= all);
        }
    }

    /// Takes the order for the product named `product`; refused with
    /// `NoProduct` when the machine holds none.
    pub fn choose_product(self, product: String) -> (r: Result<VendingMachine<Paying>, VendingMachineError>)
        requires
            self.wf(),
        ensures
            (forall|i: int| !named(self.stock(), product@, i)) ==> r == Err::<VendingMachine<Paying>, _>(
                VendingMachineError::NoProduct,
            ),
            forall|i: int|
                named(self.stock(), product@, i) ==> (r matches Ok(m) && {
                    &&& m.ready_to_pay()
                    &&& m.stock() == self.stock()
                    &&& m.space_left() == self.space_left()
                    &&& m.coins() == self.coins()
                    &&& m.product().name() == product@
                    &&& m.product().price() == self.stock()[i].1
                    &&& m.payed() == Seq::<Coin>::empty()
                }),
    {
        match self.find(&product) {
            None => Err(VendingMachineError::NoProduct),
            Some(i) => {
                let price = self.products[i].price;
                let VendingMachine { products, space_left, coins, state: _ } = self;
                let m = VendingMachine {
                    products,
                    space_left,
                    coins,
                    state: Paying { product: Product { price, name: product }, payed: Vec::new() },
                };
                proof {
                    assert forall|j: int| named(self.stock(), product@, j) implies j == i by {
                        if j != i {
                            assert(self.products@[j].name@ != self.products@[i as int].name@);
                        }
                    }
                    assert(total(Seq::<Coin>::empty()) == 0);
                    assert(m.stock() == self.stock());
                    assert(named(m.stock(), m.state.product.name@, i as int));
                }
                Ok(m)
            },
        }
    }
}

impl VendingMachine<Paying> {
    /// The product ordered.
    pub closed spec fn product(&self) -> Product {
        self.state.product
    }

    /// The coins paid in so far, in order.
    pub closed spec fn payed(&self) -> Seq<Coin> {
        self.state.payed@
    }

    /// The machine holds the ordered product at the ordered price, and the
    /// sum paid fits in a `usize`.
    pub closed spec fn ready_to_pay(&self) -> bool {
        &&& self.wf()
        &&& exists|i: int|
            named(self.stock(), self.state.product.name@, i) && self.stock()[i].1 == self.state.product.price
        &&& total(self.state.payed@) <= usize::MAX
    }

    /// Pays in `coin`.
    pub fn insert_coin(&mut self, coin: Coin)
        requires
            old(self).ready_to_pay(),
            total(old(self).payed()) + coin.worth() <= usize::MAX,
        ensures
            final(self).ready_to_pay(),
            final(self).payed() == old(self).payed().push(coin),
            final(self).product() == old(self).product(),
            final(self).stock() == old(self).stock(),
            final(self).space_left() == old(self).space_left(),
            final(self).coins() == old(self).coins(),
    {
        proof {
            lemma_total_push(self.state.payed@, coin);
        }
        let ghost i = choose|i: int|
            named(self.stock(), self.state.product.name@, i) && self.stock()[i].1 == self.state.product.price;
        self.state.payed.push(coin);
        proof {
            assert(named(self.stock(), self.state.product.name@, i) && self.stock()[i].1 == self.state.product.price);
        }
    }

    /// Pays in the coins `coins`, in order.
    pub fn inset_coins(&mut self, coins: Vec<Coin>)
        requires
            old(self).ready_to_pay(),
            total(old(self).payed()) + total(coins@) <= usize::MAX,
        ensures
            final(self).ready_to_pay(),
            final(self).payed() == old(self).payed() + coins@,
            final(self).product() == old(self).product(),
            final(self).stock() == old(self).stock(),
            final(self).space_left() == old(self).space_left(),
            final(self).coins() == old(self).coins(),
    {
        let ghost all = coins@;
        let ghost start = self.payed();
        for coin in it: coins.into_iter()
            invariant
                it.seq() == all,
                all == coins@,
                start == old(self).payed(),
                self.ready_to_pay(),
                total(start) + total(all) <= usize::MAX,
                self.payed() == start + all.take(it.index()),
                self.product() == old(self).product(),
                self.stock() == old(self).stock(),
                self.space_left() == old(self).space_left(),
                self.coins() == old(self).coins(),
        {
            let ghost i = it.index();
            proof {
                assert(all.take(i + 1) =~= all.take(i).push(coin));
                lemma_total_append(start, all.take(i + 1));
                lemma_total_prefix(all, i + 1);
                lemma_total_append(start, all.take(i));
                lemma_total_push(all.take(i), coin);
            }
            Self::insert_coin(self, coin);
            proof {
                assert(self.payed() =~= start + all.take(i + 1));
            }
        }
        proof {
            assert(all.take(all.len() as int) =~= all);
        }
    }

    /// Searches, largest coins first, for coins to add to `rest_coins` (worth
    /// `cur_sum`) so that they are worth `rest`, drawing on `coins[k]` coins of
    /// each rank `k` below `top`. Each coin is first tried in and then left out.
    fn calc_rest_internal(
        rest: usize,
        coins: Vec<usize>,
        top: usize,
        cur_sum: usize,
        rest_coins: Vec<Coin>,
    ) -> (r: Option<Vec<Coin>>)
        requires
            coins@.len() == KINDS,
            top <= KINDS,
            cur_sum <= rest,
            total(rest_coins@) == cur_sum,
        ensures
            r is Some <==> payable(coins@, top as int, rest - cur_sum),
            r matches Some(v) ==> {
                &&& total(v@) == rest
                &&& v@.len() >= rest_coins@.len()
                &&& forall|i: int| 0 <= i < rest_coins@.len() ==> v@[i] == rest_coins@[i]
                &&& forall|k: int|
                    0 <= k < KINDS ==> #[trigger] count(v@, k) <= count(rest_coins@, k) + if k < top {
                        coins@[k] as nat
                    } else {
                        0nat
                    }
            },
        decreases top, if top > 0 {
            coins@[top - 1] as int
        } else {
            0
        },
    {
        if rest == cur_sum {
            proof {
                let zero = Seq::new(KINDS as nat, |i: int| 0usize);
                lemma_worth_zero(zero, top as int);
                assert(worth_of(zero, top as int) == 0);
            }
            return Some(rest_coins);
        }
        if top == 0 {
            proof {
                assert forall|sel: Seq<usize>| #[trigger] worth_of(sel, 0) != rest - cur_sum by {}
            }
            return None;
        }
        let k = top - 1;
        if coins[k] == 0 {
            let r = Self::calc_rest_internal(rest, coins, k, cur_sum, rest_coins);
            proof {
                let amount = rest - cur_sum;
                if payable(coins@, top as int, amount) {
                    let sel = choose|sel: Seq<usize>|
                        #![trigger worth_of(sel, top as int)]
                        sel.len() == KINDS && (forall|j: int| 0 <= j < top ==> sel[j] <= coins@[j])
                            && worth_of(sel, top as int) == amount;
                    assert(sel[k as int] == 0);
                    assert(worth_of(sel, k as int) == amount);
                }
                if payable(coins@, k as int, amount) {
                    let sel = choose|sel: Seq<usize>|
                        #![trigger worth_of(sel, k as int)]
                        sel.len() == KINDS && (forall|j: int| 0 <= j < k ==> sel[j] <= coins@[j])
                            && worth_of(sel, k as int) == amount;
                    let s2 = sel.update(k as int, 0);
                    lemma_worth_update(sel, k as int, k as int, 0);
                    lemma_worth_update(sel, top as int, k as int, 0);
                    assert(worth_of(s2, top as int) == amount);
                }
            }
            return r;
        }
        let mut fewer = coins.clone();
        fewer[k] = coins[k] - 1;
        let coin = Coin::of_rank(k);
        let v = coin.value();
        let mut tried: Option<Vec<Coin>> = None;
        if v <= rest - cur_sum {
            let mut with = rest_coins.clone();
            with.push(coin);
            proof {
                lemma_push_coin(rest_coins@, coin);
            }
            tried = Self::calc_rest_internal(rest, fewer.clone(), top, cur_sum + v, with);
            proof {
                if tried is Some {
                    let w = tried->Some_0;
                    assert forall|i: int| 0 <= i < rest_coins@.len() implies w@[i] == rest_coins@[i] by {
                        assert(w@[i] == with@[i]);
                    }
                }
            }
        }
        match tried {
            Some(w) => {
                proof {
                    // a way to pay what is left after one more coin is a way to
                    // pay with that coin
                    let amount = rest - cur_sum - v;
                    let sel = choose|sel: Seq<usize>|
                        #![trigger worth_of(sel, top as int)]
                        sel.len() == KINDS && (forall|j: int| 0 <= j < top ==> sel[j] <= fewer@[j])
                            && worth_of(sel, top as int) == amount;
                    let s2 = sel.update(k as int, (sel[k as int] + 1) as usize);
                    lemma_worth_update(sel, top as int, k as int, (sel[k as int] + 1) as usize);
                    assert((sel[k as int] + 1) * denomination(k as int) == sel[k as int] * denomination(k as int) + denomination(k as int)) by (nonlinear_arith);
                    assert(worth_of(s2, top as int) == rest - cur_sum);
                }
                Some(w)
            },
            None => {
                let r = Self::calc_rest_internal(rest, fewer, top, cur_sum, rest_coins);
                proof {
                    let amount = rest - cur_sum;
                    if payable(fewer@, top as int, amount) {
                        let sel = choose|sel: Seq<usize>|
                            #![trigger worth_of(sel, top as int)]
                            sel.len() == KINDS && (forall|j: int| 0 <= j < top ==> sel[j] <= fewer@[j])
                                && worth_of(sel, top as int) == amount;
                        assert(worth_of(sel, top as int) == amount);
                    }
                    if payable(coins@, top as int, amount) {
                        let sel = choose|sel: Seq<usize>|
                            #![trigger worth_of(sel, top as int)]
                            sel.len() == KINDS && (forall|j: int| 0 <= j < top ==> sel[j] <= coins@[j])
                                && worth_of(sel, top as int) == amount;
                        if sel[k as int] > 0 {
                            let s2 = sel.update(k as int, (sel[k as int] - 1) as usize);
                            lemma_worth_update(sel, top as int, k as int, (sel[k as int] - 1) as usize);
                            assert((sel[k as int] - 1) * denomination(k as int) + denomination(k as int) == sel[k as int] * denomination(k as int)) by (nonlinear_arith)
                                requires sel[k as int] > 0;
                            assert(worth_of(sel, top as int) >= denomination(k as int));
                            assert(worth_of(s2, top as int) == amount - v);
                        } else {
                            assert(worth_of(sel, top as int) == amount);
                        }
                    }
                }
                r
            },
        }
    }

    /// Change worth `rest` out of a box holding `coins[k]` coins of rank `k`,
    /// largest coins first; `None` when no choice of the coins is worth exactly
    /// `rest`.
    pub fn calc_rest(rest: usize, coins: &Vec<usize>) -> (r: Option<Vec<Coin>>)
        requires
            coins@.len() == KINDS,
        ensures
            r is Some <==> payable(coins@, KINDS as int, rest as int),
            r matches Some(v) ==> {
                &&& total(v@) == rest
                &&& forall|k: int| 0 <= k < KINDS ==> #[trigger] count(v@, k) <= coins@[k]
            },
    {
        let r = Self::calc_rest_internal(rest, coins.clone(), KINDS, 0, Vec::new());
        proof {
            assert forall|k: int| 0 <= k < KINDS implies #[trigger] count(Seq::<Coin>::empty(), k) == 0 by {}
        }
        r
    }

    /// Takes one `coin` out of the change box `coins`.
    fn decrement_amount(coin: &Coin, coins: &mut Vec<usize>)
        requires
            old(coins)@.len() == KINDS,
            old(coins)@[coin.rank()] >= 1,
        ensures
            final(coins)@ == old(coins)@.update(coin.rank(), (old(coins)@[coin.rank()] - 1) as usize),
    {
        let k = coin.index();
        coins[k] = coins[k] - 1;
    }

    /// Sells the ordered product. Refused with `NotEnoughMoney` when the coins
    /// paid in are worth less than the price, and with `CantGiveRest`, which
    /// hands the paid coins back, when no choice of the change box's coins is
    /// worth exactly the difference. Otherwise hands out the machine, ready
    /// again, the product, and the change, which leaves the change box.
    pub fn get_product(self) -> (r: Result<(VendingMachine<Ready>, Product, Vec<Coin>), VendingMachineError>)
        requires
            self.ready_to_pay(),
        ensures
            total(self.payed()) < self.product().price() ==> r matches Err(
                VendingMachineError::NotEnoughMoney,
            ),
            total(self.payed()) >= self.product().price() && !payable(
                self.coins(),
                KINDS as int,
                total(self.payed()) - self.product().price(),
            ) ==> (r matches Err(VendingMachineError::CantGiveRest(back)) && back@ == self.payed()),
            total(self.payed()) >= self.product().price() && payable(
                self.coins(),
                KINDS as int,
                total(self.payed()) - self.product().price(),
            ) ==> (r matches Ok((m, p, change)) && {
                &&& m.wf()
                &&& p.name() == self.product().name()
                &&& p.price() == self.product().price()
                &&& total(change@) == total(self.payed()) - self.product().price()
                &&& m.stock() == sold(self.stock(), self.product().name())
                &&& m.space_left() == self.space_left()
                &&& m.coins().len() == KINDS
                &&& forall|k: int|
                    0 <= k < KINDS ==> #[trigger] count(change@, k) <= self.coins()[k] && m.coins()[k]
                        == self.coins()[k] - count(change@, k)
            }),
    {
        let ghost pre = self;
        let ghost idx = choose|i: int|
            named(pre.stock(), pre.state.product.name@, i) && pre.stock()[i].1 == pre.state.product.price;
        let found = self.find(&self.state.product.name);
        let VendingMachine { products, space_left, coins, state } = self;
        let Paying { product, payed } = state;
        let n = payed.len();
        let mut paid: usize = 0;
        let mut j: usize = 0;
        while j < n
            invariant
                j <= n,
                n == payed@.len(),
                paid == total(payed@.take(j as int)),
                total(payed@) <= usize::MAX,
            decreases n - j,
        {
            proof {
                assert(payed@.take(j + 1) =~= payed@.take(j as int).push(payed@[j as int]));
                lemma_total_push(payed@.take(j as int), payed@[j as int]);
                lemma_total_prefix(payed@, j + 1);
            }
            paid = paid + payed[j].value();
            j = j + 1;
        }
        proof {
            assert(payed@.take(n as int) =~= payed@);
        }
        if paid < product.price {
            return Err(VendingMachineError::NotEnoughMoney);
        }
        let rest = paid - product.price;
        let change = match Self::calc_rest(rest, &coins) {
            None => {
                return Err(VendingMachineError::CantGiveRest(payed));
            },
            Some(change) => change,
        };
        let i = match found {
            Some(i) => i,
            None => {
                proof {
                    assert(named(pre.stock(), pre.state.product.name@, idx));
                }
                return Err(VendingMachineError::NoProduct);
            },
        };
        let mut machine = VendingMachine { products, space_left, coins, state: Ready };
        proof {
            assert forall|j: int| named(pre.stock(), pre.state.product.name@, j) implies j == i by {
                if j != i {
                    assert(pre.products@[j].name@ != pre.products@[i as int].name@);
                }
            }
        }
        let amount = machine.products[i].amount - 1;
        if amount == 0 {
            machine.products.remove(i);
            proof {
                assert(machine.stock() =~= pre.stock().remove(i as int));
                assert forall|a: int, b: int|
                    0 <= a < machine.products@.len() && 0 <= b < machine.products@.len() && a != b
                        implies machine.products@[a].name@ != machine.products@[b].name@ by {
                    let a0 = if a < i { a } else { a + 1 };
                    let b0 = if b < i { b } else { b + 1 };
                    assert(pre.products@[a0].name@ != pre.products@[b0].name@);
                }
                assert forall|a: int| 0 <= a < machine.products@.len() implies 1 <= #[trigger] machine.products@[a].amount
                    && machine.products@[a].amount + machine.space_left <= usize::MAX by {
                    let a0 = if a < i { a } else { a + 1 };
                    assert(pre.products@[a0].amount >= 1);
                }
            }
        } else {
            machine.products[i].amount = amount;
            proof {
                assert(machine.stock() =~= pre.stock().update(
                    i as int,
                    (pre.stock()[i as int].0, pre.stock()[i as int].1, amount),
                ));
            }
        }
        let ghost orig = machine.coins@;
        let ghost stocked = machine;
        proof {
            if amount != 0 {
                assert forall|a: int, b: int|
                    0 <= a < machine.products@.len() && 0 <= b < machine.products@.len() && a != b
                        implies machine.products@[a].name@ != machine.products@[b].name@ by {
                    assert(pre.products@[a].name@ != pre.products@[b].name@);
                }
                assert forall|a: int| 0 <= a < machine.products@.len() implies 1 <= #[trigger] machine.products@[a].amount
                    && machine.products@[a].amount + machine.space_left <= usize::MAX by {
                    assert(pre.products@[a].amount >= 1);
                }
            }
            assert(stocked.wf());
        }
        let mut t: usize = 0;
        while t < change.len()
            invariant
                t <= change@.len(),
                machine.coins@.len() == KINDS,
                orig.len() == KINDS,
                forall|k: int| 0 <= k < KINDS ==> #[trigger] count(change@, k) <= orig[k],
                forall|k: int| 0 <= k < KINDS ==> #[trigger] machine.coins@[k] == orig[k] - count(change@.take(t as int), k),
                machine.products == stocked.products,
                machine.space_left == stocked.space_left,
                stocked.wf(),
            decreases change@.len() - t,
        {
            let ghost c = change@[t as int];
            proof {
                assert(change@.take(t + 1) =~= change@.take(t as int).push(c));
                lemma_count_push(change@.take(t as int), c);
                lemma_count_prefix(change@, t + 1, c.rank());
                assert(count(change@.take(t + 1), c.rank()) == count(change@.take(t as int), c.rank()) + 1);
            }
            Self::decrement_amount(&change[t], &mut machine.coins);
            t = t + 1;
            proof {
                assert forall|q: int| 0 <= q < KINDS implies #[trigger] machine.coins@[q] == orig[q] - count(change@.take(t as int), q) by {
                    assert(count(change@.take(t - 1).push(c), q) == count(change@.take(t - 1), q) + if c.rank() == q { 1nat } else { 0nat });
                }
            }
        }
        proof {
            assert(change@.take(change@.len() as int) =~= change@);
            assert(named(pre.stock(), pre.state.product.name@, i as int));
        }
        Ok((machine, product, change))
    }
}

proof fn lemma_add_all_stops(
    stock: Seq<(Seq<char>, usize, usize)>,
    space: usize,
    items: Seq<(Seq<char>, usize)>,
    n: int,
)
    requires
        0 <= n <= items.len(),
        add_all(stock, space, items.take(n)) is Err,
    ensures
        add_all(stock, space, items) == add_all(stock, space, items.take(n)),
    decreases items.len() - n,
{
    if n < items.len() {
        assert(items.take(n + 1).drop_last() =~= items.take(n));
        lemma_add_all_stops(stock, space, items, n + 1);
    } else {
        assert(items.take(n) =~= items);
    }
}

proof fn lemma_count_push(s: Seq<Coin>, c: Coin)
    ensures
        forall|k: int| #[trigger] count(s.push(c), k) == count(s, k) + if c.rank() == k {
            1nat
        } else {
            0nat
        },
{
    assert(s.push(c).drop_last() =~= s);
}

proof fn lemma_count_prefix(s: Seq<Coin>, n: int, k: int)
    requires
        0 <= n <= s.len(),
    ensures
        count(s.take(n), k) <= count(s, k),
    decreases s.len() - n,
{
    if n < s.len() {
        lemma_count_prefix(s, n + 1, k);
        assert(s.take(n + 1).drop_last() =~= s.take(n));
    } else {
        assert(s.take(n) =~= s);
    }
}

proof fn lemma_total_push(s: Seq<Coin>, c: Coin)
    ensures
        total(s.push(c)) == total(s) + c.worth(),
{
    assert(s.push(c).drop_last() =~= s);
}

proof fn lemma_total_append(a: Seq<Coin>, b: Seq<Coin>)
    ensures
        total(a + b) == total(a) + total(b),
    decreases b.len(),
{
    if b.len() == 0 {
        assert(a + b =~= a);
    } else {
        assert((a + b).drop_last() =~= a + b.drop_last());
        lemma_total_append(a, b.drop_last());
    }
}

proof fn lemma_total_prefix(s: Seq<Coin>, n: int)
    requires
        0 <= n <= s.len(),
    ensures
        total(s.take(n)) <= total(s),
    decreases s.len() - n,
{
    if n < s.len() {
        lemma_total_prefix(s, n + 1);
        assert(s.take(n + 1).drop_last() =~= s.take(n));
    } else {
        assert(s.take(n) =~= s);
    }
}

} // verus!
