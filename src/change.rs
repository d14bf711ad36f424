use vstd::prelude::*;

use crate::coin::{denomination, Coin, KINDS};

verus! {

/// The value of the coins `s`.
pub open spec fn total(s: Seq<Coin>) -> nat
    decreases s.len(),
{
    if s.len() == 0 {
        0
    } else {
        total(s.drop_last()) + s.last().worth()
    }
}

/// How many coins of rank `k` there are in `s`.
pub open spec fn count(s: Seq<Coin>, k: int) -> nat
    decreases s.len(),
{
    if s.len() == 0 {
        0
    } else {
        count(s.drop_last(), k) + if s.last().rank() == k {
            1nat
        } else {
            0nat
        }
    }
}

/// The value of a selection that takes `sel[k]` coins of rank `k`, for the
/// ranks below `n`.
pub open spec fn worth_of(sel: Seq<usize>, n: int) -> nat
    decreases n,
{
    if n <= 0 {
        0
    } else {
        worth_of(sel, n - 1) + (sel[n - 1] as nat) * denomination(n - 1)
    }
}

/// Whether coins of the ranks below `top`, at most `avail[k]` of rank `k`,
/// can make up `amount` exactly.
pub open spec fn payable(avail: Seq<usize>, top: int, amount: int) -> bool {
    exists|sel: Seq<usize>|
        #![trigger worth_of(sel, top)]
        sel.len() == KINDS && (forall|k: int| 0 <= k < top ==> sel[k] <= avail[k]) && worth_of(sel, top)
            == amount
}

pub(crate) proof fn lemma_worth_update(sel: Seq<usize>, n: int, k: int, x: usize)
    requires
        0 <= k < sel.len(),
        n <= sel.len(),
    ensures
        k < n ==> worth_of(sel.update(k, x), n) + sel[k] * denomination(k) == worth_of(sel, n) + x
            * denomination(k),
        k >= n ==> worth_of(sel.update(k, x), n) == worth_of(sel, n),
    decreases n,
{
    if n > 0 {
        lemma_worth_update(sel, n - 1, k, x);
    }
}

pub(crate) proof fn lemma_worth_zero(sel: Seq<usize>, n: int)
    requires
        n <= sel.len(),
        forall|k: int| 0 <= k < n ==> sel[k] == 0,
    ensures
        worth_of(sel, n) == 0,
    decreases n,
{
    if n > 0 {
        lemma_worth_zero(sel, n - 1);
    }
}

pub(crate) proof fn lemma_push_coin(s: Seq<Coin>, c: Coin)
    ensures
        total(s.push(c)) == total(s) + c.worth(),
        forall|k: int| #[trigger] count(s.push(c), k) == count(s, k) + if c.rank() == k {
            1nat
        } else {
            0nat
        },
{
    assert(s.push(c).drop_last() =~= s);
}

} // verus!
