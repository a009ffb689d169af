use vstd::prelude::*;

use crate::laws::{exec_total, exec_total_at};
use crate::types::Execution;

verus! {

/// The sum of `f` over a finite set of prices.
pub open spec fn price_sum(ps: Set<u64>, f: spec_fn(u64) -> nat) -> nat
    decreases ps.len(),
{
    if ps.finite() && ps.len() > 0 {
        let p = ps.choose();
        f(p) + price_sum(ps.remove(p), f)
    } else {
        0
    }
}

/// The sum is the term of any one price plus the sum over the others.
pub proof fn lemma_price_sum_remove(ps: Set<u64>, f: spec_fn(u64) -> nat, x: u64)
    requires
        ps.finite(),
        ps.contains(x),
    ensures
        price_sum(ps, f) == f(x) + price_sum(ps.remove(x), f),
    decreases ps.len(),
{
    let p = ps.choose();
    if p != x {
        lemma_price_sum_remove(ps.remove(p), f, x);
        lemma_price_sum_remove(ps.remove(x), f, p);
        assert(ps.remove(p).remove(x) =~= ps.remove(x).remove(p));
    }
}

/// Summing two functions term by term sums their sums.
pub proof fn lemma_price_sum_add(
    ps: Set<u64>,
    f: spec_fn(u64) -> nat,
    g: spec_fn(u64) -> nat,
    h: spec_fn(u64) -> nat,
)
    requires
        ps.finite(),
        forall|p: u64| ps.contains(p) ==> #[trigger] h(p) == f(p) + g(p),
    ensures
        price_sum(ps, h) == price_sum(ps, f) + price_sum(ps, g),
    decreases ps.len(),
{
    if ps.len() > 0 {
        let p = ps.choose();
        lemma_price_sum_add(ps.remove(p), f, g, h);
    }
}

/// A sum of zeros is zero.
pub proof fn lemma_price_sum_zero(ps: Set<u64>, f: spec_fn(u64) -> nat)
    requires
        ps.finite(),
        forall|p: u64| ps.contains(p) ==> #[trigger] f(p) == 0,
    ensures
        price_sum(ps, f) == 0,
    decreases ps.len(),
{
    if ps.len() > 0 {
        let p = ps.choose();
        lemma_price_sum_zero(ps.remove(p), f);
    }
}

/// The quantity traded by a sequence of executions, all at prices of `ps`, is the sum over
/// `ps` of what was traded at each price.
pub proof fn lemma_price_sum_executions(ps: Set<u64>, s: Seq<Execution>)
    requires
        ps.finite(),
        forall|i: int| 0 <= i < s.len() ==> ps.contains(#[trigger] s[i].price),
    ensures
        price_sum(ps, |p: u64| exec_total_at(s, p)) == exec_total(s),
    decreases s.len(),
{
    let f = |p: u64| exec_total_at(s, p);
    if s.len() == 0 {
        lemma_price_sum_zero(ps, f);
    } else {
        let s0 = s.drop_last();
        let e = s.last();
        let f0 = |p: u64| exec_total_at(s0, p);
        let g = |p: u64|
            if e.price == p {
                e.quantity as nat
            } else {
                0nat
            };
        assert forall|i: int| 0 <= i < s0.len() implies ps.contains(#[trigger] s0[i].price) by {
            assert(s0[i] == s[i]);
        }
        lemma_price_sum_executions(ps, s0);
        lemma_price_sum_add(ps, f0, g, f);
        assert(ps.contains(e.price)) by {
            assert(s[s.len() - 1] == e);
        }
        lemma_price_sum_remove(ps, g, e.price);
        lemma_price_sum_zero(ps.remove(e.price), g);
    }
}

} // verus!
