//! Small slice helpers.

use vstd::prelude::*;
use crate::constraint::{lemma_filter_singleton, lemma_take_one_more};

verus! {

/// The predicate "occurs in `b`", as a function of the candidate value.
pub open spec fn member_of(b: Seq<i32>) -> spec_fn(i32) -> bool {
    |v: i32| b.contains(v)
}

/// Whether `s` holds `t` somewhere.
pub fn slice_contains(s: &[i32], t: i32) -> (r: bool)
    ensures
        r == s@.contains(t),
{
    let mut i: usize = 0;
    while i < s.len()
        invariant
            i <= s@.len(),
            forall|k: int| 0 <= k < i ==> s@[k] != t,
        decreases s@.len() - i,
    {
        if s[i] == t {
            return true;
        }
        i = i + 1;
    }
    false
}

/// The elements of `a` that also occur in `b`, in `a`'s order, duplicates
/// kept — no deduplication is performed.
pub fn slice_intersection(a: &[i32], b: &[i32]) -> (r: Vec<i32>)
    ensures
        r@ == a@.filter(member_of(b@)),
{
    let ghost pred = member_of(b@);
    let mut out: Vec<i32> = Vec::new();
    let mut i: usize = 0;
    while i < a.len()
        invariant
            i <= a@.len(),
            pred == member_of(b@),
            out@ == a@.take(i as int).filter(pred),
        decreases a@.len() - i,
    {
        let v = a[i];
        let keep = slice_contains(b, v);
        proof {
            lemma_take_one_more(a@, i as int);
            Seq::<i32>::filter_distributes_over_add(a@.take(i as int), seq![v], pred);
            lemma_filter_singleton(v, pred);
        }
        if keep {
            out.push(v);
        }
        i = i + 1;
    }
    proof {
        assert(a@.take(a@.len() as int) =~= a@);
    }
    out
}

} // verus!
