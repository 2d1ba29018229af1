//! A verified merge sort over anything that can be ranked.

use vstd::multiset::Multiset;
use vstd::prelude::*;

verus! {

/// A total preorder, decided by `le`.
pub trait Ranked: Sized {
    spec fn ranked_le(&self, other: &Self) -> bool;

    proof fn lemma_total(a: &Self, b: &Self)
        ensures
            a.ranked_le(b) || b.ranked_le(a),
    ;

    proof fn lemma_trans(a: &Self, b: &Self, c: &Self)
        requires
            a.ranked_le(b),
            b.ranked_le(c),
        ensures
            a.ranked_le(c),
    ;

    fn le(&self, other: &Self) -> (r: bool)
        ensures
            r == self.ranked_le(other),
    ;
}

impl Ranked for u64 {
    open spec fn ranked_le(&self, other: &Self) -> bool {
        *self <= *other
    }

    proof fn lemma_total(a: &Self, b: &Self) {
    }

    proof fn lemma_trans(a: &Self, b: &Self, c: &Self) {
    }

    fn le(&self, other: &Self) -> (r: bool) {
        *self <= *other
    }
}

/// Each element ranks no later than those behind it.
pub open spec fn sorted<T: Ranked>(s: Seq<T>) -> bool {
    forall|i: int, j: int|
        #![trigger s[i], s[j]]
        0 <= i <= j < s.len() ==> s[i].ranked_le(&s[j])
}

/// `a` in reverse order.
fn reversed<T: Ranked>(v: Vec<T>) -> (r: Vec<T>)
    ensures
        r@ == v@.reverse(),
{
    let ghost all = v@;
    let mut v = v;
    let mut out: Vec<T> = Vec::new();
    while v.len() > 0
        invariant
            v@.len() + out@.len() == all.len(),
            v@ == all.take(v@.len() as int),
            forall|i: int| 0 <= i < out@.len() ==> out@[i] == all[all.len() - 1 - i],
        decreases v@.len(),
    {
        match v.pop() {
            Some(x) => {
                out.push(x);
            },
            None => {},
        }
    }
    assert(out@ =~= all.reverse());
    out
}

/// Both halves sorted, merged into one sorted whole.
fn merge<T: Ranked>(left: Vec<T>, right: Vec<T>) -> (r: Vec<T>)
    requires
        sorted(left@),
        sorted(right@),
    ensures
        sorted(r@),
        r@.to_multiset() == (left@ + right@).to_multiset(),
{
    broadcast use vstd::seq_lib::group_to_multiset_ensures;

    let ghost whole = (left@ + right@).to_multiset();
    let mut left = left;
    let mut right = right;
    let mut out: Vec<T> = Vec::new();
    proof {
        vstd::seq_lib::lemma_multiset_commutative(left@, right@);
        assert(out@.to_multiset() =~= Multiset::empty());
        assert(whole =~= left@.to_multiset().add(right@.to_multiset()).add(out@.to_multiset()));
    }
    while left.len() > 0 || right.len() > 0
        invariant
            sorted(left@),
            sorted(right@),
            whole == left@.to_multiset().add(right@.to_multiset()).add(out@.to_multiset()),
            forall|i: int, j: int|
                #![trigger out@[i], out@[j]]
                0 <= i <= j < out@.len() ==> out@[j].ranked_le(&out@[i]),
            forall|i: int, j: int|
                #![trigger left@[i], out@[j]]
                0 <= i < left@.len() && 0 <= j < out@.len() ==> left@[i].ranked_le(&out@[j]),
            forall|i: int, j: int|
                #![trigger right@[i], out@[j]]
                0 <= i < right@.len() && 0 <= j < out@.len() ==> right@[i].ranked_le(&out@[j]),
        decreases left@.len() + right@.len(),
    {
        broadcast use vstd::seq_lib::group_to_multiset_ensures;

        let from_right = right.len() > 0 && (left.len() == 0 || left[left.len() - 1].le(
            &right[right.len() - 1],
        ));
        let ghost l0 = left@;
        let ghost r0 = right@;
        let ghost o0 = out@;
        proof {
            if l0.len() > 0 && r0.len() > 0 {
                T::lemma_total(&l0.last(), &r0.last());
            }
        }
        if from_right {
            match right.pop() {
                Some(x) => {
                    proof {
                        assert(r0 =~= right@.push(x));
                        assert forall|i: int| 0 <= i < left@.len() implies (
                        #[trigger] left@[i]).ranked_le(&x) by {
                            T::lemma_trans(&left@[i], &l0.last(), &x);
                        }
                        T::lemma_total(&x, &x);
                    }
                    out.push(x);
                },
                None => {},
            }
        } else {
            match left.pop() {
                Some(x) => {
                    proof {
                        assert(l0 =~= left@.push(x));
                        assert forall|i: int| 0 <= i < right@.len() implies (
                        #[trigger] right@[i]).ranked_le(&x) by {
                            T::lemma_trans(&right@[i], &r0.last(), &x);
                        }
                        T::lemma_total(&x, &x);
                    }
                    out.push(x);
                },
                None => {},
            }
        }
        assert(whole =~= left@.to_multiset().add(right@.to_multiset()).add(out@.to_multiset()));
    }
    let ghost o = out@;
    let r = reversed(out);
    proof {
        assert(left@ =~= Seq::<T>::empty());
        assert(right@ =~= Seq::<T>::empty());
        o.lemma_reverse_to_multiset();
        assert(whole =~= o.to_multiset());
    }
    r
}

/// The same elements, in ranked order.
pub fn merge_sort<T: Ranked>(v: Vec<T>) -> (r: Vec<T>)
    ensures
        sorted(r@),
        r@.to_multiset() == v@.to_multiset(),
    decreases v@.len(),
{
    if v.len() <= 1 {
        proof {
            if v@.len() == 1 {
                T::lemma_total(&v@[0], &v@[0]);
            }
        }
        return v;
    }
    let ghost all = v@;
    let mut left = v;
    let right = left.split_off(left.len() / 2);
    assert(all =~= left@ + right@);
    let ghost l = left@;
    let ghost r = right@;
    let left = merge_sort(left);
    let right = merge_sort(right);
    proof {
        vstd::seq_lib::lemma_multiset_commutative(l, r);
        vstd::seq_lib::lemma_multiset_commutative(left@, right@);
    }
    merge(left, right)
}

} // verus!
