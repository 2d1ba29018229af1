//! Placements that arrive late, twice or out of order.

use crate::format::ErrV;
use crate::idmap::lookup;
use crate::placement::directory::{build, gate, gen_of, placed, Placement, PlacementRecord};
use vstd::prelude::*;

verus! {

/// No two placements of one replica share a generation, neither among the
/// records nor with the directory.
pub open spec fn consistent(m: Map<u64, Placement>, s: Seq<PlacementRecord>) -> bool {
    &&& forall|i: int, j: int|
        #![trigger s[i], s[j]]
        0 <= i < s.len() && 0 <= j < s.len() && s[i].rid == s[j].rid && gen_of(s[i].placement)
            == gen_of(s[j].placement) ==> s[i].placement == s[j].placement
    &&& forall|i: int|
        0 <= i < s.len() && m.contains_key((#[trigger] s[i]).rid.0) && gen_of(m[s[i].rid.0])
            == gen_of(s[i].placement) ==> m[s[i].rid.0] == s[i].placement
}

/// Where a replica may end: where it was, or where a record puts it.
pub open spec fn candidate(m: Map<u64, Placement>, s: Seq<PlacementRecord>, k: u64, p: Placement) -> bool {
    ||| m.contains_key(k) && m[k] == p
    ||| exists|i: int| 0 <= i < s.len() && (#[trigger] s[i]).rid.0 == k && s[i].placement == p
}

/// Consistent records are all let in, and each replica ends at its newest
/// placement.
pub proof fn newest_placement_wins(m: Map<u64, Placement>, s: Seq<PlacementRecord>)
    requires
        consistent(m, s),
    ensures
        build(m, s) is Ok,
        forall|k: u64| #[trigger]
            build(m, s)->Ok_0.contains_key(k) ==> candidate(m, s, k, build(m, s)->Ok_0[k]),
        forall|k: u64| #[trigger]
            m.contains_key(k) ==> build(m, s)->Ok_0.contains_key(k) && gen_of(m[k]) <= gen_of(
                build(m, s)->Ok_0[k],
            ),
        forall|i: int|
            0 <= i < s.len() ==> build(m, s)->Ok_0.contains_key((#[trigger] s[i]).rid.0) && gen_of(
                s[i].placement,
            ) <= gen_of(build(m, s)->Ok_0[s[i].rid.0]),
    decreases s.len(),
{
    if s.len() > 0 {
        let t = s.drop_last();
        let n = t.len() as int;
        assert forall|i: int, j: int|
            #![trigger t[i], t[j]]
            0 <= i < t.len() && 0 <= j < t.len() && t[i].rid == t[j].rid && gen_of(t[i].placement)
                == gen_of(t[j].placement) implies t[i].placement == t[j].placement by {
            assert(t[i] == s[i] && t[j] == s[j]);
        }
        assert forall|i: int|
            0 <= i < t.len() && m.contains_key((#[trigger] t[i]).rid.0) && gen_of(m[t[i].rid.0])
                == gen_of(t[i].placement) implies m[t[i].rid.0] == t[i].placement by {
            assert(t[i] == s[i]);
        }
        newest_placement_wins(m, t);
        let d = build(m, t)->Ok_0;
        let rec = s[n];
        assert(s.last() == rec);
        if let Some(e) = lookup(d, rec.rid.0) {
            assert(candidate(m, t, rec.rid.0, d[rec.rid.0]));
            if gen_of(e) == gen_of(rec.placement) {
                if !(m.contains_key(rec.rid.0) && m[rec.rid.0] == e) {
                    let i = choose|i: int|
                        0 <= i < t.len() && (#[trigger] t[i]).rid.0 == rec.rid.0 && t[i].placement == e;
                    assert(s[i] == t[i]);
                    assert(s[i].rid == s[n].rid);
                }
                assert(e == rec.placement);
            }
        }
        assert(gate(lookup(d, rec.rid.0), rec.rid, rec.placement) is Ok);
        let after = placed(d, rec.rid, rec.placement);
        assert(build(m, s) == Ok::<Map<u64, Placement>, ErrV>(after));
        assert forall|k: u64| #[trigger] after.contains_key(k) implies candidate(m, s, k, after[k]) by {
            if d.contains_key(k) && after[k] == d[k] {
                assert(candidate(m, t, k, d[k]));
                if !(m.contains_key(k) && m[k] == d[k]) {
                    let i = choose|i: int|
                        0 <= i < t.len() && (#[trigger] t[i]).rid.0 == k && t[i].placement == d[k];
                    assert(s[i] == t[i]);
                }
            } else {
                assert(s[n].rid.0 == k && s[n].placement == after[k]);
            }
        }
        assert forall|i: int| 0 <= i < s.len() implies after.contains_key((#[trigger] s[i]).rid.0)
            && gen_of(s[i].placement) <= gen_of(after[s[i].rid.0]) by {
            if i < n {
                assert(t[i] == s[i]);
                assert(d.contains_key(t[i].rid.0));
            }
        }
    }
}

/// Any number of placements, in any order and repeated, ends in the same
/// directory.
pub proof fn placements_end_alike_in_any_order(
    m: Map<u64, Placement>,
    s: Seq<PlacementRecord>,
    t: Seq<PlacementRecord>,
)
    requires
        consistent(m, s),
        forall|r: PlacementRecord| s.contains(r) <==> #[trigger] t.contains(r),
    ensures
        build(m, s) is Ok,
        build(m, t) == build(m, s),
{
    assert forall|i: int| 0 <= i < t.len() implies s.contains(#[trigger] t[i]) by {
        assert(t.contains(t[i]));
    }
    assert forall|i: int| 0 <= i < s.len() implies t.contains(#[trigger] s[i]) by {
        assert(s.contains(s[i]));
    }
    assert(consistent(m, t)) by {
        assert forall|i: int, j: int|
            #![trigger t[i], t[j]]
            0 <= i < t.len() && 0 <= j < t.len() && t[i].rid == t[j].rid && gen_of(t[i].placement)
                == gen_of(t[j].placement) implies t[i].placement == t[j].placement by {
            let a = choose|a: int| 0 <= a < s.len() && s[a] == t[i];
            let b = choose|b: int| 0 <= b < s.len() && s[b] == t[j];
            assert(s[a] == t[i] && s[b] == t[j]);
        }
        assert forall|i: int|
            0 <= i < t.len() && m.contains_key((#[trigger] t[i]).rid.0) && gen_of(m[t[i].rid.0])
                == gen_of(t[i].placement) implies m[t[i].rid.0] == t[i].placement by {
            let a = choose|a: int| 0 <= a < s.len() && s[a] == t[i];
            assert(s[a] == t[i]);
        }
    }
    newest_placement_wins(m, s);
    newest_placement_wins(m, t);
    let x = build(m, s)->Ok_0;
    let y = build(m, t)->Ok_0;
    lemma_below(m, s, t, x, y);
    lemma_below(m, t, s, y, x);
    assert forall|k: u64| #[trigger] x.contains_key(k) implies y.contains_key(k) && x[k] == y[k] by {
        assert(candidate(m, s, k, x[k]));
        assert(candidate(m, t, k, y[k]));
        assert(gen_of(x[k]) == gen_of(y[k]));
        if m.contains_key(k) && m[k] == x[k] {
            if m[k] != y[k] {
                let i = choose|i: int|
                    0 <= i < t.len() && (#[trigger] t[i]).rid.0 == k && t[i].placement == y[k];
                assert(m[t[i].rid.0] == t[i].placement);
            }
        } else {
            let i = choose|i: int|
                0 <= i < s.len() && (#[trigger] s[i]).rid.0 == k && s[i].placement == x[k];
            if m.contains_key(k) && m[k] == y[k] {
                assert(m[s[i].rid.0] == s[i].placement);
            } else {
                let j = choose|j: int|
                    0 <= j < t.len() && (#[trigger] t[j]).rid.0 == k && t[j].placement == y[k];
                assert(s.contains(t[j]));
                let b = choose|b: int| 0 <= b < s.len() && s[b] == t[j];
                assert(s[i].rid == s[b].rid);
            }
        }
    }
    assert(x =~= y);
}

/// What one directory holds the other holds no older.
proof fn lemma_below(
    m: Map<u64, Placement>,
    s: Seq<PlacementRecord>,
    t: Seq<PlacementRecord>,
    x: Map<u64, Placement>,
    y: Map<u64, Placement>,
)
    requires
        forall|i: int| 0 <= i < s.len() ==> t.contains(#[trigger] s[i]),
        forall|k: u64| #[trigger] x.contains_key(k) ==> candidate(m, s, k, x[k]),
        forall|k: u64| #[trigger]
            m.contains_key(k) ==> y.contains_key(k) && gen_of(m[k]) <= gen_of(y[k]),
        forall|i: int|
            0 <= i < t.len() ==> y.contains_key((#[trigger] t[i]).rid.0) && gen_of(t[i].placement)
                <= gen_of(y[t[i].rid.0]),
    ensures
        forall|k: u64| #[trigger]
            x.contains_key(k) ==> y.contains_key(k) && gen_of(x[k]) <= gen_of(y[k]),
{
    assert forall|k: u64| #[trigger] x.contains_key(k) implies y.contains_key(k) && gen_of(x[k])
        <= gen_of(y[k]) by {
        assert(candidate(m, s, k, x[k]));
        if !(m.contains_key(k) && m[k] == x[k]) {
            let i = choose|i: int|
                0 <= i < s.len() && (#[trigger] s[i]).rid.0 == k && s[i].placement == x[k];
            assert(t.contains(s[i]));
            let j = choose|j: int| 0 <= j < t.len() && t[j] == s[i];
            assert(y.contains_key(t[j].rid.0));
        }
    }
}

} // verus!
