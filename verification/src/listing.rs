//! Which generations a directory listing names.

use crate::sort::{merge_sort, sorted};
use crate::text::{parse_tagged, tagged_number};
use vstd::prelude::*;

verus! {

/// Whether generation `n` lies past `limit` (`above`), or at or below it.
pub open spec fn on_side(n: u64, limit: u64, above: bool) -> bool {
    if above {
        n > limit
    } else {
        n <= limit
    }
}

/// The generations of the names `prefix` digits `suffix`, on one side of
/// `limit`, in listing order.
pub open spec fn numbers_in(
    names: Seq<String>,
    prefix: Seq<char>,
    suffix: Seq<char>,
    limit: u64,
    above: bool,
) -> Seq<u64>
    decreases names.len(),
{
    if names.len() == 0 {
        seq![]
    } else {
        let front = numbers_in(names.drop_last(), prefix, suffix, limit, above);
        match tagged_number(names.last()@, prefix, suffix) {
            Some(n) => if on_side(n, limit, above) {
                front.push(n)
            } else {
                front
            },
            None => front,
        }
    }
}

/// `r` holds those generations in ascending order.
pub open spec fn lists_numbers(
    r: Seq<u64>,
    names: Seq<String>,
    prefix: Seq<char>,
    suffix: Seq<char>,
    limit: u64,
    above: bool,
) -> bool {
    sorted(r) && r.to_multiset() == numbers_in(names, prefix, suffix, limit, above).to_multiset()
}

/// The generations in a listing, ascending.
pub fn list_numbers(
    names: &Vec<String>,
    prefix: &str,
    suffix: &str,
    limit: u64,
    above: bool,
) -> (r: Vec<u64>)
    ensures
        lists_numbers(r@, names@, prefix@, suffix@, limit, above),
{
    let mut out: Vec<u64> = Vec::new();
    let mut i: usize = 0;
    while i < names.len()
        invariant
            i <= names@.len(),
            out@ == numbers_in(names@.take(i as int), prefix@, suffix@, limit, above),
        decreases names@.len() - i,
    {
        assert(names@.take(i + 1).drop_last() =~= names@.take(i as int));
        match parse_tagged(names[i].as_str(), prefix, suffix) {
            Some(n) => {
                if (above && n > limit) || (!above && n <= limit) {
                    out.push(n);
                }
            },
            None => {},
        }
        i += 1;
    }
    assert(names@.take(i as int) =~= names@);
    merge_sort(out)
}

/// The greatest generation that a listing names at or below `limit`.
pub open spec fn greatest(r: Option<u64>, s: Seq<u64>) -> bool {
    match r {
        None => s.len() == 0,
        Some(g) => s.contains(g) && forall|i: int| 0 <= i < s.len() ==> #[trigger] s[i] <= g,
    }
}

/// The newest generation at or below `limit`, if any.
pub fn newest_number(names: &Vec<String>, prefix: &str, suffix: &str, limit: u64) -> (r: Option<u64>)
    ensures
        greatest(r, numbers_in(names@, prefix@, suffix@, limit, false)),
{
    let mut best: Option<u64> = None;
    let mut i: usize = 0;
    while i < names.len()
        invariant
            i <= names@.len(),
            greatest(best, numbers_in(names@.take(i as int), prefix@, suffix@, limit, false)),
        decreases names@.len() - i,
    {
        let ghost front = numbers_in(names@.take(i as int), prefix@, suffix@, limit, false);
        assert(names@.take(i + 1).drop_last() =~= names@.take(i as int));
        match parse_tagged(names[i].as_str(), prefix, suffix) {
            Some(n) => {
                if n <= limit {
                    let take = match best {
                        None => true,
                        Some(g) => n > g,
                    };
                    assert(front.push(n)[front.len() as int] == n);
                    assert(front.push(n).contains(n));
                    proof {
                        if let Some(g) = best {
                            let k = choose|k: int| 0 <= k < front.len() && front[k] == g;
                            assert(front.push(n)[k] == g);
                        }
                    }
                    if take {
                        best = Some(n);
                    }
                }
            },
            None => {},
        }
        i += 1;
    }
    assert(names@.take(i as int) =~= names@);
    best
}

} // verus!
