//! Text for the HTTP surface.

use crate::text::chars_of;
use vstd::prelude::*;

verus! {

/// How many bytes a character takes in UTF-8.
pub open spec fn char_bytes(c: char) -> nat {
    if (c as u32) < 0x80 {
        1
    } else if (c as u32) < 0x800 {
        2
    } else if (c as u32) < 0x10000 {
        3
    } else {
        4
    }
}

/// How many bytes a text takes in UTF-8.
pub open spec fn text_bytes(s: Seq<char>) -> nat
    decreases s.len(),
{
    if s.len() == 0 {
        0
    } else {
        text_bytes(s.drop_last()) + char_bytes(s.last())
    }
}

/// `n` leading characters are the most that fit in `max` bytes.
pub open spec fn fits_most(s: Seq<char>, n: int, max: int) -> bool {
    &&& 0 <= n <= s.len()
    &&& text_bytes(s.take(n)) <= max
    &&& n < s.len() ==> text_bytes(s.take(n + 1)) > max
}

/// A text of at most `max` bytes stays; a longer one keeps as many whole
/// characters as leave room for three dots, and gets the dots.
pub open spec fn truncated(s: Seq<char>, max: int, r: Seq<char>) -> bool {
    if text_bytes(s) <= max {
        r == s
    } else {
        exists|n: int|
            fits_most(
                s,
                n,
                if max >= 3 {
                    max - 3
                } else {
                    0
                },
            ) && r == #[trigger] s.take(n) + "..."@
    }
}

fn bytes_of_char(c: char) -> (r: u128)
    ensures
        r == char_bytes(c),
{
    let x = c as u32;
    if x < 0x80 {
        1
    } else if x < 0x800 {
        2
    } else if x < 0x10000 {
        3
    } else {
        4
    }
}

proof fn lemma_push_bytes(s: Seq<char>, c: char)
    ensures
        text_bytes(s.push(c)) == text_bytes(s) + char_bytes(c),
{
    assert(s.push(c).drop_last() =~= s);
}

/// Cuts a text to at most `max` bytes, never within a character.
pub fn truncate(s: &str, max: usize) -> (r: String)
    ensures
        truncated(s@, max as int, r@),
{
    let chars = chars_of(s);
    let room: usize = if max >= 3 {
        max - 3
    } else {
        0
    };
    let mut total: u128 = 0;
    let mut kept: usize = 0;
    let mut short = String::new();
    let mut i: usize = 0;
    assert(s@.take(0) =~= seq![]);
    assert(short@ =~= s@.take(0));
    while i < chars.len()
        invariant
            chars@ == s@,
            i <= chars@.len(),
            total == text_bytes(s@.take(i as int)),
            total <= 4 * i,
            kept <= i,
            short@ == s@.take(kept as int),
            text_bytes(s@.take(kept as int)) <= room,
            kept < i ==> text_bytes(s@.take(kept + 1)) > room,
        decreases chars@.len() - i,
    {
        let n = chars.len();
        proof {
            assert(s@.take(i + 1).drop_last() =~= s@.take(i as int));
            assert(s@.take(i + 1).last() == s@[i as int]);
        }
        let ghost before = short@;
        total = total + bytes_of_char(chars[i]);
        if kept == i && total <= room as u128 {
            short.push(chars[i]);
            assert(short@ =~= before.push(s@[i as int]));
            assert(s@.take(i + 1) =~= before.push(s@[i as int]));
            kept = i + 1;
        }
        i += 1;
    }
    assert(s@.take(i as int) =~= s@);
    if total <= max as u128 {
        return s.to_string();
    }
    proof {
        if kept == s@.len() {
            assert(s@.take(kept as int) =~= s@);
        }
        assert(fits_most(s@, kept as int, room as int));
    }
    let ghost cut = short@;
    short.push('.');
    short.push('.');
    short.push('.');
    proof {
        reveal_strlit("...");
        assert(short@ =~= cut + "..."@);
    }
    short
}

/// A text that was cut fits, where there is room for the dots.
pub proof fn truncated_text_fits(s: Seq<char>, max: int, r: Seq<char>)
    requires
        max >= 3,
        truncated(s, max, r),
    ensures
        text_bytes(r) <= max,
{
    if text_bytes(s) > max {
        let n = choose|n: int| fits_most(s, n, max - 3) && r == #[trigger] s.take(n) + "..."@;
        let t = s.take(n);
        reveal_strlit("...");
        assert(r =~= t.push('.').push('.').push('.'));
        lemma_push_bytes(t, '.');
        lemma_push_bytes(t.push('.'), '.');
        lemma_push_bytes(t.push('.').push('.'), '.');
    }
}

} // verus!
