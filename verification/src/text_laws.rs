//! What the text functions and the order of keys mean, character by character
//! and byte by byte.

use crate::codec::{lex_le, lex_lt, un_le};
use crate::layout_laws::{number, numbers_are_little_endian};
use crate::codec::{lemma_un_le_le, pow256};
use crate::memtable::{begins, is_delete, mem_apply, row_of, value_of, MemV};
use crate::identity::ReplicaId;
use crate::text::{has_prefix, has_suffix, hex, is_white, join_spec, trim_back, trim_front, trim_of};
use vstd::prelude::*;

verus! {

// ---------------------------------------------------------------------------
// Keys
/// Two keys agree up to byte `n`.
pub open spec fn agree(a: Seq<u8>, b: Seq<u8>, n: int) -> bool {
    0 <= n <= a.len() && n <= b.len() && a.take(n) == b.take(n)
}

/// One key comes before another exactly where, behind what they share, it ends
/// or has the smaller byte.
pub proof fn keys_are_ordered_by_their_bytes(a: Seq<u8>, b: Seq<u8>)
    ensures
        lex_lt(a, b) <==> exists|n: int| #[trigger]
            agree(a, b, n) && n < b.len() && (n == a.len() || a[n] < b[n]),
        lex_le(a, b) <==> a == b || lex_lt(a, b),
    decreases a.len(),
{
    if a.len() > 0 && b.len() > 0 && a[0] == b[0] {
        let x = a.skip(1);
        let y = b.skip(1);
        keys_are_ordered_by_their_bytes(x, y);
        if lex_lt(a, b) {
            let n = choose|n: int| #[trigger]
                agree(x, y, n) && n < y.len() && (n == x.len() || x[n] < y[n]);
            assert forall|i: int| 0 <= i < n + 1 implies a[i] == b[i] by {
                if i > 0 {
                    assert(x.take(n)[i - 1] == y.take(n)[i - 1]);
                }
            }
            assert(a.take(n + 1) =~= b.take(n + 1));
            assert(agree(a, b, n + 1));
        }
        if exists|n: int| #[trigger]
            agree(a, b, n) && n < b.len() && (n == a.len() || a[n] < b[n]) {
            let n = choose|n: int| #[trigger]
                agree(a, b, n) && n < b.len() && (n == a.len() || a[n] < b[n]);
            assert(n > 0);
            assert forall|i: int| 0 <= i < n - 1 implies x[i] == y[i] by {
                assert(a.take(n)[i + 1] == b.take(n)[i + 1]);
            }
            assert(x.take(n - 1) =~= y.take(n - 1));
            assert(agree(x, y, n - 1));
        }
    } else {
        assert(a.take(0) =~= b.take(0));
        if lex_lt(a, b) {
            assert(agree(a, b, 0));
        }
        if exists|n: int| #[trigger]
            agree(a, b, n) && n < b.len() && (n == a.len() || a[n] < b[n]) {
            let n = choose|n: int| #[trigger]
                agree(a, b, n) && n < b.len() && (n == a.len() || a[n] < b[n]);
            if n > 0 {
                assert(a.take(n)[0] == b.take(n)[0]);
            }
        }
    }
}

/// A key begins with a prefix exactly where it is the prefix and something
/// behind it.
pub proof fn prefixes_begin_their_keys(prefix: Seq<u8>, key: Seq<u8>)
    ensures
        begins(key, prefix) <==> exists|rest: Seq<u8>| key == #[trigger] (prefix + rest),
{
    if begins(key, prefix) {
        assert(key =~= prefix + key.skip(prefix.len() as int));
    }
    if exists|rest: Seq<u8>| key == #[trigger] (prefix + rest) {
        let rest = choose|rest: Seq<u8>| key == #[trigger] (prefix + rest);
        assert(key.take(prefix.len() as int) =~= prefix);
    }
}

/// A number that was written is read.
pub proof fn numbers_are_read_as_written(x: nat, n: nat)
    requires
        x < pow256(n),
    ensures
        un_le(number(x, n)) == x,
{
    numbers_are_little_endian(x, n);
    lemma_un_le_le(x, n);
}

// ---------------------------------------------------------------------------
// Rows
/// A write makes one row: its flags are 1 with a value and 2 for a deletion,
/// which holds none; it reads as what was written; and the memtable counts its
/// key and its value.
pub proof fn rows_say_what_was_written(
    m: MemV,
    key: Seq<u8>,
    seq: u64,
    value: Option<Seq<u8>>,
    rid: ReplicaId,
)
    requires
        m.bytes + key.len() + (match value {
            Some(v) => v.len(),
            None => 0,
        }) <= usize::MAX,
    ensures
        ({
            let e = row_of(key, seq, value, rid);
            &&& e.key == key
            &&& e.seq == seq
            &&& e.replica_id == rid
            &&& value is Some ==> e.flags == 1 && e.value == value->0
            &&& value is None ==> e.flags == 2 && e.value.len() == 0
            &&& value_of(e) == value
            &&& is_delete(e) <==> value is None
        }),
        mem_apply(m, key, seq, value, rid).bytes == m.bytes + key.len() + (match value {
            Some(v) => v.len(),
            None => 0,
        }),
{
    assert(1u8 & 2u8 == 0) by (bit_vector);
    assert(2u8 & 2u8 != 0) by (bit_vector);
}

// ---------------------------------------------------------------------------
// Text
proof fn lemma_front(s: Seq<char>) -> (i: int)
    ensures
        0 <= i <= s.len(),
        trim_front(s) == s.skip(i),
        forall|k: int| 0 <= k < i ==> is_white(#[trigger] s[k]),
        i < s.len() ==> !is_white(s[i]),
    decreases s.len(),
{
    if s.len() > 0 && is_white(s[0]) {
        let i = lemma_front(s.skip(1));
        assert(s.skip(1).skip(i) =~= s.skip(i + 1));
        assert forall|k: int| 0 <= k < i + 1 implies is_white(#[trigger] s[k]) by {
            if k > 0 {
                assert(s.skip(1)[k - 1] == s[k]);
            }
        }
        i + 1
    } else {
        assert(s.skip(0) =~= s);
        0
    }
}

proof fn lemma_back(s: Seq<char>) -> (j: int)
    ensures
        0 <= j <= s.len(),
        trim_back(s) == s.take(j),
        forall|k: int| j <= k < s.len() ==> is_white(#[trigger] s[k]),
        j > 0 ==> !is_white(s[j - 1]),
    decreases s.len(),
{
    if s.len() > 0 && is_white(s.last()) {
        let j = lemma_back(s.drop_last());
        assert(s.drop_last().take(j) =~= s.take(j));
        assert forall|k: int| j <= k < s.len() implies is_white(#[trigger] s[k]) by {
            if k < s.len() - 1 {
                assert(s.drop_last()[k] == s[k]);
            }
        }
        j
    } else {
        assert(s.take(s.len() as int) =~= s);
        s.len() as int
    }
}

/// White space: tabs and line ends, the blank, the next line, the blanks of
/// other scripts and widths, and the separators of lines and paragraphs.
pub proof fn white_space_is_listed(c: char)
    ensures
        is_white(c) <==> seq![
            0x9u32, 0xa, 0xb, 0xc, 0xd, 0x20, 0x85, 0xa0, 0x1680, 0x2000, 0x2001, 0x2002, 0x2003,
            0x2004, 0x2005, 0x2006, 0x2007, 0x2008, 0x2009, 0x200a, 0x2028, 0x2029, 0x202f, 0x205f,
            0x3000,
        ].contains(c as u32),
{
    let all = seq![
        0x9u32, 0xa, 0xb, 0xc, 0xd, 0x20, 0x85, 0xa0, 0x1680, 0x2000, 0x2001, 0x2002, 0x2003,
        0x2004, 0x2005, 0x2006, 0x2007, 0x2008, 0x2009, 0x200a, 0x2028, 0x2029, 0x202f, 0x205f,
        0x3000,
    ];
    let u = c as u32;
    if is_white(c) {
        let i: int = if u <= 0xd {
            u - 9
        } else if u == 0x20 {
            5
        } else if u == 0x85 {
            6
        } else if u == 0xa0 {
            7
        } else if u == 0x1680 {
            8
        } else if u <= 0x200a {
            u - 0x2000 + 9
        } else if u == 0x2028 {
            20
        } else if u == 0x2029 {
            21
        } else if u == 0x202f {
            22
        } else if u == 0x205f {
            23
        } else {
            24
        };
        assert(all[i] == u);
    } else if all.contains(u) {
        let i = choose|i: int| 0 <= i < all.len() && all[i] == u;
        assert(i < 25);
    }
}

/// A text that is trimmed loses the white space at its ends, and nothing else.
pub proof fn trimming_takes_white_ends(s: Seq<char>) -> (r: (int, int))
    ensures
        0 <= r.0 <= r.1 <= s.len(),
        trim_of(s) == s.subrange(r.0, r.1),
        forall|k: int| 0 <= k < r.0 || r.1 <= k < s.len() ==> is_white(#[trigger] s[k]),
        r.0 < r.1 ==> !is_white(s[r.0]) && !is_white(s[r.1 - 1]),
{
    let i = lemma_front(s);
    let t = s.skip(i);
    let j = lemma_back(t);
    assert(t.take(j) =~= s.subrange(i, i + j));
    assert forall|k: int| 0 <= k < i || i + j <= k < s.len() implies is_white(#[trigger] s[k]) by {
        if k >= i + j {
            assert(t[k - i] == s[k]);
        }
    }
    if j > 0 {
        assert(t[j - 1] == s[i + j - 1]);
        assert(t[0] == s[i]);
    }
    (i, i + j)
}

/// The sixteen digits.
pub open spec fn hex_digits() -> Seq<char> {
    seq!['0', '1', '2', '3', '4', '5', '6', '7', '8', '9', 'a', 'b', 'c', 'd', 'e', 'f']
}

/// Every byte is two digits, the high half first.
pub proof fn bytes_are_two_digits(b: Seq<u8>)
    ensures
        hex(b).len() == 2 * b.len(),
        forall|i: int|
            #![trigger b[i]]
            0 <= i < b.len() ==> hex(b)[2 * i] == hex_digits()[b[i] as int / 16] && hex(b)[2 * i
                + 1] == hex_digits()[b[i] as int % 16],
    decreases b.len(),
{
    if b.len() > 0 {
        let front = b.drop_last();
        bytes_are_two_digits(front);
        let x = b.last();
        lemma_hex_digit(x as nat / 16);
        lemma_hex_digit(x as nat % 16);
        assert forall|i: int|
            #![trigger b[i]]
            0 <= i < b.len() implies hex(b)[2 * i] == hex_digits()[b[i] as int / 16] && hex(b)[2 * i
            + 1] == hex_digits()[b[i] as int % 16] by {
            if i < front.len() {
                assert(front[i] == b[i]);
                assert(hex(b)[2 * i] == hex(front)[2 * i]);
                assert(hex(b)[2 * i + 1] == hex(front)[2 * i + 1]);
            }
        }
    }
}

proof fn lemma_hex_digit(d: nat)
    requires
        d < 16,
    ensures
        crate::text::hex_digit(d) == hex_digits()[d as int],
{
    let s = hex_digits();
    assert(s[0] == '0' && s[1] == '1' && s[2] == '2' && s[3] == '3' && s[4] == '4' && s[5] == '5');
    assert(s[6] == '6' && s[7] == '7' && s[8] == '8' && s[9] == '9' && s[10] == 'a' && s[11] == 'b');
    assert(s[12] == 'c' && s[13] == 'd' && s[14] == 'e' && s[15] == 'f');
}

/// A path is the directory and the name with one separator between them, where
/// the directory does not bring it.
pub proof fn paths_have_one_separator(dir: Seq<char>, name: Seq<char>)
    ensures
        dir.len() == 0 ==> join_spec(dir, name) == name,
        dir.len() > 0 && dir[dir.len() - 1] == '/' ==> join_spec(dir, name) == dir + name,
        dir.len() > 0 && dir[dir.len() - 1] != '/' ==> join_spec(dir, name) == dir + seq!['/']
            + name,
{
    if dir.len() == 0 {
        assert(join_spec(dir, name) =~= name);
    } else if dir[dir.len() - 1] != '/' {
        assert(join_spec(dir, name) =~= dir + seq!['/'] + name);
    }
}

/// A text begins, or ends, with another exactly where it is that and something
/// more.
pub proof fn texts_begin_and_end(s: Seq<char>, p: Seq<char>)
    ensures
        has_prefix(s, p) <==> exists|rest: Seq<char>| s == #[trigger] (p + rest),
        has_suffix(s, p) <==> exists|rest: Seq<char>| s == #[trigger] (rest + p),
{
    if has_prefix(s, p) {
        assert(s =~= p + s.skip(p.len() as int));
    }
    if exists|rest: Seq<char>| s == #[trigger] (p + rest) {
        let rest = choose|rest: Seq<char>| s == #[trigger] (p + rest);
        assert(s.take(p.len() as int) =~= p);
    }
    if has_suffix(s, p) {
        assert(s =~= s.take(s.len() - p.len()) + p);
    }
    if exists|rest: Seq<char>| s == #[trigger] (rest + p) {
        let rest = choose|rest: Seq<char>| s == #[trigger] (rest + p);
        assert(s.skip(s.len() - p.len()) =~= p);
    }
}

} // verus!
