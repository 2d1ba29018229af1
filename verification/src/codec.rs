//! Bytes: little-endian integers, slices, and the byte-wise order of keys.

use vstd::prelude::*;

verus! {

/// The `n` lowest bytes of `x`, least significant first.
#[verifier::opaque]
pub open spec fn le(x: nat, n: nat) -> Seq<u8>
    decreases n,
{
    if n == 0 {
        seq![]
    } else {
        seq![(x % 256) as u8] + le(x / 256, (n - 1) as nat)
    }
}

/// The number that `s` denotes, least significant byte first.
#[verifier::opaque]
pub open spec fn un_le(s: Seq<u8>) -> nat
    decreases s.len(),
{
    if s.len() == 0 {
        0
    } else {
        s[0] as nat + 256 * un_le(s.skip(1))
    }
}

/// 256 to the power `n`.
pub open spec fn pow256(n: nat) -> nat
    decreases n,
{
    if n == 0 {
        1
    } else {
        256 * pow256((n - 1) as nat)
    }
}

pub proof fn lemma_le_len(x: nat, n: nat)
    ensures
        le(x, n).len() == n,
    decreases n,
{
    reveal(le);
    if n > 0 {
        lemma_le_len(x / 256, (n - 1) as nat);
    }
}

/// Reading back an encoded integer gives the integer, where it fits.
pub proof fn lemma_un_le_le(x: nat, n: nat)
    requires
        x < pow256(n),
    ensures
        un_le(le(x, n)) == x,
    decreases n,
{
    reveal(le);
    reveal(un_le);
    if n > 0 {
        lemma_un_le_le(x / 256, (n - 1) as nat);
        assert(le(x, n).skip(1) =~= le(x / 256, (n - 1) as nat));
    }
}

/// Encoding a decoded integer gives the bytes back.
pub proof fn lemma_le_un_le(s: Seq<u8>)
    ensures
        le(un_le(s), s.len()) == s,
        un_le(s) < pow256(s.len()),
    decreases s.len(),
{
    reveal(le);
    reveal(un_le);
    if s.len() > 0 {
        lemma_le_un_le(s.skip(1));
        assert((un_le(s) % 256) as u8 == s[0]);
        assert(un_le(s) / 256 == un_le(s.skip(1)));
        assert(le(un_le(s), s.len()) =~= s);
    } else {
        assert(le(un_le(s), s.len()) =~= s);
    }
}

pub proof fn lemma_pow256()
    ensures
        pow256(1) == 0x100,
        pow256(2) == 0x1_0000,
        pow256(4) == 0x1_0000_0000,
        pow256(8) == 0x1_0000_0000_0000_0000,
{
    reveal_with_fuel(pow256, 9);
}

/// Appends the `n` lowest bytes of `x`.
fn push_le(out: &mut Vec<u8>, x: u64, n: usize)
    ensures
        final(out)@ == old(out)@ + le(x as nat, n as nat),
{
    let mut v: u64 = x;
    let mut i: usize = 0;
    while i < n
        invariant
            i <= n,
            out@ + le(v as nat, (n - i) as nat) == old(out)@ + le(x as nat, n as nat),
        decreases n - i,
    {
        proof {
            reveal(le);
        }
        out.push((v % 256) as u8);
        v = v / 256;
        i += 1;
        assert(out@ + le(v as nat, (n - i) as nat) =~= old(out)@ + le(x as nat, n as nat));
    }
    proof {
        reveal(le);
    }
    assert(out@ =~= old(out)@ + le(x as nat, n as nat));
}

/// Appends a 16-bit integer.
pub fn push_u16(out: &mut Vec<u8>, x: u16)
    ensures
        final(out)@ == old(out)@ + le(x as nat, 2),
{
    push_le(out, x as u64, 2);
}

/// Appends a 32-bit integer.
pub fn push_u32(out: &mut Vec<u8>, x: u32)
    ensures
        final(out)@ == old(out)@ + le(x as nat, 4),
{
    push_le(out, x as u64, 4);
}

/// Appends a 64-bit integer.
pub fn push_u64(out: &mut Vec<u8>, x: u64)
    ensures
        final(out)@ == old(out)@ + le(x as nat, 8),
{
    push_le(out, x, 8);
}

/// Appends a run of bytes.
pub fn push_bytes(out: &mut Vec<u8>, b: &[u8])
    ensures
        final(out)@ == old(out)@ + b@,
{
    out.extend_from_slice(b);
    assert(out@ =~= old(out)@ + b@);
}

/// The 64-bit integer of up to eight bytes.
pub fn read_le(b: &[u8]) -> (r: u64)
    requires
        b@.len() <= 8,
    ensures
        r == un_le(b@),
        r < pow256(b@.len()),
{
    let mut v: u64 = 0;
    let mut i: usize = b.len();
    proof {
        lemma_pow256_mono(b@.len(), 8);
        lemma_pow256();
        lemma_le_un_le(b@);
        reveal(un_le);
    }
    assert(b@.skip(b@.len() as int) =~= Seq::<u8>::empty());
    while i > 0
        invariant
            i <= b@.len() <= 8,
            v == un_le(b@.skip(i as int)),
            pow256(8) == 0x1_0000_0000_0000_0000,
        decreases i,
    {
        i -= 1;
        assert(b@.skip(i as int).skip(1) =~= b@.skip(i + 1));
        proof {
            reveal(un_le);
            lemma_le_un_le(b@.skip(i as int));
            lemma_pow256_mono(b@.skip(i as int).len(), 8);
        }
        v = v * 256 + b[i] as u64;
    }
    assert(b@.skip(0) =~= b@);
    v
}

pub proof fn lemma_pow256_mono(a: nat, b: nat)
    requires
        a <= b,
    ensures
        1 <= pow256(a) <= pow256(b),
    decreases b,
{
    if a < b {
        lemma_pow256_mono(a, (b - 1) as nat);
    } else if a > 0 {
        lemma_pow256_mono((a - 1) as nat, (a - 1) as nat);
    }
}

/// Two runs of bytes are equal.
pub fn bytes_eq(a: &[u8], b: &[u8]) -> (r: bool)
    ensures
        r == (a@ == b@),
{
    if a.len() != b.len() {
        return false;
    }
    let mut i: usize = 0;
    while i < a.len()
        invariant
            a@.len() == b@.len(),
            i <= a@.len(),
            forall|j: int| 0 <= j < i ==> a@[j] == b@[j],
        decreases a@.len() - i,
    {
        if a[i] != b[i] {
            return false;
        }
        i += 1;
    }
    assert(a@ =~= b@);
    true
}

/// A copy of a run of bytes.
pub fn to_vec(a: &[u8]) -> (r: Vec<u8>)
    ensures
        r@ == a@,
{
    let mut out: Vec<u8> = Vec::new();
    push_bytes(&mut out, a);
    assert(out@ =~= a@);
    out
}

/// The byte-wise (lexicographic) order: `a` comes strictly before `b`.
pub open spec fn lex_lt(a: Seq<u8>, b: Seq<u8>) -> bool
    decreases a.len(),
{
    if b.len() == 0 {
        false
    } else if a.len() == 0 {
        true
    } else if a[0] != b[0] {
        a[0] < b[0]
    } else {
        lex_lt(a.skip(1), b.skip(1))
    }
}

/// `a` comes before `b` or equals it.
pub open spec fn lex_le(a: Seq<u8>, b: Seq<u8>) -> bool {
    a == b || lex_lt(a, b)
}

pub proof fn lemma_lex_irreflexive(a: Seq<u8>)
    ensures
        !lex_lt(a, a),
    decreases a.len(),
{
    if a.len() > 0 {
        lemma_lex_irreflexive(a.skip(1));
    }
}

pub proof fn lemma_lex_total(a: Seq<u8>, b: Seq<u8>)
    ensures
        lex_lt(a, b) || a == b || lex_lt(b, a),
        !(lex_lt(a, b) && lex_lt(b, a)),
        a == b ==> !lex_lt(a, b),
    decreases a.len(),
{
    if a.len() > 0 && b.len() > 0 {
        lemma_lex_total(a.skip(1), b.skip(1));
        if a[0] == b[0] && a.skip(1) == b.skip(1) {
            assert(a =~= seq![a[0]] + a.skip(1));
            assert(b =~= seq![b[0]] + b.skip(1));
        }
    } else if a.len() == 0 && b.len() == 0 {
        assert(a =~= b);
    }
    if a == b {
        lemma_lex_irreflexive(a);
    }
}

pub proof fn lemma_lex_trans(a: Seq<u8>, b: Seq<u8>, c: Seq<u8>)
    requires
        lex_lt(a, b),
        lex_lt(b, c),
    ensures
        lex_lt(a, c),
    decreases a.len(),
{
    if a.len() > 0 && a[0] == b[0] && b[0] == c[0] {
        lemma_lex_trans(a.skip(1), b.skip(1), c.skip(1));
    }
}

/// The order of two keys.
#[derive(Debug, Clone, Copy, PartialEq, Eq, Structural)]
pub enum Order {
    Less,
    Equal,
    Greater,
}

/// How `a` and `b` compare byte-wise.
pub fn compare(a: &[u8], b: &[u8]) -> (r: Order)
    ensures
        r == Order::Less <==> lex_lt(a@, b@),
        r == Order::Equal <==> a@ == b@,
        r == Order::Greater <==> lex_lt(b@, a@),
{
    let mut i: usize = 0;
    proof {
        lemma_lex_total(a@, b@);
    }
    assert(a@.skip(0) =~= a@);
    assert(b@.skip(0) =~= b@);
    while i < a.len() && i < b.len()
        invariant
            i <= a@.len(),
            i <= b@.len(),
            forall|j: int| 0 <= j < i ==> a@[j] == b@[j],
            lex_lt(a@, b@) == lex_lt(a@.skip(i as int), b@.skip(i as int)),
            lex_lt(b@, a@) == lex_lt(b@.skip(i as int), a@.skip(i as int)),
            lex_lt(a@, b@) || a@ == b@ || lex_lt(b@, a@),
            !(lex_lt(a@, b@) && lex_lt(b@, a@)),
            a@ == b@ ==> !lex_lt(a@, b@),
        decreases a@.len() - i,
    {
        if a[i] < b[i] {
            return Order::Less;
        }
        if a[i] > b[i] {
            return Order::Greater;
        }
        assert(a@.skip(i as int).skip(1) =~= a@.skip(i + 1));
        assert(b@.skip(i as int).skip(1) =~= b@.skip(i + 1));
        i += 1;
    }
    if i < b.len() {
        Order::Less
    } else if i < a.len() {
        Order::Greater
    } else {
        assert(a@ =~= b@);
        Order::Equal
    }
}

/// Whether `a` comes strictly before `b`.
pub fn lt(a: &[u8], b: &[u8]) -> (r: bool)
    ensures
        r == lex_lt(a@, b@),
{
    compare(a, b) == Order::Less
}

/// The little-endian form of a 64-bit number.
pub fn le8(x: u64) -> (r: [u8; 8])
    ensures
        r@ == le(x as nat, 8),
{
    let mut v: Vec<u8> = Vec::new();
    push_u64(&mut v, x);
    proof {
        lemma_le_len(x as nat, 8);
    }
    let r = [v[0], v[1], v[2], v[3], v[4], v[5], v[6], v[7]];
    assert(r@ =~= v@);
    assert(v@ =~= le(x as nat, 8));
    r
}

/// The little-endian form of a 32-bit number.
pub fn le4(x: u32) -> (r: [u8; 4])
    ensures
        r@ == le(x as nat, 4),
{
    let mut v: Vec<u8> = Vec::new();
    push_u32(&mut v, x);
    proof {
        lemma_le_len(x as nat, 4);
    }
    let r = [v[0], v[1], v[2], v[3]];
    assert(r@ =~= v@);
    assert(v@ =~= le(x as nat, 4));
    r
}

/// The sixteen bytes of a slice, as an array.
pub fn array16(s: &[u8]) -> (r: [u8; 16])
    requires
        s@.len() == 16,
    ensures
        r@ == s@,
{
    let r = [
        s[0],
        s[1],
        s[2],
        s[3],
        s[4],
        s[5],
        s[6],
        s[7],
        s[8],
        s[9],
        s[10],
        s[11],
        s[12],
        s[13],
        s[14],
        s[15],
    ];
    assert(r@ =~= s@);
    r
}

} // verus!
