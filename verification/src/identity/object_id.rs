//! `ObjectId`: the canonical identity of a knowledge object, independent of
//! storage. Sixteen raw bytes, ordered byte by byte.

use crate::codec::{
    array16, compare, lemma_lex_total, lemma_pow256_mono, lex_lt, pow256, Order,
};
use crate::text::{hex, Text};
use std::cmp::Ordering;
use vstd::prelude::*;
use vstd::std_specs::cmp::{PartialOrdSpec, PartialOrdSpecImpl};

verus! {

#[derive(Clone, Copy, Debug, PartialEq, Eq, Hash, Ord)]
pub struct ObjectId(pub [u8; 16]);

impl PartialOrd for ObjectId {
    fn partial_cmp(&self, other: &ObjectId) -> (r: Option<Ordering>) {
        match compare(self.0.as_slice(), other.0.as_slice()) {
            Order::Less => Some(Ordering::Less),
            Order::Equal => Some(Ordering::Equal),
            Order::Greater => Some(Ordering::Greater),
        }
    }
}

impl PartialOrdSpecImpl for ObjectId {
    open spec fn obeys_partial_cmp_spec() -> bool {
        true
    }

    open spec fn partial_cmp_spec(&self, other: &ObjectId) -> Option<Ordering> {
        if lex_lt(self@, other@) {
            Some(Ordering::Less)
        } else if self@ == other@ {
            Some(Ordering::Equal)
        } else {
            Some(Ordering::Greater)
        }
    }
}

/// Identities are ordered as their bytes are: one comes before another exactly
/// where its bytes do.
pub proof fn identities_order_by_bytes(a: [u8; 16], b: [u8; 16])
    ensures
        PartialOrdSpec::partial_cmp_spec(&ObjectId(a), &ObjectId(b)) == Some(Ordering::Less) <==> lex_lt(a@, b@),
        PartialOrdSpec::partial_cmp_spec(&ObjectId(a), &ObjectId(b)) == Some(Ordering::Greater) <==> lex_lt(b@, a@),
        PartialOrdSpec::partial_cmp_spec(&ObjectId(a), &ObjectId(b)) == Some(Ordering::Equal) <==> a@ == b@,
{
    lemma_lex_total(a@, b@);
}

impl View for ObjectId {
    type V = Seq<u8>;

    open spec fn view(&self) -> Seq<u8> {
        self.0@
    }
}

impl ObjectId {
    /// The wire width.
    pub const LEN: usize = 16;

    pub fn from_bytes(bytes: [u8; 16]) -> (r: Self)
        ensures
            r@ == bytes@,
            r == ObjectId(bytes),
    {
        ObjectId(bytes)
    }

    pub fn to_bytes(self) -> (r: [u8; 16])
        ensures
            r@ == self@,
            r == self.0,
    {
        self.0
    }

    pub fn as_bytes(&self) -> (r: &[u8; 16])
        ensures
            r@ == self@,
            *r == self.0,
    {
        &self.0
    }

    /// The identity in lowercase hexadecimal.
    pub fn to_text(&self) -> (r: String)
        ensures
            r@ == hex(self@),
    {
        proof {
            reveal_strlit("");
            assert(""@ + hex(self@) =~= hex(self@));
        }
        Text::new("").hex(self.0.as_slice()).done()
    }

    /// The identity as diagnostics show it.
    pub fn to_debug(&self) -> (r: String)
        ensures
            r@ == "ObjectId("@ + hex(self@) + ")"@,
    {
        Text::new("ObjectId(").hex(self.0.as_slice()).lit(")").done()
    }
}

/// The number that `s` denotes, most significant byte first.
pub open spec fn be(s: Seq<u8>) -> nat
    decreases s.len(),
{
    if s.len() == 0 {
        0
    } else {
        be(s.drop_last()) * 256 + s.last() as nat
    }
}

/// The `n` lowest bytes of `x`, most significant first.
pub open spec fn un_be(x: nat, n: nat) -> Seq<u8>
    decreases n,
{
    if n == 0 {
        seq![]
    } else {
        un_be(x / 256, (n - 1) as nat).push((x % 256) as u8)
    }
}

/// The number by which an object identity is found and ordered.
pub open spec fn oid_number(oid: Seq<u8>) -> u128 {
    be(oid) as u128
}

/// The identity that a number stands for.
pub open spec fn oid_of(n: u128) -> Seq<u8> {
    un_be(n as nat, 16)
}

proof fn lemma_un_be_be(s: Seq<u8>)
    ensures
        un_be(be(s), s.len()) == s,
        be(s) < pow256(s.len()),
    decreases s.len(),
{
    if s.len() > 0 {
        lemma_un_be_be(s.drop_last());
        assert(be(s) / 256 == be(s.drop_last()));
        assert((be(s) % 256) as u8 == s.last());
        assert(un_be(be(s), s.len()) =~= s);
    } else {
        assert(un_be(be(s), s.len()) =~= s);
    }
}

proof fn lemma_be_un_be(x: nat, n: nat)
    requires
        x < pow256(n),
    ensures
        be(un_be(x, n)) == x,
        un_be(x, n).len() == n,
    decreases n,
{
    if n > 0 {
        lemma_be_un_be(x / 256, (n - 1) as nat);
        assert(un_be(x, n).drop_last() =~= un_be(x / 256, (n - 1) as nat));
    }
}

proof fn lemma_be_first(s: Seq<u8>)
    requires
        s.len() > 0,
    ensures
        be(s) == s[0] as nat * pow256((s.len() - 1) as nat) + be(s.skip(1)),
    decreases s.len(),
{
    if s.len() == 1 {
        assert(s.drop_last() =~= seq![]);
        assert(s.skip(1) =~= seq![]);
        let p = pow256(0);
        assert(s[0] as nat * p == s[0] as nat) by (nonlinear_arith)
            requires
                p == 1,
        ;
    } else {
        lemma_be_first(s.drop_last());
        assert(s.drop_last().skip(1) =~= s.skip(1).drop_last());
        assert(s.skip(1).last() == s.last());
        let p = pow256((s.len() - 2) as nat);
        assert((s[0] as nat * p) * 256 == s[0] as nat * (256 * p)) by (nonlinear_arith);
    }
}

proof fn lemma_be_lex(a: Seq<u8>, b: Seq<u8>)
    requires
        a.len() == b.len(),
        lex_lt(a, b),
    ensures
        be(a) < be(b),
    decreases a.len(),
{
    lemma_be_first(a);
    lemma_be_first(b);
    if a[0] == b[0] {
        lemma_be_lex(a.skip(1), b.skip(1));
    } else {
        lemma_un_be_be(a.skip(1));
        let p = pow256((a.len() - 1) as nat);
        let x = a[0] as nat;
        let y = b[0] as nat;
        assert(x * p + p <= y * p) by (nonlinear_arith)
            requires
                x < y,
        ;
    }
}

proof fn lemma_pow256_16()
    ensures
        pow256(16) == 0x1_0000_0000_0000_0000_0000_0000_0000_0000,
{
    reveal_with_fuel(pow256, 17);
}

/// Identities and numbers correspond one to one.
pub proof fn lemma_oid_number(oid: Seq<u8>)
    requires
        oid.len() == 16,
    ensures
        oid_of(oid_number(oid)) == oid,
{
    lemma_un_be_be(oid);
    lemma_pow256_16();
}

pub proof fn lemma_oid_of(n: u128)
    ensures
        oid_number(oid_of(n)) == n,
        oid_of(n).len() == 16,
{
    lemma_pow256_16();
    lemma_be_un_be(n as nat, 16);
}

/// Numbers order identities byte by byte.
pub proof fn lemma_oid_order(a: u128, b: u128)
    ensures
        a < b <==> lex_lt(oid_of(a), oid_of(b)),
{
    lemma_oid_of(a);
    lemma_oid_of(b);
    lemma_lex_total(oid_of(a), oid_of(b));
    lemma_un_be_be(oid_of(a));
    lemma_un_be_be(oid_of(b));
    lemma_pow256_16();
    if lex_lt(oid_of(a), oid_of(b)) {
        lemma_be_lex(oid_of(a), oid_of(b));
    }
    if lex_lt(oid_of(b), oid_of(a)) {
        lemma_be_lex(oid_of(b), oid_of(a));
    }
}

impl ObjectId {
    /// The identity as a number, most significant byte first.
    pub fn number(&self) -> (r: u128)
        ensures
            r == oid_number(self@),
    {
        let b: &[u8] = self.0.as_slice();
        let mut acc: u128 = 0;
        let mut i: usize = 0;
        assert(b@.take(0) =~= seq![]);
        while i < 16
            invariant
                i <= 16,
                b@.len() == 16,
                b@ == self@,
                acc == be(b@.take(i as int)),
            decreases 16 - i,
        {
            proof {
                let t = b@.take(i + 1);
                assert(t.drop_last() =~= b@.take(i as int));
                lemma_un_be_be(t);
                lemma_pow256_16();
                lemma_pow256_mono((i + 1) as nat, 16);
            }
            acc = acc * 256 + b[i] as u128;
            i += 1;
        }
        assert(b@.take(16) =~= self@);
        acc
    }

    /// The identity that a number stands for.
    pub fn from_number(n: u128) -> (r: ObjectId)
        ensures
            r@ == oid_of(n),
    {
        let mut rev: Vec<u8> = Vec::new();
        let mut v: u128 = n;
        let mut i: usize = 0;
        while i < 16
            invariant
                i <= 16,
                rev@.len() == i,
                un_be(v as nat, (16 - i) as nat) + rev@.reverse() == un_be(n as nat, 16),
            decreases 16 - i,
        {
            let ghost before = rev@;
            let ghost v0 = v as nat;
            rev.push((v % 256) as u8);
            v = v / 256;
            i += 1;
            assert(rev@.reverse() =~= seq![(v0 % 256) as u8] + before.reverse());
            assert(un_be(v as nat, (16 - i) as nat) + rev@.reverse() =~= un_be(
                v0,
                (16 - i + 1) as nat,
            ) + before.reverse());
        }
        assert(rev@.reverse() =~= un_be(n as nat, 16));
        let mut out: Vec<u8> = Vec::new();
        let mut j: usize = 0;
        while j < 16
            invariant
                j <= 16,
                rev@.len() == 16,
                out@ =~= rev@.reverse().take(j as int),
            decreases 16 - j,
        {
            out.push(rev[15 - j]);
            j += 1;
        }
        assert(out@ =~= rev@.reverse());
        ObjectId::from_bytes(array16(out.as_slice()))
    }
}

} // verus!
