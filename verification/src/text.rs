//! Text: decimal and hexadecimal rendering, message building, and the few
//! string operations that the engine needs on file names and arguments.

use vstd::prelude::*;
use vstd::string::*;

verus! {

/// `String::push` appends the character to the end of the string.
pub assume_specification [String::push](s: &mut String, c: char)
    ensures
        final(s)@ == old(s)@.push(c),
;

/// The decimal digit `d` (0 to 9).
pub open spec fn digit(d: nat) -> char {
    (48 + d) as char
}

/// The decimal rendering of `n`, without leading zeros.
pub open spec fn dec(n: nat) -> Seq<char>
    decreases n,
{
    if n < 10 {
        seq![digit(n)]
    } else {
        dec(n / 10).push(digit(n % 10))
    }
}

/// `k` zeros.
pub open spec fn zeros(k: nat) -> Seq<char> {
    Seq::new(k, |i: int| '0')
}

/// The decimal rendering of `n`, padded with zeros to at least six digits.
pub open spec fn pad6(n: nat) -> Seq<char> {
    let d = dec(n);
    zeros(if d.len() < 6 { (6 - d.len()) as nat } else { 0 }) + d
}

/// The lowercase hexadecimal digit `d` (0 to 15).
pub open spec fn hex_digit(d: nat) -> char {
    if d < 10 {
        (48 + d) as char
    } else {
        (87 + d) as char
    }
}

/// Lowercase hexadecimal, two digits per byte.
pub open spec fn hex(bytes: Seq<u8>) -> Seq<char>
    decreases bytes.len(),
{
    if bytes.len() == 0 {
        seq![]
    } else {
        hex(bytes.drop_last()).push(hex_digit(bytes.last() as nat / 16)).push(
            hex_digit(bytes.last() as nat % 16),
        )
    }
}

fn push_digit(s: &mut String, d: u64)
    requires
        d < 10,
    ensures
        final(s)@ == old(s)@.push(digit(d as nat)),
{
    s.push((48 + d as u8) as char);
}

/// Appends the decimal rendering of `n`.
pub fn push_dec(s: &mut String, n: u64)
    ensures
        final(s)@ == old(s)@ + dec(n as nat),
    decreases n,
{
    if n < 10 {
        push_digit(s, n);
        assert(s@ =~= old(s)@ + dec(n as nat));
    } else {
        push_dec(s, n / 10);
        push_digit(s, n % 10);
        assert(s@ =~= old(s)@ + dec(n as nat));
    }
}

proof fn lemma_dec_len(n: nat)
    ensures
        dec(n).len() >= 1,
        n < 10 <==> dec(n).len() == 1,
        n < 100 <==> dec(n).len() <= 2,
        n < 1000 <==> dec(n).len() <= 3,
        n < 10000 <==> dec(n).len() <= 4,
        n < 100000 <==> dec(n).len() <= 5,
    decreases n,
{
    if n >= 10 {
        lemma_dec_len(n / 10);
    }
}

/// Appends `n`, padded with zeros to at least six digits.
pub fn push_pad6(s: &mut String, n: u64)
    ensures
        final(s)@ == old(s)@ + pad6(n as nat),
{
    proof {
        lemma_dec_len(n as nat);
    }
    let k: usize = if n < 10 {
        5
    } else if n < 100 {
        4
    } else if n < 1000 {
        3
    } else if n < 10000 {
        2
    } else if n < 100000 {
        1
    } else {
        0
    };
    let mut i: usize = 0;
    while i < k
        invariant
            i <= k,
            s@ =~= old(s)@ + zeros(i as nat),
        decreases k - i,
    {
        s.push('0');
        i += 1;
    }
    push_dec(s, n);
    assert(s@ =~= old(s)@ + pad6(n as nat));
}

fn push_hex_digit(s: &mut String, d: u8)
    requires
        d < 16,
    ensures
        final(s)@ == old(s)@.push(hex_digit(d as nat)),
{
    if d < 10 {
        s.push((48 + d) as char);
    } else {
        s.push((87 + d) as char);
    }
}

/// Appends the lowercase hexadecimal rendering of `bytes`.
pub fn push_hex(s: &mut String, bytes: &[u8])
    ensures
        final(s)@ == old(s)@ + hex(bytes@),
{
    let mut i: usize = 0;
    assert(s@ =~= old(s)@ + hex(bytes@.take(0)));
    while i < bytes.len()
        invariant
            i <= bytes@.len(),
            s@ == old(s)@ + hex(bytes@.take(i as int)),
        decreases bytes@.len() - i,
    {
        let b: u8 = bytes[i];
        push_hex_digit(s, b / 16);
        push_hex_digit(s, b % 16);
        i += 1;
        assert(bytes@.take(i as int).drop_last() =~= bytes@.take(i - 1));
        assert(s@ =~= old(s)@ + hex(bytes@.take(i as int)));
    }
    assert(bytes@.take(i as int) =~= bytes@);
}

/// A piece of text under construction.
pub struct Text {
    s: String,
}

impl View for Text {
    type V = Seq<char>;

    closed spec fn view(&self) -> Seq<char> {
        self.s@
    }
}

impl Text {
    /// Starts with `t`.
    pub fn new(t: &str) -> (r: Text)
        ensures
            r@ == t@,
    {
        Text { s: t.to_string() }
    }

    /// Appends `t`.
    pub fn lit(self, t: &str) -> (r: Text)
        ensures
            r@ == self@ + t@,
    {
        let mut s = self.s;
        s.append(t);
        Text { s }
    }

    /// Appends `n` in decimal.
    pub fn num(self, n: u64) -> (r: Text)
        ensures
            r@ == self@ + dec(n as nat),
    {
        let mut s = self.s;
        push_dec(&mut s, n);
        Text { s }
    }

    /// Appends `n` in decimal, zero-padded to six digits.
    pub fn pad6(self, n: u64) -> (r: Text)
        ensures
            r@ == self@ + pad6(n as nat),
    {
        let mut s = self.s;
        push_pad6(&mut s, n);
        Text { s }
    }

    /// Appends `bytes` in hexadecimal.
    pub fn hex(self, bytes: &[u8]) -> (r: Text)
        ensures
            r@ == self@ + hex(bytes@),
    {
        let mut s = self.s;
        push_hex(&mut s, bytes);
        Text { s }
    }

    /// The finished string.
    pub fn done(self) -> (r: String)
        ensures
            r@ == self@,
    {
        self.s
    }
}

/// The characters of `s`.
pub fn chars_of(s: &str) -> (r: Vec<char>)
    ensures
        r@ == s@,
{
    let mut out: Vec<char> = Vec::new();
    for c in it: s.chars()
        invariant
            out@ == it.seq().take(it.index() as int),
            it.seq() == s@,
    {
        out.push(c);
    }
    assert(out@ =~= s@);
    out
}

/// Two strings hold the same characters.
pub fn str_eq(a: &str, b: &str) -> (r: bool)
    ensures
        r == (a@ == b@),
{
    let x = chars_of(a);
    let y = chars_of(b);
    if x.len() != y.len() {
        return false;
    }
    let mut i: usize = 0;
    while i < x.len()
        invariant
            x@.len() == y@.len(),
            i <= x@.len(),
            forall|j: int| 0 <= j < i ==> x@[j] == y@[j],
            x@ == a@,
            y@ == b@,
        decreases x@.len() - i,
    {
        if x[i] != y[i] {
            return false;
        }
        i += 1;
    }
    assert(x@ =~= y@);
    true
}

/// White space, as Unicode counts it.
pub open spec fn is_white(c: char) -> bool {
    let u = c as u32;
    ||| 0x9 <= u <= 0xd
    ||| u == 0x20
    ||| u == 0x85
    ||| u == 0xa0
    ||| u == 0x1680
    ||| 0x2000 <= u <= 0x200a
    ||| u == 0x2028
    ||| u == 0x2029
    ||| u == 0x202f
    ||| u == 0x205f
    ||| u == 0x3000
}

/// Whether a character is white space.
fn white(c: char) -> (r: bool)
    ensures
        r == is_white(c),
{
    let u = c as u32;
    (0x9 <= u && u <= 0xd) || u == 0x20 || u == 0x85 || u == 0xa0 || u == 0x1680 || (0x2000 <= u
        && u <= 0x200a) || u == 0x2028 || u == 0x2029 || u == 0x202f || u == 0x205f || u == 0x3000
}

/// The text without white space at its start.
pub open spec fn trim_front(s: Seq<char>) -> Seq<char>
    decreases s.len(),
{
    if s.len() > 0 && is_white(s[0]) {
        trim_front(s.skip(1))
    } else {
        s
    }
}

/// The text without white space at its end.
pub open spec fn trim_back(s: Seq<char>) -> Seq<char>
    decreases s.len(),
{
    if s.len() > 0 && is_white(s.last()) {
        trim_back(s.drop_last())
    } else {
        s
    }
}

/// The text without white space at its ends.
pub open spec fn trim_of(s: Seq<char>) -> Seq<char> {
    trim_back(trim_front(s))
}

/// The text without white space at its ends.
pub fn trim(s: &str) -> (r: String)
    ensures
        r@ == trim_of(s@),
{
    let v = chars_of(s);
    let mut lo: usize = 0;
    assert(v@.skip(0) =~= v@);
    while lo < v.len() && white(v[lo])
        invariant
            lo <= v@.len(),
            trim_front(v@) == trim_front(v@.skip(lo as int)),
        decreases v@.len() - lo,
    {
        assert(v@.skip(lo as int)[0] == v@[lo as int]);
        assert(v@.skip(lo as int).skip(1) =~= v@.skip(lo + 1));
        lo += 1;
    }
    let ghost front = v@.skip(lo as int);
    assert(trim_front(v@) == front) by {
        if lo < v@.len() {
            assert(front[0] == v@[lo as int]);
        }
    }
    let mut hi: usize = v.len();
    assert(v@.subrange(lo as int, hi as int) =~= front);
    while hi > lo && white(v[hi - 1])
        invariant
            lo <= hi <= v@.len(),
            trim_back(front) == trim_back(v@.subrange(lo as int, hi as int)),
        decreases hi,
    {
        let ghost part = v@.subrange(lo as int, hi as int);
        assert(part.last() == v@[hi - 1]);
        assert(part.drop_last() =~= v@.subrange(lo as int, hi - 1));
        hi -= 1;
    }
    let ghost kept = v@.subrange(lo as int, hi as int);
    assert(trim_back(front) == kept) by {
        if lo < hi {
            assert(kept.last() == v@[hi - 1]);
        }
    }
    let mut out = String::new();
    let mut i: usize = lo;
    assert(out@ =~= v@.subrange(lo as int, lo as int));
    while i < hi
        invariant
            lo <= i <= hi <= v@.len(),
            out@ == v@.subrange(lo as int, i as int),
        decreases hi - i,
    {
        out.push(v[i]);
        assert(v@.subrange(lo as int, i + 1) =~= v@.subrange(lo as int, i as int).push(
            v@[i as int],
        ));
        i += 1;
    }
    out
}

/// `s` begins with `p`.
pub open spec fn has_prefix(s: Seq<char>, p: Seq<char>) -> bool {
    s.len() >= p.len() && s.take(p.len() as int) == p
}

/// `s` ends with `p`.
pub open spec fn has_suffix(s: Seq<char>, p: Seq<char>) -> bool {
    s.len() >= p.len() && s.skip(s.len() - p.len()) == p
}

/// Whether the characters `s` begin with `p`.
pub fn chars_start_with(s: &Vec<char>, p: &str) -> (r: bool)
    ensures
        r == has_prefix(s@, p@),
{
    let q = chars_of(p);
    if s.len() < q.len() {
        return false;
    }
    let mut i: usize = 0;
    while i < q.len()
        invariant
            i <= q@.len() <= s@.len(),
            q@ == p@,
            forall|j: int| 0 <= j < i ==> s@[j] == q@[j],
        decreases q@.len() - i,
    {
        if s[i] != q[i] {
            assert(s@.take(p@.len() as int)[i as int] != p@[i as int]);
            return false;
        }
        i += 1;
    }
    assert(s@.take(p@.len() as int) =~= p@);
    true
}

/// Whether `s` begins with `p`.
pub fn starts_with(s: &str, p: &str) -> (r: bool)
    ensures
        r == has_prefix(s@, p@),
{
    let c = chars_of(s);
    chars_start_with(&c, p)
}

/// Whether the characters `s` end with `p`.
pub fn chars_end_with(s: &Vec<char>, p: &str) -> (r: bool)
    ensures
        r == has_suffix(s@, p@),
{
    let q = chars_of(p);
    if s.len() < q.len() {
        return false;
    }
    let base: usize = s.len() - q.len();
    let mut i: usize = 0;
    while i < q.len()
        invariant
            i <= q@.len() <= s@.len(),
            base == s.len() - q.len(),
            base + q@.len() == s@.len(),
            q@ == p@,
            forall|j: int| 0 <= j < i ==> s@[base + j] == q@[j],
        decreases q@.len() - i,
    {
        if s[base + i] != q[i] {
            assert(s@.skip(base as int)[i as int] != p@[i as int]);
            return false;
        }
        i += 1;
    }
    assert(s@.skip(base as int) =~= p@);
    true
}

/// Every character is a decimal digit.
pub open spec fn all_digits(s: Seq<char>) -> bool {
    forall|i: int| 0 <= i < s.len() ==> '0' <= #[trigger] s[i] <= '9'
}

/// The number that a string of decimal digits denotes.
pub open spec fn digits_value(s: Seq<char>) -> nat
    decreases s.len(),
{
    if s.len() == 0 {
        0
    } else {
        digits_value(s.drop_last()) * 10 + ((s.last() as int - 48) as nat)
    }
}

/// An unsigned 64-bit number in decimal: an optional `+`, then one or more
/// digits, with a value that fits.
pub open spec fn parse_u64_spec(s: Seq<char>) -> Option<u64> {
    let d = if s.len() > 0 && s[0] == '+' {
        s.skip(1)
    } else {
        s
    };
    if d.len() > 0 && all_digits(d) && digits_value(d) <= u64::MAX {
        Some(digits_value(d) as u64)
    } else {
        None
    }
}

proof fn lemma_digits_value_prefix(s: Seq<char>, i: int)
    requires
        0 <= i <= s.len(),
        all_digits(s),
    ensures
        digits_value(s.take(i)) <= digits_value(s),
    decreases s.len() - i,
{
    if i < s.len() {
        lemma_digits_value_prefix(s, i + 1);
        assert(s.take(i + 1).drop_last() =~= s.take(i));
    } else {
        assert(s.take(i) =~= s);
    }
}

/// Reads the characters from `from` to `to` as a number.
pub fn parse_u64_range(s: &Vec<char>, from: usize, to: usize) -> (r: Option<u64>)
    requires
        from <= to <= s@.len(),
    ensures
        r == parse_u64_spec(s@.subrange(from as int, to as int)),
{
    let ghost t = s@.subrange(from as int, to as int);
    let mut start: usize = from;
    if from < to && s[from] == '+' {
        start = from + 1;
    }
    let ghost d = if t.len() > 0 && t[0] == '+' {
        t.skip(1)
    } else {
        t
    };
    assert(d =~= s@.subrange(start as int, to as int));
    if start >= to {
        return None;
    }
    let mut v: u64 = 0;
    let mut i: usize = start;
    assert(d.take(0) =~= Seq::<char>::empty());
    while i < to
        invariant
            start <= i <= to <= s@.len(),
            d == s@.subrange(start as int, to as int),
            all_digits(d.take(i - start)),
            v == digits_value(d.take(i - start)),
            t == s@.subrange(from as int, to as int),
            d == (if t.len() > 0 && t[0] == '+' {
                t.skip(1)
            } else {
                t
            }),
        decreases to - i,
    {
        let c: char = s[i];
        let ghost n = d.take(i - start + 1);
        assert(n.drop_last() =~= d.take(i - start));
        assert(n.last() == c);
        if c < '0' || c > '9' {
            assert(!all_digits(d)) by {
                assert(d[i - start] == c);
            }
            return None;
        }
        let x: u64 = (c as u32 - 48) as u64;
        if v > (u64::MAX - x) / 10 {
            assert(digits_value(n) > u64::MAX);
            proof {
                if all_digits(d) {
                    lemma_digits_value_prefix(d, i - start + 1);
                }
            }
            return None;
        }
        v = v * 10 + x;
        assert(all_digits(n)) by {
            assert forall|j: int| 0 <= j < n.len() implies '0' <= #[trigger] n[j] <= '9' by {
                if j < i - start {
                    assert(n[j] == d.take(i - start)[j]);
                }
            }
        }
        i += 1;
    }
    assert(d.take(to - start) =~= d);
    Some(v)
}

/// The number in a name of the form `prefix` digits `suffix`.
pub open spec fn tagged_number(name: Seq<char>, prefix: Seq<char>, suffix: Seq<char>) -> Option<
    u64,
> {
    if has_prefix(name, prefix) && has_suffix(name.skip(prefix.len() as int), suffix) {
        parse_u64_spec(name.subrange(prefix.len() as int, name.len() - suffix.len()))
    } else {
        None
    }
}

/// Reads the number out of a name of the form `prefix` digits `suffix`.
pub fn parse_tagged(name: &str, prefix: &str, suffix: &str) -> (r: Option<u64>)
    ensures
        r == tagged_number(name@, prefix@, suffix@),
{
    let c = chars_of(name);
    if !chars_start_with(&c, prefix) {
        return None;
    }
    let p: usize = chars_of(prefix).len();
    let q: usize = chars_of(suffix).len();
    if c.len() - p < q {
        return None;
    }
    if !chars_end_with(&c, suffix) {
        assert(name@.skip(p as int).skip(name@.len() - p - q) =~= name@.skip(name@.len() - q));
        return None;
    }
    assert(name@.skip(p as int).skip(name@.len() - p - q) =~= name@.skip(name@.len() - q));
    parse_u64_range(&c, p, c.len() - q)
}

/// `dir` and `name` joined with a separator, as paths are.
pub open spec fn join_spec(dir: Seq<char>, name: Seq<char>) -> Seq<char> {
    if dir.len() == 0 || dir.last() == '/' {
        dir + name
    } else {
        dir.push('/') + name
    }
}

/// Joins a directory and a file name.
pub fn join(dir: &str, name: &str) -> (r: String)
    ensures
        r@ == join_spec(dir@, name@),
{
    let c = chars_of(dir);
    let mut s = dir.to_string();
    if c.len() > 0 && c[c.len() - 1] != '/' {
        s.push('/');
    }
    s.append(name);
    s
}

} // verus!
