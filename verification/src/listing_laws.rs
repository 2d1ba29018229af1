//! Names that carry a generation: what is written into a name is read out of
//! it, and a listing finds every name that was written.

use crate::listing::{list_numbers, newest_number, numbers_in};
use crate::sort::Ranked;
use crate::text::{all_digits, dec, digit, digits_value, has_prefix, pad6, tagged_number, zeros};
use vstd::prelude::*;

verus! {

// ---------------------------------------------------------------------------
// Numbers
proof fn lemma_digit(d: nat)
    requires
        d < 10,
    ensures
        '0' <= digit(d) <= '9',
        digit(d) as int - 48 == d,
{
}

/// A number in decimal is digits, and they denote it.
pub proof fn decimals_denote_their_number(n: nat)
    ensures
        dec(n).len() > 0,
        all_digits(dec(n)),
        digits_value(dec(n)) == n,
        n > 0 ==> dec(n)[0] != '0',
    decreases n,
{
    if n < 10 {
        lemma_digit(n);
        let s = seq![digit(n)];
        assert(s.drop_last() =~= seq![]);
        assert(digits_value(s.drop_last()) == 0);
    } else {
        decimals_denote_their_number(n / 10);
        lemma_digit(n % 10);
        let front = dec(n / 10);
        let s = front.push(digit(n % 10));
        assert(s.drop_last() =~= front);
        assert forall|i: int| 0 <= i < s.len() implies '0' <= #[trigger] s[i] <= '9' by {
            if i < front.len() {
                assert(s[i] == front[i]);
            }
        }
    }
}

proof fn lemma_leading_zeros(k: nat, s: Seq<char>)
    requires
        all_digits(s),
    ensures
        all_digits(zeros(k) + s),
        digits_value(zeros(k) + s) == digits_value(s),
    decreases s.len(),
{
    let t = zeros(k) + s;
    assert forall|i: int| 0 <= i < t.len() implies '0' <= #[trigger] t[i] <= '9' by {
        if i >= k {
            assert(t[i] == s[i - k]);
        }
    }
    if s.len() > 0 {
        let front = s.drop_last();
        assert(all_digits(front)) by {
            assert forall|i: int| 0 <= i < front.len() implies '0' <= #[trigger] front[i] <= '9' by {
                assert(front[i] == s[i]);
            }
        }
        lemma_leading_zeros(k, front);
        assert(t.drop_last() =~= zeros(k) + front);
        assert(t.last() == s.last());
    } else {
        assert(t =~= zeros(k));
        lemma_zeros(k);
    }
}

proof fn lemma_zeros(k: nat)
    ensures
        digits_value(zeros(k)) == 0,
    decreases k,
{
    if k > 0 {
        lemma_zeros((k - 1) as nat);
        assert(zeros(k).drop_last() =~= zeros((k - 1) as nat));
    }
}

/// A number padded to six digits denotes it, and has six digits at least.
pub proof fn padded_numbers_denote_their_number(n: nat)
    ensures
        pad6(n).len() >= 6,
        all_digits(pad6(n)),
        digits_value(pad6(n)) == n,
{
    decimals_denote_their_number(n);
    let d = dec(n);
    let k = if d.len() < 6 {
        (6 - d.len()) as nat
    } else {
        0
    };
    lemma_leading_zeros(k, d);
}

proof fn lemma_dec_len(n: nat, k: nat)
    requires
        k > 0,
        n < pow10(k),
    ensures
        dec(n).len() <= k,
    decreases k,
{
    if n >= 10 {
        assert(pow10(1) == 10) by {
            assert(pow10(0) == 1);
        }
        assert(k > 1);
        lemma_dec_len(n / 10, (k - 1) as nat);
    }
}

/// 10 to the power `k`.
pub open spec fn pow10(k: nat) -> nat
    decreases k,
{
    if k == 0 {
        1
    } else {
        10 * pow10((k - 1) as nat)
    }
}

/// A number below a million has six digits when it is padded, and any other
/// only its own.
pub proof fn numbers_are_padded_to_six(n: nat)
    ensures
        n < 1000000 ==> pad6(n).len() == 6,
        n >= 1000000 ==> pad6(n) == dec(n),
{
    reveal_with_fuel(pow10, 8);
    assert(pow10(6) == 1000000);
    if n < 1000000 {
        lemma_dec_len(n, 6);
        decimals_denote_their_number(n);
    } else {
        decimals_denote_their_number(n);
        lemma_dec_long(n, 6);
        assert(zeros(0) + dec(n) =~= dec(n));
    }
}

proof fn lemma_dec_long(n: nat, k: nat)
    requires
        n >= pow10(k),
    ensures
        dec(n).len() > k,
    decreases k,
{
    decimals_denote_their_number(n);
    if k > 0 {
        assert(pow10(k) == 10 * pow10((k - 1) as nat));
        assert(n / 10 >= pow10((k - 1) as nat));
        lemma_pow10_pos((k - 1) as nat);
        assert(n >= 10);
        lemma_dec_long(n / 10, (k - 1) as nat);
    }
}

proof fn lemma_pow10_pos(k: nat)
    ensures
        pow10(k) > 0,
    decreases k,
{
    if k > 0 {
        lemma_pow10_pos((k - 1) as nat);
    }
}

/// A name carries a number only as digits, with a plus before them at most, and
/// only one that fits.
pub proof fn names_carry_only_numbers(name: Seq<char>, prefix: Seq<char>, suffix: Seq<char>)
    ensures
        tagged_number(name, prefix, suffix) matches Some(g) ==> exists|d: Seq<char>|
            d.len() > 0 && all_digits(d) && digits_value(d) == g && (name == #[trigger] (prefix + d
                + suffix) || name == prefix + (seq!['+'] + d) + suffix),
{
    if let Some(g) = tagged_number(name, prefix, suffix) {
        let t = name.subrange(prefix.len() as int, name.len() - suffix.len());
        let rest = name.skip(prefix.len() as int);
        assert(rest.skip(rest.len() - suffix.len()) == suffix);
        assert(name =~= prefix + t + suffix) by {
            assert(name.take(prefix.len() as int) == prefix);
            assert forall|i: int| 0 <= i < name.len() implies name[i] == (prefix + t + suffix)[i] by {
                if i < prefix.len() {
                    assert(name.take(prefix.len() as int)[i] == name[i]);
                } else if i >= name.len() - suffix.len() {
                    let j = i - (name.len() - suffix.len());
                    assert(rest.skip(rest.len() - suffix.len())[j] == name[i]);
                }
            }
        }
        if t.len() > 0 && t[0] == '+' {
            let d = t.skip(1);
            assert(t =~= seq!['+'] + d);
            assert(name == prefix + (seq!['+'] + d) + suffix);
            assert(d.len() > 0 && all_digits(d) && digits_value(d) == g);
            let other = prefix + d + suffix;
        } else {
            assert(t.len() > 0 && all_digits(t) && digits_value(t) == g && name == prefix + t
                + suffix);
        }
    }
}

/// The name of a file of some generation.
pub open spec fn name_of(prefix: Seq<char>, g: u64, suffix: Seq<char>) -> Seq<char> {
    prefix + pad6(g as nat) + suffix
}

/// The generation that was written into a name is read out of it.
pub proof fn names_carry_their_generation(prefix: Seq<char>, g: u64, suffix: Seq<char>)
    ensures
        tagged_number(name_of(prefix, g, suffix), prefix, suffix) == Some(g),
{
    let d = pad6(g as nat);
    let name = name_of(prefix, g, suffix);
    padded_numbers_denote_their_number(g as nat);
    assert(name.take(prefix.len() as int) =~= prefix);
    let rest = name.skip(prefix.len() as int);
    assert(rest =~= d + suffix);
    assert(rest.skip(rest.len() - suffix.len()) =~= suffix);
    assert(name.subrange(prefix.len() as int, name.len() - suffix.len()) =~= d);
    assert('0' <= d[0] <= '9');
    assert(d[0] != '+');
}

/// A name with another beginning carries nothing.
pub proof fn lemma_other_beginning(name: Seq<char>, prefix: Seq<char>, suffix: Seq<char>)
    requires
        prefix.len() > 0,
        name.len() > 0,
        name[0] != prefix[0],
    ensures
        tagged_number(name, prefix, suffix) is None,
{
    if has_prefix(name, prefix) {
        assert(name.take(prefix.len() as int)[0] == name[0]);
    }
}

// ---------------------------------------------------------------------------
// Listings
/// Generation `g` lies past the limit, or not past it.
pub open spec fn wanted(g: u64, limit: u64, above: bool) -> bool {
    (g > limit) == above
}

pub proof fn lemma_numbers_from(
    names: Seq<String>,
    prefix: Seq<char>,
    suffix: Seq<char>,
    limit: u64,
    above: bool,
    g: u64,
)
    ensures
        numbers_in(names, prefix, suffix, limit, above).contains(g) <==> wanted(g, limit, above)
            && exists|i: int|
            0 <= i < names.len() && tagged_number((#[trigger] names[i])@, prefix, suffix) == Some(
                g,
            ),
    decreases names.len(),
{
    let all = numbers_in(names, prefix, suffix, limit, above);
    if names.len() > 0 {
        let front = names.drop_last();
        let before = numbers_in(front, prefix, suffix, limit, above);
        lemma_numbers_from(front, prefix, suffix, limit, above, g);
        let last = tagged_number(names.last()@, prefix, suffix);
        if all.contains(g) {
            let k = choose|k: int| 0 <= k < all.len() && all[k] == g;
            if k < before.len() {
                assert(before[k] == g);
                let i = choose|i: int|
                    0 <= i < front.len() && tagged_number((#[trigger] front[i])@, prefix, suffix)
                        == Some(g);
                assert(names[i] == front[i]);
            } else {
                assert(names[names.len() - 1] == names.last());
            }
        }
        if wanted(g, limit, above) && exists|i: int|
            0 <= i < names.len() && tagged_number((#[trigger] names[i])@, prefix, suffix) == Some(
                g,
            ) {
            let i = choose|i: int|
                0 <= i < names.len() && tagged_number((#[trigger] names[i])@, prefix, suffix)
                    == Some(g);
            if i < front.len() {
                assert(front[i] == names[i]);
                let k = choose|k: int| 0 <= k < before.len() && before[k] == g;
                assert(all[k] == g);
            } else {
                assert(all[before.len() as int] == g);
            }
        }
    }
}

/// A listing, ascending: every generation that a name carries on the wanted
/// side of the limit, and no other. A file of that generation is never missed.
pub proof fn listings_find_every_generation(
    names: &Vec<String>,
    prefix: &str,
    suffix: &str,
    limit: u64,
    above: bool,
    r: Vec<u64>,
)
    requires
        call_ensures(list_numbers, (names, prefix, suffix, limit, above), r),
    ensures
        forall|i: int, j: int|
            #![trigger r@[i], r@[j]]
            0 <= i < j < r@.len() ==> r@[i] <= r@[j],
        forall|g: u64| #[trigger]
            r@.contains(g) ==> wanted(g, limit, above) && exists|i: int|
                0 <= i < names@.len() && tagged_number((#[trigger] names@[i])@, prefix@, suffix@)
                    == Some(g),
        forall|g: u64, i: int|
            #![trigger r@.contains(g), names@[i]]
            0 <= i < names@.len() && wanted(g, limit, above) && names@[i]@ == name_of(
                prefix@,
                g,
                suffix@,
            ) ==> r@.contains(g),
{
    broadcast use vstd::seq_lib::group_to_multiset_ensures;

    let all = numbers_in(names@, prefix@, suffix@, limit, above);
    assert forall|i: int, j: int|
        #![trigger r@[i], r@[j]]
        0 <= i < j < r@.len() implies r@[i] <= r@[j] by {
        assert(r@[i].ranked_le(&r@[j]));
    }
    assert forall|g: u64| r@.contains(g) == #[trigger] all.contains(g) by {
        assert(r@.to_multiset().count(g) == all.to_multiset().count(g));
        assert(r@.contains(g) <==> r@.to_multiset().count(g) > 0);
        assert(all.contains(g) <==> all.to_multiset().count(g) > 0);
    }
    assert forall|g: u64| #[trigger] r@.contains(g) implies wanted(g, limit, above) && exists|
        i: int,
    |
        0 <= i < names@.len() && tagged_number((#[trigger] names@[i])@, prefix@, suffix@) == Some(
            g,
        ) by {
        assert(all.contains(g));
        lemma_numbers_from(names@, prefix@, suffix@, limit, above, g);
    }
    assert forall|g: u64, i: int|
        #![trigger r@.contains(g), names@[i]]
        0 <= i < names@.len() && wanted(g, limit, above) && names@[i]@ == name_of(
            prefix@,
            g,
            suffix@,
        ) implies r@.contains(g) by {
        names_carry_their_generation(prefix@, g, suffix@);
        lemma_numbers_from(names@, prefix@, suffix@, limit, above, g);
        assert(all.contains(g));
    }
}

/// The newest generation at or below the limit: no file of a newer one that is
/// not past the limit is passed over.
pub proof fn newest_is_not_passed_over(
    names: &Vec<String>,
    prefix: &str,
    suffix: &str,
    limit: u64,
    r: Option<u64>,
    g: u64,
    i: int,
)
    requires
        call_ensures(newest_number, (names, prefix, suffix, limit), r),
        0 <= i < names@.len(),
        names@[i]@ == name_of(prefix@, g, suffix@),
        g <= limit,
    ensures
        r is Some,
        g <= r->0 <= limit,
        exists|k: int|
            0 <= k < names@.len() && tagged_number((#[trigger] names@[k])@, prefix@, suffix@)
                == Some(r->0),
{
    names_carry_their_generation(prefix@, g, suffix@);
    let all = numbers_in(names@, prefix@, suffix@, limit, false);
    lemma_numbers_from(names@, prefix@, suffix@, limit, false, g);
    assert(all.contains(g));
    let k = choose|k: int| 0 <= k < all.len() && all[k] == g;
    assert(all[k] <= r->0);
    lemma_numbers_from(names@, prefix@, suffix@, limit, false, r->0);
}

} // verus!
