//! Mathematical model of the identifier space: digit sequences, their
//! numeric value, the weighted check digit, and the lemmas the executable
//! code is proved against.

use vstd::prelude::*;

verus! {

/// The per-position weights of the check-digit rule: weight `weights()[i]`
/// applies to payload digit `i` (most significant first).
pub open spec fn weights() -> Seq<int> {
    seq![6, 5, 4, 3, 2, 7, 6, 5, 4, 3, 2]
}

/// An 11-element digit sequence with every digit in 0..=9: the payload of
/// a well-formed identifier.
pub open spec fn digits_ok(s: Seq<u8>) -> bool {
    s.len() == 11 && forall|i: int| 0 <= i < 11 ==> 0 <= #[trigger] s[i] <= 9
}

/// The weighted sum of the first `n` digits of `s`.
pub open spec fn weighted_sum(s: Seq<u8>, n: int) -> int
    decreases n,
{
    if n <= 0 {
        0
    } else {
        weighted_sum(s, n - 1) + s[n - 1] * weights()[n - 1]
    }
}

/// The check digit of an 11-digit payload: the weighted sum is reduced
/// mod 11; remainders 0 and 1 both collapse to check digit 0, every other
/// remainder r yields 11 - r.
pub open spec fn check_digit_of(s: Seq<u8>) -> int {
    let r = weighted_sum(s, 11) % 11;
    if r == 0 || r == 1 {
        0
    } else {
        11 - r
    }
}

/// 10 to the power `n`.
pub open spec fn pow10(n: nat) -> int
    decreases n,
{
    if n == 0 {
        1
    } else {
        10 * pow10((n - 1) as nat)
    }
}

/// The numeric value of a digit sequence read in base 10, most significant
/// digit first.
pub open spec fn value_of(s: Seq<u8>) -> int
    decreases s.len(),
{
    if s.len() == 0 {
        0
    } else {
        value_of(s.drop_last()) * 10 + s.last()
    }
}

/// A whitespace character, as stripped from the ends of an input line:
/// the Unicode White_Space set.
pub open spec fn is_space(c: char) -> bool {
    c == ' ' || c == '\t' || c == '\n' || c == '\u{b}' || c == '\u{c}' || c == '\r' || c
        == '\u{85}' || c == '\u{a0}' || c == '\u{1680}' || ('\u{2000}' <= c && c <= '\u{200a}')
        || c == '\u{2028}' || c == '\u{2029}' || c == '\u{202f}' || c == '\u{205f}' || c
        == '\u{3000}'
}

/// `s` with leading whitespace characters removed.
pub open spec fn trim_front(s: Seq<char>) -> Seq<char>
    decreases s.len(),
{
    if s.len() > 0 && is_space(s[0]) {
        trim_front(s.drop_first())
    } else {
        s
    }
}

/// `s` with trailing whitespace characters removed.
pub open spec fn trim_back(s: Seq<char>) -> Seq<char>
    decreases s.len(),
{
    if s.len() > 0 && is_space(s.last()) {
        trim_back(s.drop_last())
    } else {
        s
    }
}

/// `s` with whitespace characters removed from both ends.
pub open spec fn trimmed(s: Seq<char>) -> Seq<char> {
    trim_back(trim_front(s))
}

/// An ASCII decimal digit character.
pub open spec fn is_digit(c: char) -> bool {
    '0' <= c && c <= '9'
}

pub open spec fn all_digits(s: Seq<char>) -> bool {
    forall|i: int| 0 <= i < s.len() ==> is_digit(#[trigger] s[i])
}

/// The numeric values of the first 11 digit characters of a 12-character
/// text: the payload an accepted identifier stores.
pub open spec fn payload_of(s: Seq<char>) -> Seq<u8> {
    Seq::new(11, |i: int| ((s[i] as u8) - 48) as u8)
}

/// A 12-character text is a well-formed identifier: all digits, and the
/// last character carries exactly the check digit of the first 11.
pub open spec fn text_ok(t: Seq<char>) -> bool {
    t.len() == 12 && all_digits(t) && check_digit_of(payload_of(t)) == (t[11] as u8) - 48
}

/// The ASCII character of a decimal digit value.
pub open spec fn char_of_digit(d: int) -> char {
    ((48 + d) as u8) as char
}

/// The ASCII character of a value in 0..=15 in lowercase hex: a decimal
/// digit for 0..=9, a letter in 'a'..='f' above.
pub open spec fn hex_char(n: int) -> char {
    if n < 10 {
        char_of_digit(n)
    } else {
        ((87 + n) as u8) as char
    }
}

/// The 12 characters an identifier formats to: its 11 payload digits
/// followed by the freshly computed check digit.
pub open spec fn format_chars(s: Seq<u8>) -> Seq<char> {
    Seq::new(11, |i: int| char_of_digit(s[i] as int)).push(char_of_digit(check_digit_of(s)))
}

/// The same 12 characters as ASCII bytes.
pub open spec fn format_bytes(s: Seq<u8>) -> Seq<u8> {
    format_chars(s).map_values(|c: char| c as u8)
}

pub proof fn lemma_pow10_pos(n: nat)
    ensures
        pow10(n) >= 1,
    decreases n,
{
    if n > 0 {
        lemma_pow10_pos((n - 1) as nat);
    }
}

/// A sequence of digits in 0..=9 has a value in [0, 10^len).
pub proof fn lemma_value_bounds(s: Seq<u8>)
    requires
        forall|i: int| 0 <= i < s.len() ==> 0 <= #[trigger] s[i] <= 9,
    ensures
        0 <= value_of(s) < pow10(s.len()),
    decreases s.len(),
{
    if s.len() > 0 {
        lemma_value_bounds(s.drop_last());
        lemma_pow10_pos((s.len() - 1) as nat);
    }
}

/// Splitting a digit sequence at `k` splits its value positionally:
/// the prefix is worth `pow10` of the suffix length per unit.
pub proof fn lemma_value_split(s: Seq<u8>, k: int)
    requires
        0 <= k <= s.len(),
    ensures
        value_of(s) == value_of(s.take(k)) * pow10((s.len() - k) as nat) + value_of(s.skip(k)),
    decreases s.len(),
{
    if k == s.len() {
        assert(s.take(k) =~= s);
        assert(s.skip(k) =~= Seq::<u8>::empty());
    } else {
        let d = s.drop_last();
        lemma_value_split(d, k);
        assert(d.take(k) =~= s.take(k));
        assert(d.skip(k) =~= s.skip(k).drop_last());
        assert(s.skip(k).last() == s.last());
        let m = (d.len() - k) as nat;
        let a = value_of(s.take(k));
        assert(value_of(s) == (a * pow10(m) + value_of(d.skip(k))) * 10 + s.last());
        assert((a * pow10(m)) * 10 == a * (10 * pow10(m))) by (nonlinear_arith);
        assert(pow10((m + 1) as nat) == 10 * pow10(m));
        assert(value_of(s.skip(k)) == value_of(d.skip(k)) * 10 + s.last());
    }
}

/// A run of zeros is worth zero.
pub proof fn lemma_value_zeros(n: nat)
    ensures
        value_of(Seq::new(n, |i: int| 0u8)) == 0,
    decreases n,
{
    let s = Seq::new(n, |i: int| 0u8);
    if n > 0 {
        lemma_value_zeros((n - 1) as nat);
        assert(s.drop_last() =~= Seq::new((n - 1) as nat, |i: int| 0u8));
    }
}

/// A run of nines is worth one less than the next power of ten.
pub proof fn lemma_value_nines(n: nat)
    ensures
        value_of(Seq::new(n, |i: int| 9u8)) == pow10(n) - 1,
    decreases n,
{
    let s = Seq::new(n, |i: int| 9u8);
    if n > 0 {
        lemma_value_nines((n - 1) as nat);
        assert(s.drop_last() =~= Seq::new((n - 1) as nat, |i: int| 9u8));
    }
}

/// Two digit sequences of equal length and equal value are elementwise
/// equal: each value in [0, 10^11) is taken by exactly one payload.
pub proof fn lemma_value_injective(a: Seq<u8>, b: Seq<u8>)
    requires
        a.len() == b.len(),
        forall|i: int| 0 <= i < a.len() ==> 0 <= #[trigger] a[i] <= 9,
        forall|i: int| 0 <= i < b.len() ==> 0 <= #[trigger] b[i] <= 9,
        value_of(a) == value_of(b),
    ensures
        a =~= b,
    decreases a.len(),
{
    if a.len() > 0 {
        let v = value_of(a);
        assert(v == value_of(a.drop_last()) * 10 + a.last());
        assert(v == value_of(b.drop_last()) * 10 + b.last());
        assert(a.last() == b.last() && value_of(a.drop_last()) == value_of(b.drop_last()))
            by (nonlinear_arith)
            requires
                value_of(a.drop_last()) * 10 + a.last() == value_of(b.drop_last()) * 10
                    + b.last(),
                0 <= a.last() <= 9,
                0 <= b.last() <= 9,
        ;
        lemma_value_injective(a.drop_last(), b.drop_last());
        assert forall|i: int| 0 <= i < a.len() implies a[i] == b[i] by {
            if i < a.len() - 1 {
                assert(a[i] == a.drop_last()[i]);
                assert(b[i] == b.drop_last()[i]);
            }
        }
        assert(a =~= b);
    } else {
        assert(a =~= b);
    }
}

/// The digit sequence of length `n` whose value is `v`.
pub open spec fn digits_of_value(v: int, n: nat) -> Seq<u8>
    decreases n,
{
    if n == 0 {
        Seq::empty()
    } else {
        digits_of_value(v / 10, (n - 1) as nat).push((v % 10) as u8)
    }
}

/// Every value in [0, 10^n) is the value of some digit sequence of
/// length n: together with injectivity, the counter runs through each
/// payload exactly once.
pub proof fn lemma_digits_of_value(v: int, n: nat)
    requires
        0 <= v < pow10(n),
    ensures
        digits_of_value(v, n).len() == n,
        forall|i: int| 0 <= i < n ==> 0 <= #[trigger] digits_of_value(v, n)[i] <= 9,
        value_of(digits_of_value(v, n)) == v,
    decreases n,
{
    if n > 0 {
        assert(0 <= v % 10 < 10 && v == (v / 10) * 10 + v % 10) by (nonlinear_arith)
            requires
                v >= 0,
        ;
        assert(0 <= v / 10 < pow10((n - 1) as nat)) by (nonlinear_arith)
            requires
                0 <= v < 10 * pow10((n - 1) as nat),
        ;
        lemma_digits_of_value(v / 10, (n - 1) as nat);
        let s = digits_of_value(v, n);
        assert(s.drop_last() =~= digits_of_value(v / 10, (n - 1) as nat));
    }
}

/// The full enumeration, as a sequence of payloads: entry k is the
/// payload of value k.
pub open spec fn enumeration() -> Seq<Seq<u8>> {
    Seq::new(pow10(11) as nat, |k: int| digits_of_value(k, 11))
}

/// The enumeration law: starting at ALL-ZERO and stepping by increment
/// 10^11 times runs through exactly the payloads of values 0 through
/// 10^11 - 1 — pairwise distinct, in strictly ascending numeric order,
/// every 11-digit combination exactly once — and the step after the last
/// entry wraps back to ALL-ZERO.
pub proof fn lemma_enumeration_trajectory()
    ensures
        enumeration().len() == pow10(11),
        forall|k: int|
            0 <= k < pow10(11) ==> digits_ok(#[trigger] enumeration()[k]) && value_of(
                enumeration()[k],
            ) == k,
        forall|k: int, l: int|
            0 <= k < l < pow10(11) ==> enumeration()[k] != enumeration()[l],
        forall|d: Seq<u8>| digits_ok(d) ==> 0 <= #[trigger] value_of(d) < pow10(11),
        forall|d: Seq<u8>| digits_ok(d) ==> #[trigger] enumeration()[value_of(d)] == d,
        enumeration()[0] == Seq::new(11, |i: int| 0u8),
        forall|k: int|
            0 <= k < pow10(11) ==> value_of(#[trigger] enumeration()[(k + 1) % pow10(11)]) == (
            value_of(enumeration()[k]) + 1) % pow10(11),
{
    lemma_pow10_pos(11);
    let n = pow10(11);
    assert forall|k: int|
        0 <= k < n implies digits_ok(#[trigger] enumeration()[k]) && value_of(enumeration()[k])
        == k by {
        lemma_digits_of_value(k, 11);
    }
    assert forall|d: Seq<u8>| digits_ok(d) implies 0 <= #[trigger] value_of(d) < pow10(
        11,
    ) by {
        lemma_value_bounds(d);
    }
    assert forall|d: Seq<u8>| digits_ok(d) implies #[trigger] enumeration()[value_of(d)]
        == d by {
        lemma_value_bounds(d);
        let k = value_of(d);
        lemma_digits_of_value(k, 11);
        lemma_value_injective(enumeration()[k], d);
        assert(enumeration()[k] =~= d);
    }
    lemma_digits_of_value(0, 11);
    lemma_value_zeros(11);
    lemma_value_injective(enumeration()[0], Seq::new(11, |i: int| 0u8));
    assert(enumeration()[0] =~= Seq::new(11, |i: int| 0u8));
    assert forall|k: int|
        0 <= k < n implies value_of(#[trigger] enumeration()[(k + 1) % n]) == (value_of(
        enumeration()[k],
    ) + 1) % n by {
        let k2 = (k + 1) % n;
        vstd::arithmetic::div_mod::lemma_mod_bound(k + 1, n);
        lemma_digits_of_value(k, 11);
        lemma_digits_of_value(k2, 11);
    }
}

/// Formatting the payload of an accepted 12-character text gives back
/// that text, character for character.
pub proof fn lemma_format_of_accepted(t: Seq<char>)
    requires
        text_ok(t),
    ensures
        format_chars(payload_of(t)) =~= t,
{
    let p = payload_of(t);
    assert forall|i: int| 0 <= i < 12 implies format_chars(p)[i] == t[i] by {
        if i < 11 {
            assert(is_digit(t[i]));
            assert(format_chars(p)[i] == char_of_digit(((t[i] as u8) - 48) as int));
        } else {
            assert(is_digit(t[11]));
            assert(check_digit_of(p) == (t[11] as u8) - 48);
        }
    }
}

/// The formatted text of a well-formed payload is accepted back by the
/// parser: exactly 12 digit characters, untouched by trimming, with a
/// check digit that matches.
pub proof fn lemma_formatted_is_accepted(d: Seq<u8>)
    requires
        digits_ok(d),
    ensures
        trimmed(format_chars(d)) =~= format_chars(d),
        text_ok(format_chars(d)),
        payload_of(format_chars(d)) =~= d,
{
    let t = format_chars(d);
    lemma_check_digit_range(d);
    assert(t.len() == 12);
    assert forall|i: int| 0 <= i < 12 implies is_digit(#[trigger] t[i]) && !is_space(t[i]) by {
        if i < 11 {
            assert(t[i] == char_of_digit(d[i] as int));
            assert(t[i] as u8 == 48 + d[i]);
        } else {
            assert(t[11] == char_of_digit(check_digit_of(d)));
            assert(t[11] as u8 == 48 + check_digit_of(d));
        }
    }
    assert(!is_space(t[0]));
    assert(!is_space(t.last()));
    assert(trim_front(t) == t);
    assert(trim_back(t) == t);
    assert(payload_of(t) =~= d);
    assert(check_digit_of(payload_of(t)) == (t[11] as u8) - 48);
}

/// Every character of a formatted identifier is an ASCII digit, so the
/// formatted text's UTF-8 bytes are its characters byte for byte.
pub proof fn lemma_format_chars_ascii(s: Seq<u8>)
    requires
        digits_ok(s),
    ensures
        vstd::utf8::is_ascii_chars(format_chars(s)),
        format_chars(s).len() == 12,
{
    lemma_check_digit_range(s);
    assert forall|i: int| 0 <= i < 12 implies '\0' <= #[trigger] format_chars(s)[i]
        <= '\u{7f}' by {
        if i < 11 {
            assert(format_chars(s)[i] == char_of_digit(s[i] as int));
        }
    }
}

/// The check digit is itself a single decimal digit.
pub proof fn lemma_check_digit_range(s: Seq<u8>)
    ensures
        0 <= check_digit_of(s) <= 9,
{
    let w = weighted_sum(s, 11);
    assert(0 <= w % 11 < 11) by (nonlinear_arith);
}

} // verus!
