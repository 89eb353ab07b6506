//! The identifier value type: parsing, check-digit computation,
//! formatting, in-place increment, and the enumerator over the full
//! payload space.

use vstd::prelude::*;
use vstd::std_specs::iter::IteratorSpec;
use vstd::string::*;

use crate::model::{
    all_digits, char_of_digit, check_digit_of, digits_ok, format_chars, hex_char, is_digit,
    is_space, lemma_pow10_pos, lemma_value_bounds,
    lemma_value_injective, lemma_value_nines, lemma_value_split, lemma_value_zeros,
    payload_of, pow10, text_ok, trim_back, trim_front, trimmed, value_of, weighted_sum, weights,
};

verus! {

broadcast use vstd::string::group_string_axioms;

/// Why a textual identifier was rejected.
#[derive(Debug, PartialEq, Eq)]
pub enum MynaError {
    /// Content malformation: a non-digit character, or a check digit that
    /// does not match the payload.
    ParseError(String),
    /// Structural malformation: the trimmed input is not 12 characters.
    InvalidInput(String),
}

impl MynaError {
    /// The human-readable description of the error, prefixed by its kind.
    pub fn message(&self) -> (r: String)
        ensures
            self matches MynaError::ParseError(s) ==> r@ == "Parse error: "@ + s@,
            self matches MynaError::InvalidInput(s) ==> r@ == "Invalid input: "@ + s@,
    {
        match self {
            MynaError::ParseError(s) => {
                let mut m = String::from_str("Parse error: ");
                m.append(s.as_str());
                m
            },
            MynaError::InvalidInput(s) => {
                let mut m = String::from_str("Invalid input: ");
                m.append(s.as_str());
                m
            },
        }
    }
}

/// A 12-digit identifier, stored as its 11 payload digits; the 12th
/// (check) digit is derived, never stored.
#[derive(Debug, PartialEq, Eq, Clone, Copy)]
pub struct Myna {
    digits: [u8; 11],
}

impl View for Myna {
    type V = Seq<u8>;

    closed spec fn view(&self) -> Seq<u8> {
        self.digits@
    }
}

/// The per-position weight, as executable code.
fn weight_at(i: usize) -> (w: u8)
    requires
        i < 11,
    ensures
        w as int == weights()[i as int],
        w <= 7,
{
    let w: u8 = if i < 5 {
        (6 - i) as u8
    } else {
        (12 - i) as u8
    };
    proof {
        assert(w as int == weights()[i as int]);
    }
    w
}

impl Myna {
    /// Well-formedness: all 11 stored digits lie in 0..=9.
    pub open spec fn wf(&self) -> bool {
        digits_ok(self@)
    }

    /// The weighted-mod-11 check digit of the stored payload.
    pub fn check_digit(&self) -> (r: u8)
        requires
            self.wf(),
        ensures
            r as int == check_digit_of(self@),
            r <= 9,
    {
        let mut sum: u16 = 0;
        let mut i: usize = 0;
        while i < 11
            invariant
                self.wf(),
                i <= 11,
                sum as int == weighted_sum(self@, i as int),
                sum as int <= 63 * i,
            decreases 11 - i,
        {
            let d = self.digits[i];
            let w = weight_at(i);
            proof {
                assert(d * w <= 63) by (nonlinear_arith)
                    requires
                        0 <= d <= 9,
                        0 <= w <= 7,
                ;
            }
            sum = sum + (d as u16) * (w as u16);
            i = i + 1;
        }
        let remainder = (sum % 11) as u8;
        if remainder == 0 || remainder == 1 {
            0
        } else {
            11 - remainder
        }
    }

    /// Parses a 12-character identifier text. The input is trimmed of
    /// surrounding whitespace (the Unicode White_Space set) first; a
    /// trimmed length other than 12 characters is an `InvalidInput`, a
    /// non-digit character or a mismatched check digit a `ParseError`;
    /// otherwise the 11 payload digits are stored and the check digit
    /// discarded.
    pub fn parse(input: &str) -> (r: Result<Myna, MynaError>)
        ensures
            ({
                let t = trimmed(input@);
                match r {
                    Ok(m) => m.wf() && text_ok(t) && m@ == payload_of(t),
                    Err(MynaError::InvalidInput(_)) => t.len() != 12,
                    Err(MynaError::ParseError(_)) => t.len() == 12 && !(all_digits(t)
                        && check_digit_of(payload_of(t)) == (t[11] as u8) - 48),
                }
            }),
    {
        let cv: Vec<char> = chars_of(input);
        let ghost s: Seq<char> = input@;
        let n: usize = cv.len();
        proof {
            assert(s.subrange(0, n as int) =~= s);
        }
        let mut start: usize = 0;
        while start < n && is_space_char(cv[start])
            invariant
                cv@ == s,
                n == s.len(),
                start <= n,
                trim_front(s) == trim_front(s.subrange(start as int, n as int)),
            decreases n - start,
        {
            proof {
                assert(s.subrange(start as int, n as int).drop_first() =~= s.subrange(
                    start as int + 1,
                    n as int,
                ));
            }
            start = start + 1;
        }
        let mut end: usize = n;
        proof {
            assert(trim_front(s) =~= s.subrange(start as int, n as int));
        }
        while end > start && is_space_char(cv[end - 1])
            invariant
                cv@ == s,
                n == s.len(),
                start <= end <= n,
                trimmed(s) == trim_back(s.subrange(start as int, end as int)),
            decreases end,
        {
            proof {
                assert(s.subrange(start as int, end as int).drop_last() =~= s.subrange(
                    start as int,
                    end as int - 1,
                ));
            }
            end = end - 1;
        }
        let ghost t: Seq<char> = trimmed(s);
        proof {
            assert(t =~= s.subrange(start as int, end as int));
        }
        if end - start != 12 {
            return Err(
                MynaError::InvalidInput(String::from_str("Input must be 12 characters long")),
            );
        }
        let mut ds: [u8; 12] = [0; 12];
        let mut i: usize = 0;
        while i < 12
            invariant
                cv@ == s,
                s == input@,
                t == trimmed(s),
                start + 12 == end,
                end <= n == s.len(),
                t == s.subrange(start as int, end as int),
                t.len() == 12,
                i <= 12,
                forall|j: int|
                    0 <= j < i ==> is_digit(#[trigger] t[j]) && ds@[j] == (t[j] as u8) - 48,
            decreases 12 - i,
        {
            let c = cv[start + i];
            proof {
                assert(t[i as int] == s[start as int + i as int]);
            }
            if c < '0' || c > '9' {
                proof {
                    assert(!is_digit(t[i as int]));
                    assert(all_digits(t) ==> is_digit(t[i as int]));
                    assert(!all_digits(t));
                }
                return Err(MynaError::ParseError(String::from_str("Invalid character")));
            }
            ds[i] = (c as u8) - 48;
            i = i + 1;
        }
        let m = Myna {
            digits: [
                ds[0],
                ds[1],
                ds[2],
                ds[3],
                ds[4],
                ds[5],
                ds[6],
                ds[7],
                ds[8],
                ds[9],
                ds[10],
            ],
        };
        proof {
            assert(m@ =~= payload_of(t));
        }
        let cd = m.check_digit();
        if cd != ds[11] {
            return Err(MynaError::ParseError(String::from_str("Invalid check digit")));
        }
        Ok(m)
    }

    /// Adds 1 to the payload read as an 11-digit base-10 counter, in
    /// place, with carry propagation from the least significant digit;
    /// the all-nines payload wraps around to ALL-ZERO.
    pub fn increment(&mut self)
        requires
            old(self).wf(),
        ensures
            final(self).wf(),
            value_of(final(self)@) == (value_of(old(self)@) + 1) % pow10(11),
    {
        let ghost o: Seq<u8> = self@;
        let mut i: usize = 11;
        while i > 0 && self.digits[i - 1] == 9
            invariant
                self.wf(),
                self@ == o,
                i <= 11,
                forall|j: int| i <= j < 11 ==> o[j] == 9,
            decreases i,
        {
            i = i - 1;
        }
        let mut j: usize = i;
        while j < 11
            invariant
                self.wf(),
                self@.len() == 11,
                i <= j <= 11,
                forall|k: int| 0 <= k < i ==> self@[k] == o[k],
                forall|k: int| i <= k < j ==> self@[k] == 0,
                forall|k: int| j <= k < 11 ==> self@[k] == o[k],
                forall|k: int| i <= k < 11 ==> o[k] == 9,
                i > 0 ==> o[i - 1] != 9,
            decreases 11 - j,
        {
            self.digits[j] = 0;
            j = j + 1;
        }
        proof {
            lemma_pow10_pos(11);
            lemma_value_bounds(o);
        }
        if i == 0 {
            proof {
                assert(o =~= Seq::new(11, |k: int| 9u8));
                assert(self@ =~= Seq::new(11, |k: int| 0u8));
                lemma_value_nines(11);
                lemma_value_zeros(11);
                assert(pow10(11) % pow10(11) == 0) by (nonlinear_arith)
                    requires
                        pow10(11) >= 1,
                ;
            }
        } else {
            let d = self.digits[i - 1];
            self.digits[i - 1] = d + 1;
            proof {
                let s = self@;
                let m = (11 - i) as nat;
                lemma_value_split(o, i as int);
                lemma_value_split(s, i as int);
                assert(o.skip(i as int) =~= Seq::new(m, |k: int| 9u8));
                assert(s.skip(i as int) =~= Seq::new(m, |k: int| 0u8));
                lemma_value_nines(m);
                lemma_value_zeros(m);
                assert(s.take(i as int).drop_last() =~= o.take(i as int).drop_last());
                assert(s.take(i as int).last() == o.take(i as int).last() + 1);
                assert(value_of(s.take(i as int)) == value_of(o.take(i as int)) + 1);
                let a = value_of(o.take(i as int));
                assert((a + 1) * pow10(m) == a * pow10(m) + pow10(m)) by (nonlinear_arith);
                assert(value_of(s) == value_of(o) + 1);
                lemma_value_bounds(s);
                vstd::arithmetic::div_mod::lemma_small_mod(
                    value_of(s) as nat,
                    pow10(11) as nat,
                );
            }
        }
    }

    /// The canonical 12-character text: the 11 payload digits followed by
    /// the computed check digit, as ASCII decimal characters.
    pub fn format(&self) -> (r: String)
        requires
            self.wf(),
        ensures
            r@ == format_chars(self@),
    {
        let mut out = String::new();
        let mut i: usize = 0;
        while i < 11
            invariant
                self.wf(),
                i <= 11,
                out@ =~= Seq::new(i as nat, |j: int| char_of_digit(self@[j] as int)),
            decreases 11 - i,
        {
            out.append(hex_str(self.digits[i]));
            i = i + 1;
        }
        let c = self.check_digit();
        out.append(hex_str(c));
        proof {
            assert(out@ =~= format_chars(self@));
        }
        out
    }
}

impl Myna {
    /// Whether every payload digit is 9: the value about to wrap to
    /// ALL-ZERO on the next increment.
    fn is_max(&self) -> (r: bool)
        requires
            self.wf(),
        ensures
            r <==> value_of(self@) == pow10(11) - 1,
    {
        let mut i: usize = 0;
        while i < 11
            invariant
                self.wf(),
                i <= 11,
                forall|j: int| 0 <= j < i ==> self@[j] == 9,
            decreases 11 - i,
        {
            if self.digits[i] != 9 {
                proof {
                    lemma_value_nines(11);
                    if value_of(self@) == pow10(11) - 1 {
                        lemma_value_injective(self@, Seq::new(11, |k: int| 9u8));
                        assert(self@[i as int] == 9);
                    }
                }
                return false;
            }
            i = i + 1;
        }
        proof {
            assert(self@ =~= Seq::new(11, |k: int| 9u8));
            lemma_value_nines(11);
        }
        true
    }
}

impl core::str::FromStr for Myna {
    type Err = MynaError;

    fn from_str(s: &str) -> Result<Myna, MynaError> {
        Myna::parse(s)
    }
}

impl Default for Myna {
    /// The distinguished ALL-ZERO identifier: all 11 payload digits zero.
    fn default() -> (r: Myna)
        ensures
            r.wf(),
            r@ =~= Seq::new(11, |i: int| 0u8),
            value_of(r@) == 0,
    {
        let r = Myna { digits: [0; 11] };
        proof {
            assert(r@ =~= Seq::new(11, |i: int| 0u8));
            lemma_value_zeros(11);
        }
        r
    }
}

/// A lazy, finite, single-pass enumerator over the full payload space:
/// it starts at ALL-ZERO, advances by increment, and is exhausted after
/// the counter wraps back to ALL-ZERO, so that each of the 10^11
/// payloads is produced exactly once, in ascending numeric order.
pub struct MynaIter {
    myna: Myna,
    done: bool,
}

impl MynaIter {
    /// The payload the next call of `next` will produce.
    pub closed spec fn current(&self) -> Seq<u8> {
        self.myna@
    }

    /// Whether the enumerator is exhausted.
    pub closed spec fn is_done(&self) -> bool {
        self.done
    }

    pub open spec fn wf(&self) -> bool {
        digits_ok(self.current())
    }

    /// A fresh enumerator, positioned at ALL-ZERO.
    pub fn new() -> (r: MynaIter)
        ensures
            r.wf(),
            !r.is_done(),
            value_of(r.current()) == 0,
    {
        MynaIter { myna: Myna::default(), done: false }
    }

    /// Produces the current payload and advances the counter; `None` once
    /// the counter has wrapped. From a fresh enumerator, the k-th call
    /// returns the payload of value k, so the sequence is ascending,
    /// visits every payload exactly once, and ends after the 10^11-th.
    pub fn next(&mut self) -> (r: Option<Myna>)
        requires
            old(self).wf(),
        ensures
            final(self).wf(),
            old(self).is_done() ==> r is None && final(self).is_done() && final(self).current()
                == old(self).current(),
            !old(self).is_done() ==> {
                &&& r matches Some(m) && m.wf() && m@ == old(self).current()
                &&& value_of(final(self).current()) == (value_of(old(self).current()) + 1)
                    % pow10(11)
                &&& (final(self).is_done() <==> value_of(old(self).current()) == pow10(11) - 1)
            },
    {
        if self.done {
            return None;
        }
        let cur = self.myna;
        let wrap = self.myna.is_max();
        self.myna.increment();
        if wrap {
            self.done = true;
        }
        Some(cur)
    }
}

/// Whether a character is Unicode whitespace, as executable code.
fn is_space_char(c: char) -> (r: bool)
    ensures
        r == is_space(c),
{
    c == ' ' || c == '\t' || c == '\n' || c == '\u{b}' || c == '\u{c}' || c == '\r' || c
        == '\u{85}' || c == '\u{a0}' || c == '\u{1680}' || ('\u{2000}' <= c && c <= '\u{200a}')
        || c == '\u{2028}' || c == '\u{2029}' || c == '\u{202f}' || c == '\u{205f}' || c
        == '\u{3000}'
}

/// The characters of a text, in order, as a vector.
fn chars_of(s: &str) -> (v: Vec<char>)
    ensures
        v@ == s@,
{
    let mut it = s.chars();
    let mut v: Vec<char> = Vec::new();
    loop
        invariant
            v@ + it.remaining() == s@,
            it.decrease() is Some,
        ensures
            v@ == s@,
        decreases it.decrease()->0,
    {
        let ghost prev = it;
        match it.next() {
            Some(c) => {
                v.push(c);
                proof {
                    assert(c == prev.remaining()[0]);
                    assert(v@ + it.remaining() =~= s@);
                }
            },
            None => {
                proof {
                    assert(v@ + it.remaining() =~= v@);
                    assert(v@ =~= s@);
                }
                break;
            },
        }
    }
    v
}

/// The single-character text of a value in 0..=15: a decimal digit, or a
/// lowercase hex letter for 10..=15.
pub(crate) fn hex_str(n: u8) -> (r: &'static str)
    requires
        n < 16,
    ensures
        r@.len() == 1,
        r@[0] == hex_char(n as int),
{
    proof {
        reveal_strlit("0");
        reveal_strlit("1");
        reveal_strlit("2");
        reveal_strlit("3");
        reveal_strlit("4");
        reveal_strlit("5");
        reveal_strlit("6");
        reveal_strlit("7");
        reveal_strlit("8");
        reveal_strlit("9");
        reveal_strlit("a");
        reveal_strlit("b");
        reveal_strlit("c");
        reveal_strlit("d");
        reveal_strlit("e");
        reveal_strlit("f");
    }
    match n {
        0 => "0",
        1 => "1",
        2 => "2",
        3 => "3",
        4 => "4",
        5 => "5",
        6 => "6",
        7 => "7",
        8 => "8",
        9 => "9",
        10 => "a",
        11 => "b",
        12 => "c",
        13 => "d",
        14 => "e",
        _ => "f",
    }
}

} // verus!
