//! Parsing a sensor reading from text and normalizing its scale.
//!
//! A reading is a plain decimal numeral: an optional sign, digits, and
//! at most one decimal point.  Values above the fixed threshold are
//! taken to be in thousandths of the target unit and are divided by a
//! thousand, which here is exact: the scale grows by three.

use vstd::prelude::*;
use vstd::arithmetic::mul::lemma_mul_inequality;
use vstd::string::StrSliceExecFns;

verus! {

use crate::pow10;
use crate::digits::all_digits;
use crate::digits::digits_val;
use crate::digits::char_digit;
use crate::digits::is_digit_char;
use crate::digits::digit_of_char;
use crate::digits::lemma_digits_val_append;
use crate::digits::lemma_digits_val_bound;
use crate::digits::lemma_pow10_pos;

/// The whitespace characters that trimming removes, the Unicode
/// `White_Space` set.
pub open spec fn is_ws(c: char) -> bool {
    c == ' ' || c == '\t' || c == '\n' || c == '\r' || c == '\u{b}' || c == '\u{c}' || c == '\u{85}'
        || c == '\u{a0}' || c == '\u{1680}' || c == '\u{2000}' || c == '\u{2001}' || c
        == '\u{2002}' || c == '\u{2003}' || c == '\u{2004}' || c == '\u{2005}' || c == '\u{2006}'
        || c == '\u{2007}' || c == '\u{2008}' || c == '\u{2009}' || c == '\u{200a}' || c
        == '\u{2028}' || c == '\u{2029}' || c == '\u{202f}' || c == '\u{205f}' || c == '\u{3000}'
}

fn ws_char(c: char) -> (r: bool)
    ensures
        r == is_ws(c),
{
    c == ' ' || c == '\t' || c == '\n' || c == '\r' || c == '\u{b}' || c == '\u{c}' || c == '\u{85}'
        || c == '\u{a0}' || c == '\u{1680}' || c == '\u{2000}' || c == '\u{2001}' || c
        == '\u{2002}' || c == '\u{2003}' || c == '\u{2004}' || c == '\u{2005}' || c == '\u{2006}'
        || c == '\u{2007}' || c == '\u{2008}' || c == '\u{2009}' || c == '\u{200a}' || c
        == '\u{2028}' || c == '\u{2029}' || c == '\u{202f}' || c == '\u{205f}' || c == '\u{3000}'
}

pub open spec fn trim_front(s: Seq<char>) -> Seq<char>
    decreases s.len(),
{
    if s.len() > 0 && is_ws(s[0]) {
        trim_front(s.drop_first())
    } else {
        s
    }
}

pub open spec fn trim_back(s: Seq<char>) -> Seq<char>
    decreases s.len(),
{
    if s.len() > 0 && is_ws(s.last()) {
        trim_back(s.drop_last())
    } else {
        s
    }
}

/// The input with leading and trailing whitespace removed.
pub open spec fn spec_trim(s: Seq<char>) -> Seq<char> {
    trim_back(trim_front(s))
}

/// Runs over the characters after the sign, collecting integer digits,
/// then fraction digits once the decimal point has been seen; any other
/// character rejects the input.
pub open spec fn parse_digits(
    s: Seq<char>,
    seen_dot: bool,
    ints: Seq<u8>,
    fracs: Seq<u8>,
) -> Option<(Seq<u8>, Seq<u8>)>
    decreases s.len(),
{
    if s.len() == 0 {
        Some((ints, fracs))
    } else if is_digit_char(s[0]) {
        if seen_dot {
            parse_digits(s.drop_first(), true, ints, fracs.push(char_digit(s[0])))
        } else {
            parse_digits(s.drop_first(), false, ints.push(char_digit(s[0])), fracs)
        }
    } else if s[0] == '.' && !seen_dot {
        parse_digits(s.drop_first(), true, ints, fracs)
    } else {
        None
    }
}

/// What a (already trimmed) numeral denotes: its sign, its integer
/// digits and its fraction digits; `None` where the text is no numeral.
pub open spec fn spec_parse(s: Seq<char>) -> Option<(bool, Seq<u8>, Seq<u8>)> {
    if s.len() == 0 {
        None
    } else {
        let neg = s[0] == '-';
        let body = if s[0] == '-' || s[0] == '+' {
            s.drop_first()
        } else {
            s
        };
        match parse_digits(body, false, Seq::empty(), Seq::empty()) {
            Some(p) => if p.0.len() + p.1.len() == 0 {
                None
            } else {
                Some((neg, p.0, p.1))
            },
            None => None,
        }
    }
}

/// A reading whose magnitude, in its own scale, is strictly above a
/// thousand; only such readings are rescaled.
pub open spec fn above_threshold(neg: bool, mag: nat, scale: nat) -> bool {
    !neg && mag > 1000 * pow10(scale)
}

/// The text was not a decimal numeral.
#[derive(Clone, Copy, Debug, PartialEq, Eq, Structural)]
pub struct ParseError;

/// An exact decimal number: a sign and decimal digits on both sides of
/// the point, most significant first.
pub struct Decimal {
    pub neg: bool,
    pub int_digits: Vec<u8>,
    pub frac_digits: Vec<u8>,
}

impl Decimal {
    /// Every stored entry is a single decimal digit.
    pub open spec fn wf(&self) -> bool {
        all_digits(self.int_digits@) && all_digits(self.frac_digits@)
    }

    /// The magnitude, scaled to an integer: the denoted value times
    /// ten to the scale.
    pub open spec fn mag(&self) -> nat {
        digits_val(self.int_digits@ + self.frac_digits@)
    }

    /// How many digits stand after the decimal point.
    pub open spec fn scale(&self) -> nat {
        self.frac_digits@.len()
    }
}

/// Collects the characters of a string into a vector.
fn chars_of(s: &str) -> (r: Vec<char>)
    ensures
        r@ == s@,
{
    let n = s.unicode_len();
    let mut r: Vec<char> = Vec::new();
    let mut i: usize = 0;
    while i < n
        invariant
            i <= n,
            n == s@.len(),
            r@ =~= s@.subrange(0, i as int),
        decreases n - i,
    {
        r.push(s.get_char(i));
        i += 1;
    }
    proof {
        assert(s@.subrange(0, n as int) =~= s@);
    }
    r
}

/// Finds the part of the text that trimming keeps.
fn trimmed_range(v: &Vec<char>) -> (r: (usize, usize))
    ensures
        r.0 <= r.1 <= v@.len(),
        v@.subrange(r.0 as int, r.1 as int) == spec_trim(v@),
{
    let n = v.len();
    proof {
        assert(v@.skip(0) =~= v@);
    }
    let mut lo: usize = 0;
    while lo < n && ws_char(v[lo])
        invariant
            lo <= n,
            n == v@.len(),
            trim_front(v@) == trim_front(v@.skip(lo as int)),
        decreases n - lo,
    {
        proof {
            assert(v@.skip(lo as int).drop_first() =~= v@.skip(lo as int + 1));
            assert(v@.skip(lo as int)[0] == v@[lo as int]);
        }
        lo += 1;
    }
    proof {
        assert(trim_front(v@) == v@.skip(lo as int));
    }
    let mut hi: usize = n;
    while hi > lo && ws_char(v[hi - 1])
        invariant
            lo <= hi <= n,
            n == v@.len(),
            trim_front(v@) == v@.skip(lo as int),
            trim_back(v@.skip(lo as int)) == trim_back(v@.subrange(lo as int, hi as int)),
        decreases hi,
    {
        proof {
            assert(v@.subrange(lo as int, hi as int).drop_last() =~= v@.subrange(
                lo as int,
                hi as int - 1,
            ));
            assert(v@.subrange(lo as int, hi as int).last() == v@[hi as int - 1]);
        }
        hi -= 1;
    }
    proof {
        assert(v@.skip(lo as int) =~= v@.subrange(lo as int, n as int));
        assert(trim_back(v@.subrange(lo as int, hi as int)) == v@.subrange(lo as int, hi as int));
    }
    (lo, hi)
}

/// Decides whether the magnitude is strictly above a thousand.
fn magnitude_exceeds(ints: &Vec<u8>, fracs: &Vec<u8>) -> (b: bool)
    requires
        all_digits(ints@),
        all_digits(fracs@),
    ensures
        b == (digits_val(ints@ + fracs@) > 1000 * pow10(fracs@.len())),
{
    let n = ints.len();
    let mut acc: u32 = 0;
    let mut k: usize = 0;
    while k < n
        invariant
            k <= n,
            n == ints@.len(),
            all_digits(ints@),
            digits_val(ints@.subrange(0, k as int)) <= 1000 ==> acc == digits_val(
                ints@.subrange(0, k as int),
            ),
            digits_val(ints@.subrange(0, k as int)) > 1000 ==> acc > 1000,
            acc <= 10009,
        decreases n - k,
    {
        proof {
            assert(ints@.subrange(0, k as int + 1).drop_last() =~= ints@.subrange(0, k as int));
            assert(ints@.subrange(0, k as int + 1).last() == ints@[k as int]);
        }
        if acc <= 1000 {
            acc = acc * 10 + ints[k] as u32;
        }
        k += 1;
    }
    let m = fracs.len();
    let mut frac_pos = false;
    let mut j: usize = 0;
    while j < m
        invariant
            j <= m,
            m == fracs@.len(),
            frac_pos == (digits_val(fracs@.subrange(0, j as int)) != 0),
        decreases m - j,
    {
        proof {
            assert(fracs@.subrange(0, j as int + 1).drop_last() =~= fracs@.subrange(0, j as int));
            assert(fracs@.subrange(0, j as int + 1).last() == fracs@[j as int]);
        }
        if fracs[j] != 0 {
            frac_pos = true;
        }
        j += 1;
    }
    proof {
        assert(ints@.subrange(0, n as int) =~= ints@);
        assert(fracs@.subrange(0, m as int) =~= fracs@);
        let iv = digits_val(ints@);
        let fv = digits_val(fracs@);
        let p = pow10(fracs@.len());
        lemma_digits_val_append(ints@, fracs@);
        lemma_digits_val_bound(fracs@);
        lemma_pow10_pos(fracs@.len());
        if iv > 1000 {
            lemma_mul_inequality(1001, iv as int, p as int);
        } else if iv < 1000 {
            lemma_mul_inequality(iv as int, 999, p as int);
        }
    }
    acc > 1000 || (acc == 1000 && frac_pos)
}

/// Reads a trimmed-and-parsed reading out of raw text and rescales a
/// magnitude above a thousand by a factor of a thousand.
pub fn parse_and_normalize(s: &str) -> (r: Result<Decimal, ParseError>)
    ensures
        match spec_parse(spec_trim(s@)) {
            Some(p) => {
                &&& r matches Ok(d)
                &&& d.wf()
                &&& d.neg == p.0
                &&& d.mag() == digits_val(p.1 + p.2)
                &&& d.scale() == (if above_threshold(p.0, digits_val(p.1 + p.2), p.2.len()) {
                    p.2.len() + 3
                } else {
                    p.2.len()
                })
            },
            None => r is Err,
        },
{
    let chars = chars_of(s);
    let (lo, hi) = trimmed_range(&chars);
    let ghost t = spec_trim(s@);
    if lo == hi {
        proof {
            assert(chars@.subrange(lo as int, hi as int) =~= Seq::<char>::empty());
            assert(t.len() == 0);
        }
        return Err(ParseError);
    }
    let first = chars[lo];
    let neg = first == '-';
    let mut i: usize = lo;
    if first == '-' || first == '+' {
        i += 1;
    }
    let ghost start = i as int;
    proof {
        assert(t =~= chars@.subrange(lo as int, hi as int));
        assert(t[0] == chars@[lo as int]);
        if start > lo as int {
            assert(t.drop_first() =~= chars@.subrange(start, hi as int));
        } else {
            assert(t =~= chars@.subrange(start, hi as int));
        }
    }
    let mut ints: Vec<u8> = Vec::new();
    let mut fracs: Vec<u8> = Vec::new();
    let mut seen_dot = false;
    while i < hi
        invariant
            lo as int <= start <= i as int <= hi as int,
            hi <= chars@.len(),
            all_digits(ints@),
            all_digits(fracs@),
            t == spec_trim(s@),
            neg == (t[0] == '-'),
            spec_parse(t) == (match parse_digits(
                chars@.subrange(start, hi as int),
                false,
                Seq::empty(),
                Seq::empty(),
            ) {
                Some(pp) => if pp.0.len() + pp.1.len() == 0 {
                    None
                } else {
                    Some((neg, pp.0, pp.1))
                },
                None => None,
            }),
            parse_digits(chars@.subrange(start, hi as int), false, Seq::empty(), Seq::empty())
                == parse_digits(chars@.subrange(i as int, hi as int), seen_dot, ints@, fracs@),
        decreases hi - i,
    {
        proof {
            assert(chars@.subrange(i as int, hi as int).drop_first() =~= chars@.subrange(
                i as int + 1,
                hi as int,
            ));
            assert(chars@.subrange(i as int, hi as int)[0] == chars@[i as int]);
        }
        let c = chars[i];
        match digit_of_char(c) {
            Some(d) => {
                if seen_dot {
                    fracs.push(d);
                } else {
                    ints.push(d);
                }
            },
            None => {
                if c == '.' && !seen_dot {
                    seen_dot = true;
                } else {
                    return Err(ParseError);
                }
            },
        }
        i += 1;
    }
    proof {
        assert(chars@.subrange(hi as int, hi as int) =~= Seq::<char>::empty());
    }
    if ints.len() == 0 && fracs.len() == 0 {
        return Err(ParseError);
    }
    if !neg && magnitude_exceeds(&ints, &fracs) {
        let n = ints.len();
        proof {
            lemma_digits_val_append(ints@, fracs@);
            lemma_digits_val_bound(fracs@);
            lemma_digits_val_bound(ints@);
            lemma_pow10_pos(fracs@.len());
            if n < 4 {
                crate::digits::lemma_pow10_mono(n as nat, 3);
                assert(pow10(0) == 1);
                assert(pow10(1) == 10);
                assert(pow10(2) == 100);
                assert(pow10(3) == 1000);
                lemma_mul_inequality(digits_val(ints@) as int, 999, pow10(fracs@.len()) as int);
            }
            assert(n >= 4);
        }
        let mut new_ints: Vec<u8> = Vec::new();
        let mut k: usize = 0;
        while k < n - 3
            invariant
                k <= n - 3,
                4 <= n == ints@.len(),
                all_digits(ints@),
                new_ints@ =~= ints@.subrange(0, k as int),
            decreases n - k,
        {
            new_ints.push(ints[k]);
            k += 1;
        }
        let mut new_fracs: Vec<u8> = Vec::new();
        new_fracs.push(ints[n - 3]);
        new_fracs.push(ints[n - 2]);
        new_fracs.push(ints[n - 1]);
        let mut j: usize = 0;
        while j < fracs.len()
            invariant
                j <= fracs@.len(),
                4 <= n == ints@.len(),
                all_digits(ints@),
                all_digits(fracs@),
                new_fracs@ =~= ints@.subrange(n as int - 3, n as int) + fracs@.subrange(
                    0,
                    j as int,
                ),
            decreases fracs@.len() - j,
        {
            new_fracs.push(fracs[j]);
            j += 1;
        }
        proof {
            assert(new_ints@ + new_fracs@ =~= ints@ + fracs@);
        }
        Ok(Decimal { neg, int_digits: new_ints, frac_digits: new_fracs })
    } else {
        Ok(Decimal { neg, int_digits: ints, frac_digits: fracs })
    }
}

} // verus!
