//! Formatting a reading with exactly two digits after the decimal
//! point.
//!
//! The reading is rounded to hundredths, half away from zero, and
//! printed as an optional minus sign, the integer digits without
//! leading zeros, a point, and two fraction digits.

use vstd::prelude::*;
use vstd::arithmetic::div_mod::lemma_fundamental_div_mod_converse;
use vstd::arithmetic::mul::lemma_mul_inequality;
use vstd::string::StringExecFns;

verus! {

use crate::pow10;
use crate::digits::all_digits;
use crate::digits::digits_val;
use crate::digits::digit_char;
use crate::digits::is_digit_char;
use crate::digits::digit_str;
use crate::digits::inc_digits;
use crate::digits::rep_digit;
use crate::digits::lemma_digits_val_append;
use crate::digits::lemma_digits_val_bound;
use crate::digits::lemma_digits_val_zero;
use crate::digits::lemma_digits_val_leading;
use crate::digits::lemma_rep_zero_val;
use crate::digits::lemma_pow10_pos;
use crate::reading::Decimal;

/// The reading in hundredths, rounded to the nearest whole number of
/// hundredths, half away from zero.
pub open spec fn hundredths(mag: nat, scale: nat) -> nat {
    if scale <= 2 {
        mag * pow10((2 - scale) as nat)
    } else {
        let p = pow10((scale - 2) as nat);
        if (mag % p) * 2 >= p {
            mag / p + 1
        } else {
            mag / p
        }
    }
}

/// The canonical decimal numeral of a natural number: no leading
/// zeros, and a single zero for zero itself.
pub open spec fn dec_chars(n: nat) -> Seq<char>
    decreases n,
{
    if n < 10 {
        seq![digit_char(n)]
    } else {
        dec_chars(n / 10).push(digit_char(n % 10))
    }
}

/// The exact text that formatting a reading yields.
pub open spec fn spec_format(neg: bool, mag: nat, scale: nat) -> Seq<char> {
    let r = hundredths(mag, scale);
    let sign: Seq<char> = if neg {
        seq!['-']
    } else {
        Seq::empty()
    };
    sign + dec_chars(r / 100) + seq!['.'] + seq![
        digit_char((r % 100) / 10),
        digit_char((r % 100) % 10),
    ]
}

/// The shape of a formatted reading: an optional minus sign, at least
/// one integer digit, a point, and exactly two fraction digits.
pub open spec fn is_formatted_decimal(s: Seq<char>) -> bool {
    let body = if s.len() > 0 && s[0] == '-' {
        s.drop_first()
    } else {
        s
    };
    &&& body.len() >= 4
    &&& (forall|i: int| 0 <= i < body.len() - 3 ==> is_digit_char(body[i]))
    &&& body[body.len() - 3] == '.'
    &&& is_digit_char(body[body.len() - 2])
    &&& is_digit_char(body[body.len() - 1])
}

/// The canonical numeral is never empty and holds digits only.
pub proof fn lemma_dec_chars_shape(n: nat)
    ensures
        dec_chars(n).len() >= 1,
        forall|i: int| 0 <= i < dec_chars(n).len() ==> is_digit_char(dec_chars(n)[i]),
    decreases n,
{
    if n >= 10 {
        lemma_dec_chars_shape(n / 10);
    }
}

/// A digit sequence without a leading zero reads back as the canonical
/// numeral of its value.
pub proof fn lemma_dec_chars_digits(s: Seq<u8>)
    requires
        s.len() >= 1,
        all_digits(s),
        s[0] != 0,
    ensures
        dec_chars(digits_val(s)) == s.map_values(|d: u8| digit_char(d as nat)),
    decreases s.len(),
{
    let v = digits_val(s);
    if s.len() == 1 {
        assert(s.drop_last() =~= Seq::<u8>::empty());
        assert(digits_val(Seq::<u8>::empty()) == 0);
        assert(v == s[0]);
        assert(s.map_values(|d: u8| digit_char(d as nat)) =~= seq![digit_char(s[0] as nat)]);
    } else {
        let sd = s.drop_last();
        lemma_dec_chars_digits(sd);
        lemma_digits_val_leading(sd);
        lemma_pow10_pos((sd.len() - 1) as nat);
        assert(digits_val(sd) >= 1);
        lemma_fundamental_div_mod_converse(v as int, 10, digits_val(sd) as int, s.last() as int);
        assert(v >= 10);
        assert(dec_chars(v) == dec_chars(digits_val(sd)).push(digit_char(s.last() as nat)));
        assert(s.map_values(|d: u8| digit_char(d as nat)) =~= sd.map_values(
            |d: u8| digit_char(d as nat),
        ).push(digit_char(s.last() as nat)));
    }
}

/// Formatting always yields a minus sign at most, digits, one point,
/// and two digits after it.
pub proof fn lemma_format_shape(neg: bool, mag: nat, scale: nat)
    ensures
        is_formatted_decimal(spec_format(neg, mag, scale)),
{
    let r = hundredths(mag, scale);
    let dcs = dec_chars(r / 100);
    lemma_dec_chars_shape(r / 100);
    let s = spec_format(neg, mag, scale);
    let tail = seq!['.'] + seq![digit_char((r % 100) / 10), digit_char((r % 100) % 10)];
    if neg {
        assert(s == seq!['-'] + dcs + seq!['.'] + seq![
            digit_char((r % 100) / 10),
            digit_char((r % 100) % 10),
        ]);
        assert(s[0] == '-');
        let body = s.drop_first();
        assert(body =~= dcs + seq!['.'] + seq![
            digit_char((r % 100) / 10),
            digit_char((r % 100) % 10),
        ]);
        assert(body[body.len() - 3] == '.');
        assert(forall|i: int| 0 <= i < body.len() - 3 ==> body[i] == dcs[i]);
    } else {
        assert(s =~= dcs + seq!['.'] + seq![
            digit_char((r % 100) / 10),
            digit_char((r % 100) % 10),
        ]);
        assert(s[0] == dcs[0]);
        assert(is_digit_char(s[0]));
        assert(s[0] != '-');
        assert(s[s.len() - 3] == '.');
        assert(forall|i: int| 0 <= i < s.len() - 3 ==> s[i] == dcs[i]);
    }
}

/// Computes the digits of the reading in hundredths, rounded half
/// away from zero.
#[verifier::rlimit(30)]
fn round_to_hundredths(d: &Decimal) -> (r: Vec<u8>)
    requires
        d.wf(),
    ensures
        all_digits(r@),
        digits_val(r@) == hundredths(d.mag(), d.scale()),
        r@.len() >= 2,
{
    let ilen = d.int_digits.len();
    let flen = d.frac_digits.len();
    let mut base: Vec<u8> = Vec::new();
    let mut k: usize = 0;
    while k < ilen
        invariant
            k <= ilen,
            ilen == d.int_digits@.len(),
            all_digits(d.int_digits@),
            base@ =~= d.int_digits@.subrange(0, k as int),
        decreases ilen - k,
    {
        base.push(d.int_digits[k]);
        k += 1;
    }
    proof {
        assert(base@ =~= d.int_digits@);
    }
    if flen >= 2 {
        base.push(d.frac_digits[0]);
        base.push(d.frac_digits[1]);
    } else if flen == 1 {
        base.push(d.frac_digits[0]);
        base.push(0);
    } else {
        base.push(0);
        base.push(0);
    }
    let round_up = flen > 2 && d.frac_digits[2] >= 5;
    proof {
        lemma_pow10_pos(0);
        assert(pow10(0) == 1);
        assert(pow10(1) == 10);
        assert(pow10(2) == 100);
        let iv = d.int_digits@;
        let fv = d.frac_digits@;
        let mag = d.mag();
        if flen == 0 {
            assert(base@ =~= (iv + fv) + rep_digit(2, 0));
            lemma_rep_zero_val(2);
            lemma_digits_val_append(iv + fv, rep_digit(2, 0));
            assert(digits_val(base@) == hundredths(mag, d.scale()));
        } else if flen == 1 {
            assert(base@ =~= (iv + fv) + rep_digit(1, 0));
            lemma_rep_zero_val(1);
            lemma_digits_val_append(iv + fv, rep_digit(1, 0));
            assert(digits_val(base@) == hundredths(mag, d.scale()));
        } else if flen == 2 {
            assert(base@ =~= iv + fv);
            assert(digits_val(base@) == mag);
            assert(hundredths(mag, d.scale()) == mag * pow10(0));
            assert(mag * pow10(0) == mag);
        } else {
            let keep = fv.subrange(0, 2);
            let tail = fv.subrange(2, flen as int);
            let p = pow10((flen - 2) as nat);
            assert(base@ =~= iv + keep);
            assert((iv + keep) + tail =~= iv + fv);
            lemma_digits_val_append(iv + keep, tail);
            lemma_digits_val_bound(tail);
            lemma_pow10_pos((flen - 2) as nat);
            lemma_fundamental_div_mod_converse(
                mag as int,
                p as int,
                digits_val(base@) as int,
                digits_val(tail) as int,
            );
            let q3 = pow10((flen - 3) as nat);
            let rest = fv.subrange(3, flen as int);
            assert(tail =~= seq![fv[2]] + rest);
            lemma_digits_val_append(seq![fv[2]], rest);
            lemma_digits_val_bound(rest);
            lemma_pow10_pos((flen - 3) as nat);
            assert(seq![fv[2]].drop_last() =~= Seq::<u8>::empty());
            assert(digits_val(Seq::<u8>::empty()) == 0);
            assert(digits_val(seq![fv[2]]) == fv[2]);
            assert(p == 10 * q3);
            if fv[2] >= 5 {
                lemma_mul_inequality(5, fv[2] as int, q3 as int);
                assert(digits_val(tail) * 2 >= p);
            } else {
                lemma_mul_inequality(fv[2] as int, 4, q3 as int);
                assert(digits_val(tail) * 2 < p);
            }
            if round_up {
                assert(hundredths(mag, d.scale()) == digits_val(base@) + 1);
            } else {
                assert(hundredths(mag, d.scale()) == digits_val(base@));
            }
        }
    }
    if round_up {
        inc_digits(&base)
    } else {
        base
    }
}

/// Formats a reading with two digits after the decimal point.
#[verifier::rlimit(30)]
pub fn format_to_string(d: &Decimal) -> (r: String)
    requires
        d.wf(),
    ensures
        r@ == spec_format(d.neg, d.mag(), d.scale()),
{
    let hund = round_to_hundredths(d);
    let ghost r_val = digits_val(hund@);
    let m = hund.len();
    proof {
        let ipart = hund@.subrange(0, m as int - 2);
        let fpart = hund@.subrange(m as int - 2, m as int);
        assert(ipart + fpart =~= hund@);
        lemma_digits_val_append(ipart, fpart);
        lemma_digits_val_bound(fpart);
        assert(pow10(0) == 1);
        assert(pow10(1) == 10);
        assert(pow10(2) == 100);
        lemma_fundamental_div_mod_converse(
            r_val as int,
            100,
            digits_val(ipart) as int,
            digits_val(fpart) as int,
        );
        assert(fpart.drop_last() =~= seq![hund@[m as int - 2]]);
        assert(seq![hund@[m as int - 2]].drop_last() =~= Seq::<u8>::empty());
        assert(digits_val(Seq::<u8>::empty()) == 0);
        assert(digits_val(seq![hund@[m as int - 2]]) == hund@[m as int - 2]);
        assert(fpart.last() == hund@[m as int - 1]);
        assert(digits_val(fpart) == hund@[m as int - 2] * 10 + hund@[m as int - 1]);
        lemma_fundamental_div_mod_converse(
            digits_val(fpart) as int,
            10,
            hund@[m as int - 2] as int,
            hund@[m as int - 1] as int,
        );
    }
    let ghost sign: Seq<char> = if d.neg {
        seq!['-']
    } else {
        Seq::empty()
    };
    let mut out = String::new();
    if d.neg {
        let dash = "-";
        proof {
            reveal_strlit("-");
            assert(dash@ =~= seq!['-']);
        }
        out.append(dash);
    }
    let mut z: usize = 0;
    while z < m - 2 && hund[z] == 0
        invariant
            z <= m - 2,
            2 <= m == hund@.len(),
            all_digits(hund@),
            forall|idx: int| 0 <= idx < z ==> hund@[idx] == 0,
        decreases m - z,
    {
        z += 1;
    }
    if z == m - 2 {
        proof {
            let ipart = hund@.subrange(0, m as int - 2);
            lemma_digits_val_zero(ipart);
            assert(digits_val(ipart) == 0);
            assert(dec_chars(r_val / 100) == seq![digit_char(0)]);
        }
        out.append(digit_str(0));
    } else {
        proof {
            let ipart = hund@.subrange(0, m as int - 2);
            let stripped = hund@.subrange(z as int, m as int - 2);
            assert(ipart =~= rep_digit(z as nat, 0) + stripped);
            lemma_rep_zero_val(z as nat);
            lemma_digits_val_append(rep_digit(z as nat, 0), stripped);
            assert(digits_val(stripped) == digits_val(ipart));
            assert(stripped[0] == hund@[z as int]);
            assert(stripped[0] != 0);
            lemma_dec_chars_digits(stripped);
        }
        let mut idx: usize = z;
        while idx < m - 2
            invariant
                z <= idx <= m - 2,
                2 <= m == hund@.len(),
                all_digits(hund@),
                sign == (if d.neg {
                    seq!['-']
                } else {
                    Seq::<char>::empty()
                }),
                out@ =~= sign + hund@.subrange(z as int, idx as int).map_values(
                    |dd: u8| digit_char(dd as nat),
                ),
            decreases m - idx,
        {
            out.append(digit_str(hund[idx]));
            proof {
                assert(hund@.subrange(z as int, idx as int + 1).map_values(
                    |dd: u8| digit_char(dd as nat),
                ) =~= hund@.subrange(z as int, idx as int).map_values(
                    |dd: u8| digit_char(dd as nat),
                ).push(digit_char(hund@[idx as int] as nat)));
            }
            idx += 1;
        }
        proof {
            assert(out@ == sign + dec_chars(r_val / 100));
        }
    }
    let dot = ".";
    proof {
        reveal_strlit(".");
        assert(dot@ =~= seq!['.']);
    }
    out.append(dot);
    out.append(digit_str(hund[m - 2]));
    out.append(digit_str(hund[m - 1]));
    proof {
        assert(out@ =~= sign + dec_chars(r_val / 100) + seq!['.'] + seq![
            digit_char(((r_val % 100) / 10) as nat),
            digit_char(((r_val % 100) % 10) as nat),
        ]);
    }
    out
}

} // verus!
