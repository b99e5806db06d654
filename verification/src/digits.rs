//! Sequences of decimal digits and the numbers they denote.
//!
//! A reading is kept as its decimal digits, most significant first, so
//! that parsing, rescaling and rounding are exact at any magnitude.

use vstd::prelude::*;

verus! {

use crate::pow10;

/// Every entry is a single decimal digit.
pub open spec fn all_digits(s: Seq<u8>) -> bool {
    forall|i: int| 0 <= i < s.len() ==> s[i] < 10
}

/// The natural number that a digit sequence denotes.
pub open spec fn digits_val(s: Seq<u8>) -> nat
    decreases s.len(),
{
    if s.len() == 0 {
        0
    } else {
        digits_val(s.drop_last()) * 10 + s.last() as nat
    }
}

pub proof fn lemma_pow10_pos(n: nat)
    ensures
        pow10(n) >= 1,
    decreases n,
{
    if n > 0 {
        lemma_pow10_pos((n - 1) as nat);
    }
}

pub proof fn lemma_pow10_mono(a: nat, b: nat)
    requires
        a <= b,
    ensures
        pow10(a) <= pow10(b),
    decreases b,
{
    if a < b {
        lemma_pow10_mono(a, (b - 1) as nat);
        lemma_pow10_pos((b - 1) as nat);
    }
}

/// Appending digit sequences composes their values positionally.
pub proof fn lemma_digits_val_append(a: Seq<u8>, b: Seq<u8>)
    ensures
        digits_val(a + b) == digits_val(a) * pow10(b.len()) + digits_val(b),
    decreases b.len(),
{
    if b.len() == 0 {
        assert(a + b =~= a);
        assert(pow10(b.len()) == 1);
        assert(digits_val(b) == 0);
    } else {
        let bd = b.drop_last();
        let va = digits_val(a);
        let p = pow10(bd.len());
        lemma_digits_val_append(a, bd);
        assert((a + b).drop_last() =~= a + bd);
        assert((a + b).last() == b.last());
        assert(digits_val(a + b) == digits_val(a + bd) * 10 + b.last() as nat);
        assert(digits_val(a + bd) == va * p + digits_val(bd));
        assert(pow10(b.len()) == 10 * p);
        assert((va * p + digits_val(bd)) * 10 == va * (10 * p) + digits_val(bd) * 10)
            by (nonlinear_arith);
        assert(digits_val(b) == digits_val(bd) * 10 + b.last() as nat);
    }
}

/// A sequence of n digits denotes a number below 10^n.
pub proof fn lemma_digits_val_bound(s: Seq<u8>)
    requires
        all_digits(s),
    ensures
        digits_val(s) < pow10(s.len()),
    decreases s.len(),
{
    if s.len() > 0 {
        lemma_digits_val_bound(s.drop_last());
    }
}

/// A digit sequence denotes zero exactly when all its digits are zero.
pub proof fn lemma_digits_val_zero(s: Seq<u8>)
    ensures
        digits_val(s) == 0 <==> (forall|i: int| 0 <= i < s.len() ==> s[i] == 0),
    decreases s.len(),
{
    if s.len() > 0 {
        lemma_digits_val_zero(s.drop_last());
        assert(forall|i: int| 0 <= i < s.len() - 1 ==> s[i] == s.drop_last()[i]);
        assert(s.last() == s[s.len() - 1]);
    }
}

/// A digit sequence with a nonzero leading digit denotes at least 10^(n-1).
pub proof fn lemma_digits_val_leading(s: Seq<u8>)
    requires
        s.len() >= 1,
        s[0] >= 1,
    ensures
        digits_val(s) >= pow10((s.len() - 1) as nat),
    decreases s.len(),
{
    if s.len() > 1 {
        lemma_digits_val_leading(s.drop_last());
    }
}

/// The constant digit sequence.
pub open spec fn rep_digit(n: nat, d: u8) -> Seq<u8> {
    Seq::new(n, |i: int| d)
}

pub proof fn lemma_rep_zero_val(n: nat)
    ensures
        digits_val(rep_digit(n, 0)) == 0,
{
    lemma_digits_val_zero(rep_digit(n, 0));
}

pub proof fn lemma_rep_nine_val(n: nat)
    ensures
        digits_val(rep_digit(n, 9)) == pow10(n) - 1,
    decreases n,
{
    lemma_pow10_pos(n);
    if n > 0 {
        lemma_rep_nine_val((n - 1) as nat);
        assert(rep_digit(n, 9).drop_last() =~= rep_digit((n - 1) as nat, 9));
    }
}

/// Adds one to a digit sequence, carrying to the left; the result may be
/// one digit longer than the input.
pub fn inc_digits(v: &Vec<u8>) -> (r: Vec<u8>)
    requires
        all_digits(v@),
    ensures
        all_digits(r@),
        digits_val(r@) == digits_val(v@) + 1,
        v@.len() <= r@.len() <= v@.len() + 1,
{
    let n = v.len();
    let mut j = n;
    while j > 0 && v[j - 1] == 9
        invariant
            j <= n,
            n == v@.len(),
            all_digits(v@),
            forall|k: int| j <= k < n ==> v@[k] == 9,
        decreases j,
    {
        j -= 1;
    }
    let mut r: Vec<u8> = Vec::new();
    if j == 0 {
        r.push(1);
        let mut k: usize = 0;
        while k < n
            invariant
                k <= n,
                r@ =~= seq![1u8] + rep_digit(k as nat, 0),
            decreases n - k,
        {
            r.push(0);
            assert(r@ =~= seq![1u8] + rep_digit((k + 1) as nat, 0));
            k += 1;
        }
        proof {
            assert(v@ =~= rep_digit(n as nat, 9));
            lemma_rep_nine_val(n as nat);
            lemma_rep_zero_val(n as nat);
            lemma_pow10_pos(n as nat);
            lemma_digits_val_append(seq![1u8], rep_digit(n as nat, 0));
            assert(seq![1u8].drop_last() =~= Seq::<u8>::empty());
            assert(digits_val(Seq::<u8>::empty()) == 0);
            assert(digits_val(seq![1u8]) == 1);
            assert(digits_val(r@) == 1 * pow10(n as nat) + 0);
        }
        r
    } else {
        let mut k: usize = 0;
        while k < j - 1
            invariant
                k <= j - 1,
                1 <= j <= n,
                n == v@.len(),
                all_digits(v@),
                r@ =~= v@.subrange(0, k as int),
            decreases j - k,
        {
            r.push(v[k]);
            k += 1;
        }
        r.push(v[j - 1] + 1);
        let mut m: usize = j;
        while m < n
            invariant
                j <= m <= n,
                n == v@.len(),
                1 <= j,
                all_digits(v@),
                v@[j - 1] < 9,
                r@ =~= v@.subrange(0, j - 1) + seq![(v@[j - 1] + 1) as u8] + rep_digit(
                    (m - j) as nat,
                    0,
                ),
            decreases n - m,
        {
            r.push(0);
            assert(r@ =~= v@.subrange(0, j - 1) + seq![(v@[j - 1] + 1) as u8] + rep_digit(
                (m + 1 - j) as nat,
                0,
            ));
            m += 1;
        }
        proof {
            let pre = v@.subrange(0, j - 1);
            let d = v@[j - 1];
            let d1 = (d + 1) as u8;
            let tail = (n - j) as nat;
            let p = pow10(tail);
            assert(v@ =~= (pre + seq![d]) + rep_digit(tail, 9));
            assert(r@ =~= (pre + seq![d1]) + rep_digit(tail, 0));
            lemma_rep_nine_val(tail);
            lemma_rep_zero_val(tail);
            lemma_pow10_pos(tail);
            lemma_digits_val_append(pre, seq![d]);
            lemma_digits_val_append(pre, seq![d1]);
            lemma_digits_val_append(pre + seq![d], rep_digit(tail, 9));
            lemma_digits_val_append(pre + seq![d1], rep_digit(tail, 0));
            assert(seq![d].drop_last() =~= Seq::<u8>::empty());
            assert(seq![d1].drop_last() =~= Seq::<u8>::empty());
            assert(digits_val(Seq::<u8>::empty()) == 0);
            assert(digits_val(seq![d]) == d);
            assert(digits_val(seq![d1]) == d + 1);
            let base = digits_val(pre);
            assert(pow10(0) == 1);
            assert(pow10(1) == 10);
            assert(digits_val(pre + seq![d]) == base * 10 + d);
            assert(digits_val(pre + seq![d1]) == base * 10 + d + 1);
            assert(digits_val(v@) == (base * 10 + d) * p + (p - 1));
            assert(digits_val(r@) == (base * 10 + d + 1) * p);
            assert((base * 10 + d + 1) * p == (base * 10 + d) * p + p) by (nonlinear_arith);
        }
        r
    }
}

/// The character for a single decimal digit.
pub open spec fn digit_char(d: nat) -> char {
    if d == 0 {
        '0'
    } else if d == 1 {
        '1'
    } else if d == 2 {
        '2'
    } else if d == 3 {
        '3'
    } else if d == 4 {
        '4'
    } else if d == 5 {
        '5'
    } else if d == 6 {
        '6'
    } else if d == 7 {
        '7'
    } else if d == 8 {
        '8'
    } else {
        '9'
    }
}

/// Whether a character is a decimal digit.
pub open spec fn is_digit_char(c: char) -> bool {
    c == '0' || c == '1' || c == '2' || c == '3' || c == '4' || c == '5' || c == '6' || c == '7'
        || c == '8' || c == '9'
}

/// The digit a character stands for (zero on non-digits).
pub open spec fn char_digit(c: char) -> u8 {
    if c == '1' {
        1
    } else if c == '2' {
        2
    } else if c == '3' {
        3
    } else if c == '4' {
        4
    } else if c == '5' {
        5
    } else if c == '6' {
        6
    } else if c == '7' {
        7
    } else if c == '8' {
        8
    } else if c == '9' {
        9
    } else {
        0
    }
}

/// Reads a character as a decimal digit.
pub fn digit_of_char(c: char) -> (r: Option<u8>)
    ensures
        r matches Some(d) ==> is_digit_char(c) && d == char_digit(c) && d < 10,
        r is None ==> !is_digit_char(c),
{
    match c {
        '0' => Some(0),
        '1' => Some(1),
        '2' => Some(2),
        '3' => Some(3),
        '4' => Some(4),
        '5' => Some(5),
        '6' => Some(6),
        '7' => Some(7),
        '8' => Some(8),
        '9' => Some(9),
        _ => None,
    }
}

/// The one-character string for a decimal digit.
pub fn digit_str(d: u8) -> (r: &'static str)
    requires
        d < 10,
    ensures
        r@ =~= seq![digit_char(d as nat)],
{
    proof {
        reveal_strlit("0");
        reveal_strlit("1");
        reveal_strlit("2");
        reveal_strlit("3");
        reveal_strlit("4");
        reveal_strlit("5");
        reveal_strlit("6");
        reveal_strlit("7");
        reveal_strlit("8");
        reveal_strlit("9");
    }
    match d {
        0 => "0",
        1 => "1",
        2 => "2",
        3 => "3",
        4 => "4",
        5 => "5",
        6 => "6",
        7 => "7",
        8 => "8",
        _ => "9",
    }
}

} // verus!
