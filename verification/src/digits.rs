//! Canonical decimal text for integers: the building block of the
//! grid's "row,col" lookup keys.
//!
//! `dec_rep` / `int_rep` give the canonical character sequence of a
//! number (no leading zeros, no plus sign, `-` only on negatives),
//! `digits_val` reads a digit sequence back, and the lemmas here show
//! the two are mutually inverse, so keys identify their integers.

use vstd::prelude::*;

verus! {

/// The character for one decimal digit value.
pub open spec fn digit_char(d: int) -> char {
    if d == 0 {
        '0'
    } else if d == 1 {
        '1'
    } else if d == 2 {
        '2'
    } else if d == 3 {
        '3'
    } else if d == 4 {
        '4'
    } else if d == 5 {
        '5'
    } else if d == 6 {
        '6'
    } else if d == 7 {
        '7'
    } else if d == 8 {
        '8'
    } else {
        '9'
    }
}

/// Whether `c` is one of the ten decimal digit characters.
pub open spec fn is_digit_char(c: char) -> bool {
    c == '0' || c == '1' || c == '2' || c == '3' || c == '4' || c == '5' || c == '6' || c == '7'
        || c == '8' || c == '9'
}

/// The digit value of a digit character (unspecified junk otherwise).
pub open spec fn digit_val(c: char) -> int {
    if c == '0' {
        0
    } else if c == '1' {
        1
    } else if c == '2' {
        2
    } else if c == '3' {
        3
    } else if c == '4' {
        4
    } else if c == '5' {
        5
    } else if c == '6' {
        6
    } else if c == '7' {
        7
    } else if c == '8' {
        8
    } else {
        9
    }
}

/// The canonical decimal representation of a natural number:
/// most significant digit first, no leading zeros.
pub open spec fn dec_rep(n: nat) -> Seq<char>
    decreases n,
{
    if n < 10 {
        seq![digit_char(n as int)]
    } else {
        dec_rep(n / 10) + seq![digit_char((n % 10) as int)]
    }
}

/// The canonical decimal representation of an integer: a leading `-`
/// on negatives, no sign otherwise.
pub open spec fn int_rep(i: int) -> Seq<char> {
    if i < 0 {
        seq!['-'] + dec_rep((-i) as nat)
    } else {
        dec_rep(i as nat)
    }
}

/// Every character of `s` is a decimal digit.
pub open spec fn all_digits(s: Seq<char>) -> bool {
    forall|i: int| 0 <= i < s.len() ==> is_digit_char(#[trigger] s[i])
}

/// `s` is a canonical digit string: nonempty, digits only, and no
/// leading zero unless it is exactly "0".
pub open spec fn canon_digits(s: Seq<char>) -> bool {
    s.len() > 0 && all_digits(s) && (s.len() == 1 || s[0] != '0')
}

/// The value of a digit string, most significant digit first.
pub open spec fn digits_val(s: Seq<char>) -> int
    decreases s.len(),
{
    if s.len() == 0 {
        0
    } else {
        digits_val(s.drop_last()) * 10 + digit_val(s.last())
    }
}

/// Powers of ten.
pub open spec fn pow10(k: nat) -> int
    decreases k,
{
    if k == 0 {
        1
    } else {
        10 * pow10((k - 1) as nat)
    }
}

/// The canonical representation of `n` is a canonical digit string
/// and reads back as `n`.
pub proof fn lemma_dec_rep_canon(n: nat)
    ensures
        canon_digits(dec_rep(n)),
        digits_val(dec_rep(n)) == n,
    decreases n,
{
    if n < 10 {
        assert(dec_rep(n) =~= seq![digit_char(n as int)]);
        assert(dec_rep(n).drop_last() =~= Seq::<char>::empty());
        assert(digits_val(Seq::<char>::empty()) == 0);
        assert(dec_rep(n).last() == digit_char(n as int));
        assert(digit_val(digit_char(n as int)) == n);
        assert(digits_val(dec_rep(n)) == digits_val(dec_rep(n).drop_last()) * 10 + digit_val(
            dec_rep(n).last(),
        ));
    } else {
        lemma_dec_rep_canon(n / 10);
        let sub = dec_rep(n / 10);
        let whole = dec_rep(n);
        assert(whole == sub + seq![digit_char((n % 10) as int)]);
        assert(whole.drop_last() =~= sub);
        assert(whole.last() == digit_char((n % 10) as int));
        assert(digits_val(whole) == digits_val(sub) * 10 + (n % 10));
        assert(digits_val(whole) == n);
        // no leading zero: the leading digit of `sub` reads back as n / 10 >= 1
        assert(whole[0] == sub[0]);
        if sub.len() == 1 {
            assert(digits_val(sub.drop_last()) == 0);
            assert(digit_val(sub[0]) == n / 10);
            assert(sub[0] != '0');
        }
        assert(forall|i: int|
            0 <= i < whole.len() ==> is_digit_char(#[trigger] whole[i]));
    }
}

/// A canonical digit string is the canonical representation of its
/// own value: `dec_rep` and `digits_val` are mutually inverse.
pub proof fn lemma_canon_dec_rep(s: Seq<char>)
    requires
        canon_digits(s),
    ensures
        digits_val(s) >= 0,
        dec_rep(digits_val(s) as nat) == s,
    decreases s.len(),
{
    if s.len() == 1 {
        assert(digits_val(s.drop_last()) == 0);
        assert(digits_val(s) == digit_val(s[0]));
        assert(dec_rep(digits_val(s) as nat) =~= s);
    } else {
        let sub = s.drop_last();
        assert(sub[0] == s[0]);
        assert(forall|i: int| 0 <= i < sub.len() ==> is_digit_char(#[trigger] sub[i]));
        assert(canon_digits(sub));
        lemma_canon_dec_rep(sub);
        let v = digits_val(s);
        let vs = digits_val(sub);
        assert(v == vs * 10 + digit_val(s.last()));
        // sub starts with a nonzero digit, so its value is nonzero
        if vs == 0 {
            assert(dec_rep(0) =~= seq!['0']);
            assert(sub[0] == '0');
            assert(false);
        }
        assert(v >= 10);
        assert(v / 10 == vs && v % 10 == digit_val(s.last())) by {
            assert(0 <= digit_val(s.last()) < 10);
        };
        assert(dec_rep(v as nat) == dec_rep(vs as nat) + seq![digit_char(digit_val(s.last()))]);
        assert(digit_char(digit_val(s.last())) == s.last());
        assert(dec_rep(v as nat) =~= s);
    }
}

/// A canonical digit string with a nonzero leading digit is at least
/// ten to the power of its length less one.
pub proof fn lemma_canon_val_lower(s: Seq<char>)
    requires
        canon_digits(s),
        s[0] != '0',
    ensures
        digits_val(s) >= pow10((s.len() - 1) as nat),
    decreases s.len(),
{
    if s.len() == 1 {
        assert(digits_val(s.drop_last()) == 0);
        assert(digits_val(s) == digit_val(s[0]));
    } else {
        let sub = s.drop_last();
        assert(sub[0] == s[0]);
        assert(forall|i: int| 0 <= i < sub.len() ==> is_digit_char(#[trigger] sub[i]));
        lemma_canon_val_lower(sub);
        assert(digit_val(s.last()) >= 0);
        assert(digits_val(s) >= digits_val(sub) * 10);
    }
}

/// Powers of ten grow with the exponent.
pub proof fn lemma_pow10_mono(a: nat, b: nat)
    requires
        a <= b,
    ensures
        pow10(a) <= pow10(b),
    decreases b,
{
    if a < b {
        lemma_pow10_mono(a, (b - 1) as nat);
        assert(pow10((b - 1) as nat) >= 1) by {
            lemma_pow10_pos((b - 1) as nat);
        };
    }
}

/// Powers of ten are positive.
pub proof fn lemma_pow10_pos(k: nat)
    ensures
        pow10(k) >= 1,
    decreases k,
{
    if k > 0 {
        lemma_pow10_pos((k - 1) as nat);
    }
}

} // verus!
