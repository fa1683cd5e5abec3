//! Grid coordinates and their canonical "row,col" key strings.

use vstd::prelude::*;

use crate::digits::all_digits;
use crate::digits::canon_digits;
use crate::digits::dec_rep;
use crate::digits::digit_char;
use crate::digits::digit_val;
use crate::digits::digits_val;
use crate::digits::int_rep;
use crate::digits::is_digit_char;
use crate::digits::lemma_canon_dec_rep;
use crate::digits::lemma_canon_val_lower;
use crate::digits::lemma_dec_rep_canon;
use crate::digits::lemma_pow10_mono;
use crate::digits::pow10;

verus! {

/// A 2D position in a grid. A plain value: no identity beyond the
/// (row, col) pair, and no validation on construction (out-of-range
/// coordinates are legal values, they are just never stored in a
/// world's grid).
#[derive(Clone, Copy, Debug, PartialEq, Eq, Structural)]
pub struct Coord {
    pub row: i32,
    pub col: i32,
}

/// The canonical lookup key of a coordinate: the two integers in
/// canonical decimal, joined by a single comma, e.g. `3,17`.
pub open spec fn key_of(row: int, col: int) -> Seq<char> {
    int_rep(row) + seq![','] + int_rep(col)
}

/// The single-character string for one decimal digit value.
fn digit_str(d: u32) -> (r: &'static str)
    requires
        d < 10,
    ensures
        r@ == seq![digit_char(d as int)],
{
    let r: &'static str = if d == 0 {
        "0"
    } else if d == 1 {
        "1"
    } else if d == 2 {
        "2"
    } else if d == 3 {
        "3"
    } else if d == 4 {
        "4"
    } else if d == 5 {
        "5"
    } else if d == 6 {
        "6"
    } else if d == 7 {
        "7"
    } else if d == 8 {
        "8"
    } else {
        "9"
    };
    proof {
        reveal_strlit("0");
        reveal_strlit("1");
        reveal_strlit("2");
        reveal_strlit("3");
        reveal_strlit("4");
        reveal_strlit("5");
        reveal_strlit("6");
        reveal_strlit("7");
        reveal_strlit("8");
        reveal_strlit("9");
        assert(r@ =~= seq![digit_char(d as int)]);
    }
    r
}

/// Append the canonical decimal digits of `n` to `out`.
fn push_dec(out: &mut String, n: u32)
    ensures
        final(out)@ == old(out)@ + dec_rep(n as nat),
    decreases n,
{
    if n < 10 {
        out.append(digit_str(n));
        proof {
            assert(out@ =~= old(out)@ + dec_rep(n as nat));
        }
    } else {
        push_dec(out, n / 10);
        out.append(digit_str(n % 10));
        proof {
            assert(out@ =~= old(out)@ + dec_rep(n as nat));
        }
    }
}

/// Append the canonical decimal form of `i` to `out`, with a leading
/// `-` when `i` is negative.
fn push_int(out: &mut String, i: i32)
    ensures
        final(out)@ == old(out)@ + int_rep(i as int),
{
    if i < 0 {
        out.append("-");
        let mag: u32 = (-(i as i64)) as u32;
        push_dec(out, mag);
        proof {
            reveal_strlit("-");
            assert(out@ =~= old(out)@ + int_rep(i as int));
        }
    } else {
        push_dec(out, i as u32);
    }
}

/// The decimal digits of `i`, sign stripped.
spec fn int_digits(i: int) -> Seq<char> {
    if i < 0 {
        dec_rep((-i) as nat)
    } else {
        dec_rep(i as nat)
    }
}

/// How a canonical integer representation decomposes: an optional
/// leading `-`, then a canonical digit string reading back as the
/// magnitude — and never a comma anywhere.
proof fn lemma_int_rep_parts(v: int)
    ensures
        int_rep(v).len() >= 1,
        canon_digits(int_digits(v)),
        digits_val(int_digits(v)) == if v < 0 {
            -v
        } else {
            v
        },
        v >= 0 ==> int_rep(v) == int_digits(v) && is_digit_char(int_rep(v)[0]),
        v < 0 ==> int_rep(v).len() == int_digits(v).len() + 1 && int_rep(v)[0] == '-'
            && int_rep(v).subrange(1, int_rep(v).len() as int) == int_digits(v),
        forall|j: int| 0 <= j < int_rep(v).len() ==> #[trigger] int_rep(v)[j] != ',',
{
    if v < 0 {
        lemma_dec_rep_canon((-v) as nat);
        assert(int_rep(v) == seq!['-'] + int_digits(v));
        assert(int_rep(v).subrange(1, int_rep(v).len() as int) =~= int_digits(v));
        assert forall|j: int| 0 <= j < int_rep(v).len() implies #[trigger] int_rep(v)[j]
            != ',' by {
            if j > 0 {
                assert(int_rep(v)[j] == int_digits(v)[j - 1]);
                assert(is_digit_char(int_digits(v)[j - 1]));
            }
        }
    } else {
        lemma_dec_rep_canon(v as nat);
        assert(is_digit_char(int_digits(v)[0]));
        assert forall|j: int| 0 <= j < int_rep(v).len() implies #[trigger] int_rep(v)[j]
            != ',' by {
            assert(is_digit_char(int_digits(v)[j]));
        }
    }
}

/// Distinct integers never share a canonical representation.
proof fn lemma_int_rep_injective(a: int, b: int)
    requires
        int_rep(a) == int_rep(b),
    ensures
        a == b,
{
    lemma_int_rep_parts(a);
    lemma_int_rep_parts(b);
    if a >= 0 && b >= 0 {
        assert(int_digits(a) == int_digits(b));
    } else if a < 0 && b < 0 {
        assert(int_digits(a) == int_digits(b));
    } else {
        assert(false);
    }
}

/// The digit value of a digit character, or nothing for any other
/// character.
fn char_digit(c: char) -> (r: Option<u32>)
    ensures
        match r {
            Some(d) => is_digit_char(c) && d < 10 && d as int == digit_val(c),
            None => !is_digit_char(c),
        },
{
    if c == '0' {
        Some(0)
    } else if c == '1' {
        Some(1)
    } else if c == '2' {
        Some(2)
    } else if c == '3' {
        Some(3)
    } else if c == '4' {
        Some(4)
    } else if c == '5' {
        Some(5)
    } else if c == '6' {
        Some(6)
    } else if c == '7' {
        Some(7)
    } else if c == '8' {
        Some(8)
    } else if c == '9' {
        Some(9)
    } else {
        None
    }
}

/// Parse a string that holds exactly the canonical decimal form of an
/// `i32`, and nothing else: the parser and `int_rep` are mutually
/// inverse over the whole `i32` range.
fn parse_i32(s: &str) -> (r: Option<i32>)
    ensures
        match r {
            Some(v) => s@ == int_rep(v as int),
            None => forall|v: int|
                i32::MIN as int <= v <= i32::MAX as int ==> s@ != int_rep(v),
        },
{
    let len = s.unicode_len();
    if len == 0 {
        proof {
            assert forall|v: int| i32::MIN as int <= v <= i32::MAX as int implies s@ != int_rep(
                v,
            ) by {
                lemma_int_rep_parts(v);
            }
        }
        return None;
    }
    let neg = s.get_char(0) == '-';
    let start: usize = if neg {
        1
    } else {
        0
    };
    if len == start {
        // a bare "-"
        proof {
            assert forall|v: int| i32::MIN as int <= v <= i32::MAX as int implies s@ != int_rep(
                v,
            ) by {
                lemma_int_rep_parts(v);
                if s@ == int_rep(v) {
                    assert(v < 0);
                    assert(int_rep(v).len() >= 2);
                }
            }
        }
        return None;
    }
    if len - start > 10 {
        // more than ten digits: the value could not fit in an i32
        proof {
            assert forall|v: int| i32::MIN as int <= v <= i32::MAX as int implies s@ != int_rep(
                v,
            ) by {
                lemma_int_rep_parts(v);
                if s@ == int_rep(v) {
                    let ds = int_digits(v);
                    if v < 0 {
                        assert(s@[0] == '-');
                        assert(ds.len() == len - 1);
                    } else {
                        assert(is_digit_char(s@[0]));
                        assert(ds.len() == len as int);
                    }
                    assert(ds.len() >= 11);
                    assert(ds[0] != '0');
                    lemma_canon_val_lower(ds);
                    lemma_pow10_mono(10, (ds.len() - 1) as nat);
                    assert(pow10(10) == 10_000_000_000) by {
                        reveal_with_fuel(pow10, 11);
                    };
                    assert(digits_val(ds) >= 10_000_000_000);
                }
            }
        }
        return None;
    }
    if len - start > 1 && s.get_char(start) == '0' {
        // a leading zero is never canonical
        proof {
            assert forall|v: int| i32::MIN as int <= v <= i32::MAX as int implies s@ != int_rep(
                v,
            ) by {
                lemma_int_rep_parts(v);
                if s@ == int_rep(v) {
                    let ds = int_digits(v);
                    if v < 0 {
                        assert(s@[0] == '-');
                        assert(ds[0] == s@[start as int]);
                        assert(ds.len() == len - 1);
                    } else {
                        assert(is_digit_char(s@[0]));
                        assert(ds[0] == s@[start as int]);
                        assert(ds.len() == len as int);
                    }
                    assert(ds.len() >= 2);
                    assert(ds[0] != '0');
                }
            }
        }
        return None;
    }
    let ghost all: Seq<char> = s@;
    let mut acc: u64 = 0;
    let mut i: usize = start;
    while i < len
        invariant
            s@ == all,
            all.len() == len as int,
            start <= i <= len,
            start <= 1,
            len - start <= 10,
            neg ==> start == 1 && all[0] == '-',
            !neg ==> start == 0 && all[0] != '-',
            all_digits(all.subrange(start as int, i as int)),
            acc as int == digits_val(all.subrange(start as int, i as int)),
            acc < pow10((i - start) as nat),
        decreases len - i,
    {
        let c = s.get_char(i);
        match char_digit(c) {
            None => {
                // a stray character: no integer's canonical form holds it
                proof {
                    assert forall|v: int|
                        i32::MIN as int <= v <= i32::MAX as int implies s@ != int_rep(v) by {
                        lemma_int_rep_parts(v);
                        if s@ == int_rep(v) {
                            let ds = int_digits(v);
                            if v < 0 {
                                assert(s@[0] == '-');
                                assert(ds[i - 1] == s@[i as int]);
                                assert(is_digit_char(ds[i - 1]));
                            } else {
                                assert(is_digit_char(s@[0]));
                                assert(ds[i as int] == s@[i as int]);
                                assert(is_digit_char(ds[i as int]));
                            }
                        }
                    }
                }
                return None;
            },
            Some(d) => {
                proof {
                    let pre = all.subrange(start as int, i as int);
                    let post = all.subrange(start as int, i + 1);
                    assert(post.drop_last() =~= pre);
                    assert(post.last() == all[i as int]);
                    assert(pow10(((i + 1) - start) as nat) == 10 * pow10((i - start) as nat));
                    lemma_pow10_mono(((i + 1) - start) as nat, 10);
                    assert(pow10(10) == 10_000_000_000) by {
                        reveal_with_fuel(pow10, 11);
                    };
                    assert(acc * 10 + d < 10 * pow10((i - start) as nat));
                }
                acc = acc * 10 + (d as u64);
            },
        }
        i += 1;
    }
    let ghost ds = all.subrange(start as int, len as int);
    proof {
        assert(canon_digits(ds));
        lemma_canon_dec_rep(ds);
    }
    if neg {
        if acc == 0 {
            // "-0" (or "-00...") is never canonical
            proof {
                assert forall|v: int| i32::MIN as int <= v <= i32::MAX as int implies s@ != int_rep(
                    v,
                ) by {
                    lemma_int_rep_parts(v);
                    if s@ == int_rep(v) {
                        assert(v < 0);
                        assert(int_digits(v) =~= ds);
                        assert(digits_val(ds) == -v);
                    }
                }
            }
            return None;
        }
        if acc > 0x8000_0000u64 {
            // magnitude beyond i32::MIN
            proof {
                assert forall|v: int| i32::MIN as int <= v <= i32::MAX as int implies s@ != int_rep(
                    v,
                ) by {
                    lemma_int_rep_parts(v);
                    if s@ == int_rep(v) {
                        if v < 0 {
                            assert(int_digits(v) =~= ds);
                            assert(digits_val(ds) == -v);
                        } else {
                            assert(is_digit_char(s@[0]));
                        }
                    }
                }
            }
            return None;
        }
        let v: i32 = (-(acc as i64)) as i32;
        proof {
            assert(v as int == -(acc as int));
            assert(int_digits(v as int) =~= ds);
            assert(int_rep(v as int) =~= seq!['-'] + ds);
            assert(s@ =~= seq!['-'] + ds);
        }
        Some(v)
    } else {
        if acc > 0x7fff_ffffu64 {
            // beyond i32::MAX
            proof {
                assert forall|v: int| i32::MIN as int <= v <= i32::MAX as int implies s@ != int_rep(
                    v,
                ) by {
                    lemma_int_rep_parts(v);
                    if s@ == int_rep(v) {
                        if v >= 0 {
                            assert(int_digits(v) =~= ds);
                            assert(digits_val(ds) == v);
                        } else {
                            assert(s@[0] == '-');
                        }
                    }
                }
            }
            return None;
        }
        let v: i32 = acc as i32;
        proof {
            assert(int_digits(v as int) =~= ds);
            assert(s@ =~= ds);
        }
        Some(v)
    }
}

/// The position of the first comma of `s`, if any.
fn find_comma(s: &str) -> (r: Option<usize>)
    ensures
        match r {
            Some(i) => i < s@.len() && s@[i as int] == ',' && forall|j: int|
                0 <= j < i ==> s@[j] != ',',
            None => forall|j: int| 0 <= j < s@.len() ==> s@[j] != ',',
        },
{
    let len = s.unicode_len();
    let mut i: usize = 0;
    while i < len
        invariant
            i <= len,
            len as int == s@.len(),
            forall|j: int| 0 <= j < i ==> s@[j] != ',',
        decreases len - i,
    {
        if s.get_char(i) == ',' {
            return Some(i);
        }
        i += 1;
    }
    None
}

impl Coord {
    /// Pure construction; any pair of integers is a legal coordinate.
    pub fn new(row: i32, col: i32) -> (r: Coord)
        ensures
            r.row == row,
            r.col == col,
    {
        Coord { row, col }
    }

    /// The canonical lookup key "row,col" of this coordinate, with no
    /// padding and no leading zeros.
    pub fn to_key(&self) -> (r: String)
        ensures
            r@ == key_of(self.row as int, self.col as int),
    {
        let mut s = String::new();
        push_int(&mut s, self.row);
        s.append(",");
        push_int(&mut s, self.col);
        proof {
            reveal_strlit(",");
            assert(s@ =~= key_of(self.row as int, self.col as int));
        }
        s
    }

    /// Parse a canonical "row,col" key back into its coordinate. This
    /// is the exact inverse of `to_key`: it returns a coordinate when
    /// and only when the string is the canonical key of one, so a
    /// parse failure marks a corrupted key.
    pub fn from_string(s: &str) -> (r: Option<Coord>)
        ensures
            match r {
                Some(c) => s@ == key_of(c.row as int, c.col as int),
                None => forall|row: int, col: int|
                    i32::MIN as int <= row <= i32::MAX as int && i32::MIN as int <= col
                        <= i32::MAX as int ==> s@ != key_of(row, col),
            },
    {
        let len = s.unicode_len();
        match find_comma(s) {
            None => {
                // every key holds a comma between its two halves
                proof {
                    assert forall|row: int, col: int|
                        i32::MIN as int <= row <= i32::MAX as int && i32::MIN as int <= col
                            <= i32::MAX as int implies s@ != key_of(row, col) by {
                        if s@ == key_of(row, col) {
                            lemma_int_rep_parts(row);
                            let p = int_rep(row).len() as int;
                            assert(s@[p] == ',');
                        }
                    }
                }
                None
            },
            Some(ci) => {
                let left = s.substring_char(0, ci);
                let right = s.substring_char(ci + 1, len);
                proof {
                    // in any key that s could be, the first comma sits
                    // exactly between the two integer halves
                    assert forall|row: int, col: int|
                        s@ == key_of(row, col) implies left@ == int_rep(row) && right@ == int_rep(
                        col,
                    ) by {
                        lemma_int_rep_parts(row);
                        lemma_int_rep_parts(col);
                        let p = int_rep(row).len() as int;
                        assert(s@[p] == ',');
                        assert(ci <= p);
                        if ci < p {
                            assert(s@[ci as int] == int_rep(row)[ci as int]);
                            assert(false);
                        }
                        assert(left@ =~= int_rep(row));
                        assert forall|j: int| 0 <= j < int_rep(col).len() implies right@[j]
                            == int_rep(col)[j] by {
                            assert(s@[p + 1 + j] == int_rep(col)[j]);
                        }
                        assert(right@ =~= int_rep(col));
                    }
                }
                let row = match parse_i32(left) {
                    Some(v) => v,
                    None => {
                        proof {
                            assert forall|row: int, col: int|
                                i32::MIN as int <= row <= i32::MAX as int && i32::MIN as int <= col
                                    <= i32::MAX as int implies s@ != key_of(row, col) by {
                                if s@ == key_of(row, col) {
                                    assert(left@ == int_rep(row));
                                    assert(left@ != int_rep(row));
                                }
                            }
                        }
                        return None;
                    },
                };
                let col = match parse_i32(right) {
                    Some(v) => v,
                    None => {
                        proof {
                            assert forall|row: int, col: int|
                                i32::MIN as int <= row <= i32::MAX as int && i32::MIN as int <= col
                                    <= i32::MAX as int implies s@ != key_of(row, col) by {
                                if s@ == key_of(row, col) {
                                    assert(right@ == int_rep(col));
                                    assert(right@ != int_rep(col));
                                }
                            }
                        }
                        return None;
                    },
                };
                proof {
                    assert(s@ =~= key_of(row as int, col as int));
                }
                Some(Coord::new(row, col))
            },
        }
    }
}

/// Key round-trip: two coordinates with the same canonical key are the
/// same coordinate, so parsing a coordinate's key always gives back
/// exactly that coordinate.
pub proof fn lemma_key_of_injective(r1: int, c1: int, r2: int, c2: int)
    requires
        key_of(r1, c1) == key_of(r2, c2),
    ensures
        r1 == r2,
        c1 == c2,
{
    lemma_int_rep_parts(r1);
    lemma_int_rep_parts(r2);
    lemma_int_rep_parts(c1);
    lemma_int_rep_parts(c2);
    let pos1 = int_rep(r1).len() as int;
    let pos2 = int_rep(r2).len() as int;
    let k = key_of(r1, c1);
    assert(k[pos1] == ',');
    assert(k[pos2] == ',') by {
        assert(key_of(r2, c2)[pos2] == ',');
    };
    if pos1 < pos2 {
        assert(key_of(r2, c2)[pos1] == int_rep(r2)[pos1]);
        assert(false);
    }
    if pos2 < pos1 {
        assert(key_of(r1, c1)[pos2] == int_rep(r1)[pos2]);
        assert(false);
    }
    assert(int_rep(r1) =~= int_rep(r2)) by {
        assert(forall|j: int|
            0 <= j < pos1 ==> key_of(r1, c1)[j] == int_rep(r1)[j] && key_of(r2, c2)[j] == int_rep(
                r2,
            )[j]);
    };
    lemma_int_rep_injective(r1, r2);
    assert(key_of(r1, c1).len() == pos1 + 1 + int_rep(c1).len());
    assert(key_of(r2, c2).len() == pos2 + 1 + int_rep(c2).len());
    assert(int_rep(c1).len() == int_rep(c2).len());
    assert forall|j: int| 0 <= j < int_rep(c1).len() implies int_rep(c1)[j] == int_rep(c2)[j] by {
        assert(key_of(r1, c1)[pos1 + 1 + j] == int_rep(c1)[j]);
        assert(key_of(r2, c2)[pos2 + 1 + j] == int_rep(c2)[j]);
    }
    assert(int_rep(c1) =~= int_rep(c2));
    lemma_int_rep_injective(c1, c2);
}

} // verus!
