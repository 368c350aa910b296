//! Decimal numerals: the value of a signed integer literal and the
//! canonical rendering of an integer, with the proof that the two are
//! inverse to each other.

use vstd::prelude::*;

use crate::semantics::in_isize_range;

verus! {

/// Whether `c` is an ASCII decimal digit.
pub open spec fn is_digit(c: char) -> bool {
    48 <= c as u32 <= 57
}

/// The numeric value of an ASCII decimal digit.
pub open spec fn digit_val(c: char) -> int {
    c as u32 - 48
}

/// The ASCII digit for a value below ten.
pub open spec fn digit_char(d: int) -> char {
    if d == 0 {
        '0'
    } else if d == 1 {
        '1'
    } else if d == 2 {
        '2'
    } else if d == 3 {
        '3'
    } else if d == 4 {
        '4'
    } else if d == 5 {
        '5'
    } else if d == 6 {
        '6'
    } else if d == 7 {
        '7'
    } else if d == 8 {
        '8'
    } else {
        '9'
    }
}

pub open spec fn all_digits(s: Seq<char>) -> bool {
    forall|i: int| 0 <= i < s.len() ==> is_digit(s[i])
}

/// The value of a digit string, most significant digit first.
pub open spec fn digits_val(s: Seq<char>) -> int
    decreases s.len(),
{
    if s.len() == 0 {
        0
    } else {
        digits_val(s.drop_last()) * 10 + digit_val(s.last())
    }
}

/// The canonical digit string of a nonnegative integer: no sign, no leading
/// zeros.
pub open spec fn digits_of(n: nat) -> Seq<char>
    decreases n,
{
    if n < 10 {
        seq![digit_char(n as int)]
    } else {
        digits_of(n / 10).push(digit_char((n % 10) as int))
    }
}

/// The decimal rendering of a signed integer.
pub open spec fn int_to_text(v: int) -> Seq<char> {
    if v < 0 {
        seq!['-'] + digits_of((-v) as nat)
    } else {
        digits_of(v as nat)
    }
}

/// Whether `s` has the shape of a signed integer literal: an optional sign
/// followed by one or more ASCII digits.
pub open spec fn int_literal_shape(s: Seq<char>) -> bool {
    if s.len() > 0 && (s[0] == '+' || s[0] == '-') {
        s.len() >= 2 && all_digits(s.skip(1))
    } else {
        s.len() >= 1 && all_digits(s)
    }
}

/// The digits of a literal, with any sign removed.
pub open spec fn digits_part(s: Seq<char>) -> Seq<char> {
    if s.len() > 0 && (s[0] == '+' || s[0] == '-') {
        s.skip(1)
    } else {
        s
    }
}

/// The value denoted by an integer literal.
pub open spec fn int_literal_val(s: Seq<char>) -> int {
    if s.len() > 0 && s[0] == '-' {
        -digits_val(digits_part(s))
    } else {
        digits_val(digits_part(s))
    }
}

/// Whether `s` is an integer literal whose value fits in `isize`, which is
/// exactly when parsing it as an `isize` succeeds.
pub open spec fn parses_as_isize(s: Seq<char>) -> bool {
    int_literal_shape(s) && in_isize_range(int_literal_val(s))
}

pub proof fn lemma_digits_val_nonneg(s: Seq<char>)
    requires
        all_digits(s),
    ensures
        digits_val(s) >= 0,
    decreases s.len(),
{
    if s.len() > 0 {
        assert(all_digits(s.drop_last()));
        lemma_digits_val_nonneg(s.drop_last());
    }
}

/// Extending a digit string does not decrease its value.
pub proof fn lemma_digits_val_prefix(s: Seq<char>, i: int)
    requires
        0 <= i <= s.len(),
        all_digits(s),
    ensures
        digits_val(s.subrange(0, i)) <= digits_val(s),
    decreases s.len() - i,
{
    if i < s.len() {
        lemma_digits_val_prefix(s, i + 1);
        assert(s.subrange(0, i + 1).drop_last() =~= s.subrange(0, i));
        assert(all_digits(s.subrange(0, i)));
        lemma_digits_val_nonneg(s.subrange(0, i));
        assert(digits_val(s.subrange(0, i + 1)) == digits_val(s.subrange(0, i)) * 10 + digit_val(
            s.subrange(0, i + 1).last(),
        ));
    } else {
        assert(s.subrange(0, i) =~= s);
    }
}

/// The canonical digit string of `n` denotes `n`, consists of digits, and
/// is nonempty.
pub proof fn lemma_digits_of_val(n: nat)
    ensures
        digits_val(digits_of(n)) == n,
        digits_of(n).len() >= 1,
        all_digits(digits_of(n)),
    decreases n,
{
    if n < 10 {
        assert(seq![digit_char(n as int)].drop_last() =~= Seq::<char>::empty());
        assert(digits_val(Seq::<char>::empty()) == 0);
        assert(digits_val(seq![digit_char(n as int)]) == digit_val(digit_char(n as int)));
    } else {
        lemma_digits_of_val(n / 10);
        let s = digits_of(n / 10);
        let c = digit_char((n % 10) as int);
        assert(s.push(c).drop_last() =~= s);
        assert(digits_val(s.push(c)) == digits_val(s) * 10 + digit_val(c));
        assert(all_digits(s.push(c)));
    }
}

/// Rendering then reading back: the decimal text of `v` is an integer
/// literal denoting `v`.
pub proof fn lemma_int_to_text_val(v: int)
    ensures
        int_literal_shape(int_to_text(v)),
        int_literal_val(int_to_text(v)) == v,
{
    if v < 0 {
        lemma_digits_of_val((-v) as nat);
        let t = seq!['-'] + digits_of((-v) as nat);
        assert(t[0] == '-');
        assert(t.skip(1) =~= digits_of((-v) as nat));
    } else {
        lemma_digits_of_val(v as nat);
        let t = digits_of(v as nat);
        assert(is_digit(t[0]));
        assert(t[0] != '+' && t[0] != '-');
    }
}

/// Append one decimal digit as text.
fn digit_str(d: usize) -> (r: &'static str)
    requires
        d < 10,
    ensures
        r@ == seq![digit_char(d as int)],
{
    proof {
        reveal_strlit("0");
        reveal_strlit("1");
        reveal_strlit("2");
        reveal_strlit("3");
        reveal_strlit("4");
        reveal_strlit("5");
        reveal_strlit("6");
        reveal_strlit("7");
        reveal_strlit("8");
        reveal_strlit("9");
    }
    let r = match d {
        0 => "0",
        1 => "1",
        2 => "2",
        3 => "3",
        4 => "4",
        5 => "5",
        6 => "6",
        7 => "7",
        8 => "8",
        _ => "9",
    };
    proof {
        assert(r@ =~= seq![digit_char(d as int)]);
    }
    r
}

/// Append the decimal digits of `m` to `out`.
fn push_digits(out: &mut String, m: usize)
    ensures
        final(out)@ == old(out)@ + digits_of(m as nat),
    decreases m,
{
    if m < 10 {
        out.append(digit_str(m));
        proof {
            assert(final(out)@ =~= old(out)@ + digits_of(m as nat));
        }
    } else {
        push_digits(out, m / 10);
        out.append(digit_str(m % 10));
        proof {
            assert(digits_of((m / 10) as nat).push(digit_char((m % 10) as int)) =~= digits_of(
                (m / 10) as nat,
            ) + seq![digit_char((m % 10) as int)]);
            assert(final(out)@ =~= old(out)@ + digits_of(m as nat));
        }
    }
}

/// The decimal rendering of a signed machine integer.
pub fn render_int(v: isize) -> (r: String)
    ensures
        r@ == int_to_text(v as int),
{
    let mut out = String::new();
    if v < 0 {
        proof {
            reveal_strlit("-");
        }
        out.append("-");
        let m: usize = ((-(v + 1)) as usize) + 1;
        proof {
            assert(m as nat == (-(v as int)) as nat);
        }
        push_digits(&mut out, m);
        proof {
            assert(("-")@ =~= seq!['-']);
            assert(out@ =~= int_to_text(v as int));
        }
    } else {
        push_digits(&mut out, v as usize);
        proof {
            assert(out@ =~= int_to_text(v as int));
        }
    }
    out
}

/// Parse a signed integer literal; `None` exactly when the text is not a
/// literal or its value does not fit in `isize`.
#[verifier::loop_isolation(false)]
pub fn parse_isize(s: &str) -> (r: Option<isize>)
    ensures
        match r {
            Some(v) => parses_as_isize(s@) && v as int == int_literal_val(s@),
            None => !parses_as_isize(s@),
        },
{
    let n = s.unicode_len();
    if n == 0 {
        return None;
    }
    let c0 = s.get_char(0);
    let neg = c0 == '-';
    let signed = neg || c0 == '+';
    let start: usize = if signed {
        1
    } else {
        0
    };
    if n == start {
        // a bare sign has no digits
        return None;
    }
    let ghost digits = s@.skip(start as int);
    proof {
        assert(digits =~= digits_part(s@));
    }
    let mut acc: isize = 0;
    let mut i: usize = start;
    while i < n
        invariant
            start <= i <= n,
            n == s@.len(),
            start <= 1,
            digits == s@.skip(start as int),
            forall|k: int| start <= k < i ==> is_digit(s@[k]),
            acc == -digits_val(s@.subrange(start as int, i as int)),
            acc <= 0,
        decreases n - i,
    {
        let c = s.get_char(i);
        let u = c as u32;
        if u < 48 || u > 57 {
            // not a digit: the text is not an integer literal
            proof {
                assert(digits[i as int - start as int] == s@[i as int]);
                if int_literal_shape(s@) {
                    assert(digits_part(s@) =~= digits);
                    assert(is_digit(digits[i as int - start as int]));
                }
            }
            return None;
        }
        let ghost prefix = s@.subrange(start as int, i as int);
        let ghost prefix1 = s@.subrange(start as int, i as int + 1);
        proof {
            assert(prefix1.drop_last() =~= prefix);
            assert(digits_val(prefix1) == digits_val(prefix) * 10 + digit_val(s@[i as int]));
        }
        let d = (u - 48) as isize;
        let acc10 = match acc.checked_mul(10) {
            Some(a) => a,
            None => {
                // the magnitude already exceeds the isize range
                proof {
                    assert(acc * 10 < isize::MIN);
                    assert(digits_val(prefix) * 10 + digit_val(s@[i as int]) > isize::MAX + 1);
                    lemma_overflow_out_of_range(s@, start as int, i as int);
                }
                return None;
            },
        };
        acc = match acc10.checked_sub(d) {
            Some(a) => a,
            None => {
                proof {
                    assert(acc10 - d < isize::MIN);
                    assert(digits_val(prefix) * 10 + digit_val(s@[i as int]) > isize::MAX + 1);
                    lemma_overflow_out_of_range(s@, start as int, i as int);
                }
                return None;
            },
        };
        proof {
            assert(acc == -digits_val(prefix1));
        }
        i += 1;
    }
    proof {
        assert(s@.subrange(start as int, n as int) =~= digits);
        assert(all_digits(digits));
        assert(int_literal_shape(s@));
    }
    if neg {
        proof {
            assert(int_literal_val(s@) == acc as int);
        }
        Some(acc)
    } else {
        if acc == isize::MIN {
            // the value would be one past isize::MAX
            proof {
                assert(int_literal_val(s@) == -(acc as int));
                assert(!in_isize_range(int_literal_val(s@)));
            }
            return None;
        }
        proof {
            assert(int_literal_val(s@) == -(acc as int));
        }
        Some(-acc)
    }
}

/// When the running magnitude of the digits seen so far exceeds the isize
/// range, no integer literal built on them fits in `isize`.
proof fn lemma_overflow_out_of_range(s: Seq<char>, start: int, i: int)
    requires
        0 <= start <= i < s.len(),
        start <= 1,
        start == 1 ==> s[0] == '+' || s[0] == '-',
        forall|k: int| start <= k < i ==> is_digit(s[k]),
        is_digit(s[i]),
        digits_val(s.subrange(start, i)) * 10 + digit_val(s[i]) > isize::MAX + 1,
    ensures
        !parses_as_isize(s),
{
    if int_literal_shape(s) {
        let digits = digits_part(s);
        let dstart = if s.len() > 0 && (s[0] == '+' || s[0] == '-') {
            1int
        } else {
            0int
        };
        assert(digits =~= s.skip(dstart));
        assert(start == dstart);
        let prefix1 = s.subrange(start, i + 1);
        assert(prefix1.drop_last() =~= s.subrange(start, i));
        assert(digits_val(prefix1) == digits_val(s.subrange(start, i)) * 10 + digit_val(s[i]));
        assert(prefix1 =~= digits.subrange(0, i + 1 - start));
        lemma_digits_val_prefix(digits, i + 1 - start);
        assert(digits_val(digits) > isize::MAX + 1);
        assert(!in_isize_range(int_literal_val(s)));
    }
}

} // verus!
