//! A recognizer for the text forms that parse as 64-bit floats.
//!
//! The accepted shapes are an optional sign followed by `inf`,
//! `infinity` or `nan` (case-insensitively), or by a mantissa — digits
//! with at most one dot and at least one digit — with an optional
//! exponent: `e` or `E`, an optional sign, and at least one digit.

use vstd::prelude::*;

verus! {

/// Whether `c` is an ASCII decimal digit.
pub open spec fn is_ascii_digit(c: char) -> bool {
    48 <= c as u32 <= 57
}

/// Whether every character of `s` is an ASCII decimal digit.
pub open spec fn all_digits(s: Seq<char>) -> bool {
    forall|i: int| 0 <= i < s.len() ==> is_ascii_digit(s[i])
}

/// The code point of `c` with an ASCII capital folded to lower case.
pub open spec fn lower_code(c: char) -> u32 {
    if 65 <= c as u32 <= 90 {
        (c as u32 + 32) as u32
    } else {
        c as u32
    }
}

/// Whether `s` spells `inf`, case-insensitively.
pub open spec fn is_inf(s: Seq<char>) -> bool {
    s.len() == 3 && lower_code(s[0]) == 105 && lower_code(s[1]) == 110 && lower_code(s[2]) == 102
}

/// Whether `s` spells `infinity`, case-insensitively.
pub open spec fn is_infinity(s: Seq<char>) -> bool {
    s.len() == 8 && lower_code(s[0]) == 105 && lower_code(s[1]) == 110 && lower_code(s[2]) == 102
        && lower_code(s[3]) == 105 && lower_code(s[4]) == 110 && lower_code(s[5]) == 105
        && lower_code(s[6]) == 116 && lower_code(s[7]) == 121
}

/// Whether `s` spells `nan`, case-insensitively.
pub open spec fn is_nan(s: Seq<char>) -> bool {
    s.len() == 3 && lower_code(s[0]) == 110 && lower_code(s[1]) == 97 && lower_code(s[2]) == 110
}

/// A mantissa: at least one digit, at most one dot, nothing else.
pub open spec fn is_mantissa(s: Seq<char>) -> bool {
    (s.len() > 0 && all_digits(s)) || (s.len() >= 2 && exists|p: int|
        0 <= p < s.len() && s[p] == '.' && all_digits(s.take(p)) && all_digits(s.skip(p + 1)))
}

/// An exponent body: an optional sign, then at least one digit.
pub open spec fn is_exponent(s: Seq<char>) -> bool {
    (s.len() > 0 && all_digits(s)) || (s.len() >= 2 && (s[0] == '+' || s[0] == '-') && all_digits(
        s.skip(1),
    ))
}

/// A number body: a mantissa, optionally followed by `e`/`E` and an
/// exponent.
pub open spec fn is_number_body(s: Seq<char>) -> bool {
    is_mantissa(s) || (exists|p: int|
        0 <= p < s.len() && (s[p] == 'e' || s[p] == 'E') && is_mantissa(s.take(p)) && is_exponent(
            s.skip(p + 1),
        ))
}

/// `s` with one leading sign removed.
pub open spec fn strip_sign(s: Seq<char>) -> Seq<char> {
    if s.len() > 0 && (s[0] == '+' || s[0] == '-') {
        s.skip(1)
    } else {
        s
    }
}

/// Whether `s` is a text that parses as a 64-bit float.
pub open spec fn spec_is_f64_literal(s: Seq<char>) -> bool {
    let b = strip_sign(s);
    is_inf(b) || is_infinity(b) || is_nan(b) || is_number_body(b)
}

/// Whether `c` is an ASCII decimal digit.
pub fn is_digit_char(c: char) -> (r: bool)
    ensures
        r == is_ascii_digit(c),
{
    let u: u32 = c as u32;
    48 <= u && u <= 57
}

/// The case-folded code point of `c`.
fn lower_code_of(c: char) -> (r: u32)
    ensures
        r == lower_code(c),
{
    let u: u32 = c as u32;
    if 65 <= u && u <= 90 {
        u + 32
    } else {
        u
    }
}

/// Checks `s[lo..hi]` for the mantissa shape.
fn check_mantissa(s: &str, lo: usize, hi: usize) -> (r: bool)
    requires
        lo <= hi <= s@.len(),
    ensures
        r == is_mantissa(s@.subrange(lo as int, hi as int)),
{
    let ghost sub = s@.subrange(lo as int, hi as int);
    let mut j: usize = lo;
    let mut dot: Option<usize> = Option::None;
    while j < hi
        invariant
            lo <= j <= hi <= s@.len(),
            sub == s@.subrange(lo as int, hi as int),
            match dot {
                Option::Some(d) => lo <= d < j && sub[d - lo] == '.' && forall|k: int|
                    0 <= k < j - lo && k != d - lo ==> is_ascii_digit(sub[k]),
                Option::None => forall|k: int| 0 <= k < j - lo ==> is_ascii_digit(sub[k]),
            },
        decreases hi - j,
    {
        let c = s.get_char(j);
        proof {
            assert(sub[j - lo] == s@[j as int]);
        }
        if is_digit_char(c) {
        } else if c == '.' {
            match dot {
                Option::None => {
                    dot = Option::Some(j);
                },
                Option::Some(d) => {
                    proof {
                        let di = d - lo;
                        let ji = j as int - lo;
                        assert(!all_digits(sub)) by {
                            assert(!is_ascii_digit(sub[di]));
                        }
                        assert forall|p: int|
                            0 <= p < sub.len() && sub[p] == '.' && all_digits(sub.take(p))
                                implies !all_digits(sub.skip(p + 1)) by {
                            if p > di {
                                assert(sub.take(p)[di] == sub[di]);
                                assert(is_ascii_digit(sub[di]));
                                assert(false);
                            } else {
                                assert(ji > p);
                                assert(sub.skip(p + 1)[ji - p - 1] == sub[ji]);
                                assert(!is_ascii_digit(sub[ji]));
                            }
                        }
                        assert(!is_mantissa(sub));
                    }
                    return false;
                },
            }
        } else {
            proof {
                let ji = j as int - lo;
                assert(!all_digits(sub)) by {
                    assert(!is_ascii_digit(sub[ji]));
                }
                assert forall|p: int|
                    0 <= p < sub.len() && sub[p] == '.' && all_digits(sub.take(p))
                        implies !all_digits(sub.skip(p + 1)) by {
                    assert(p != ji);
                    if p > ji {
                        assert(sub.take(p)[ji] == sub[ji]);
                        assert(!is_ascii_digit(sub[ji]));
                    } else {
                        assert(sub.skip(p + 1)[ji - p - 1] == sub[ji]);
                        assert(!is_ascii_digit(sub[ji]));
                    }
                }
                assert(!is_mantissa(sub));
            }
            return false;
        }
        j = j + 1;
    }
    match dot {
        Option::None => {
            proof {
                if hi > lo {
                    assert(all_digits(sub));
                }
                if hi == lo {
                    assert(sub.len() == 0);
                    assert(!is_mantissa(sub));
                }
            }
            hi > lo
        },
        Option::Some(d) => {
            proof {
                let di = d - lo;
                if hi - lo >= 2 {
                    assert(is_mantissa(sub)) by {
                        assert(sub[di] == '.');
                        assert(all_digits(sub.take(di))) by {
                            assert(forall|k: int|
                                0 <= k < di ==> sub.take(di)[k] == #[trigger] sub[k]);
                        }
                        assert(all_digits(sub.skip(di + 1))) by {
                            assert(forall|k: int|
                                0 <= k < sub.len() - di - 1 ==> sub.skip(di + 1)[k]
                                    == #[trigger] sub[k + di + 1]);
                        }
                    }
                } else {
                    assert(sub.len() < 2);
                    assert(!all_digits(sub)) by {
                        assert(!is_ascii_digit(sub[di]));
                    }
                    assert(!is_mantissa(sub));
                }
            }
            hi - lo >= 2
        },
    }
}

/// Checks `s[lo..hi]` for the exponent shape.
fn check_exponent(s: &str, lo: usize, hi: usize) -> (r: bool)
    requires
        lo <= hi <= s@.len(),
    ensures
        r == is_exponent(s@.subrange(lo as int, hi as int)),
{
    let ghost sub = s@.subrange(lo as int, hi as int);
    let mut j: usize = lo;
    if j < hi {
        let c0 = s.get_char(j);
        if c0 == '+' || c0 == '-' {
            j = j + 1;
        }
    }
    let start = j;
    if start == hi {
        proof {
            assert(!is_exponent(sub)) by {
                if sub.len() > 0 {
                    assert(!is_ascii_digit(sub[0]));
                    if sub.len() >= 2 {
                        assert(sub.skip(1).len() == 0);
                    }
                }
            }
        }
        return false;
    }
    while j < hi
        invariant
            lo <= start <= j <= hi <= s@.len(),
            sub == s@.subrange(lo as int, hi as int),
            start == lo || (start == lo + 1 && (sub[0] == '+' || sub[0] == '-')),
            start == lo && sub.len() > 0 ==> !(sub[0] == '+' || sub[0] == '-'),
            start < hi,
            forall|k: int| start - lo <= k < j - lo ==> is_ascii_digit(sub[k]),
        decreases hi - j,
    {
        let c = s.get_char(j);
        proof {
            assert(sub[j - lo] == s@[j as int]);
        }
        if !is_digit_char(c) {
            proof {
                let ji = j as int - lo;
                assert(!all_digits(sub)) by {
                    assert(!is_ascii_digit(sub[ji]));
                }
                if sub.len() >= 2 && (sub[0] == '+' || sub[0] == '-') {
                    assert(start == lo + 1);
                    assert(ji >= 1);
                    assert(!all_digits(sub.skip(1))) by {
                        assert(sub.skip(1)[ji - 1] == sub[ji]);
                    }
                }
                assert(!is_exponent(sub));
            }
            return false;
        }
        j = j + 1;
    }
    proof {
        assert(is_exponent(sub)) by {
            if start == lo {
                assert(all_digits(sub));
            } else {
                assert(sub.len() >= 2);
                assert(all_digits(sub.skip(1))) by {
                    assert(forall|k: int|
                        0 <= k < sub.len() - 1 ==> sub.skip(1)[k] == #[trigger] sub[k + 1]);
                }
            }
        }
    }
    true
}

/// Whether `s` parses as a 64-bit float.
pub fn is_f64_literal(s: &str) -> (r: bool)
    ensures
        r == spec_is_f64_literal(s@),
{
    let n = s.unicode_len();
    let mut start: usize = 0;
    if n > 0 {
        let c0 = s.get_char(0);
        if c0 == '+' || c0 == '-' {
            start = 1;
        }
    }
    let ghost body = strip_sign(s@);
    proof {
        assert(body =~= s@.subrange(start as int, n as int));
    }
    let m = n - start;
    if m == 3 || m == 8 {
        let l0 = lower_code_of(s.get_char(start));
        let l1 = lower_code_of(s.get_char(start + 1));
        let l2 = lower_code_of(s.get_char(start + 2));
        proof {
            assert(body[0] == s@[start as int]);
            assert(body[1] == s@[start as int + 1]);
            assert(body[2] == s@[start as int + 2]);
        }
        if m == 3 {
            if (l0 == 105 && l1 == 110 && l2 == 102) || (l0 == 110 && l1 == 97 && l2 == 110) {
                return true;
            }
        } else {
            let l3 = lower_code_of(s.get_char(start + 3));
            let l4 = lower_code_of(s.get_char(start + 4));
            let l5 = lower_code_of(s.get_char(start + 5));
            let l6 = lower_code_of(s.get_char(start + 6));
            let l7 = lower_code_of(s.get_char(start + 7));
            proof {
                assert(body[3] == s@[start as int + 3]);
                assert(body[4] == s@[start as int + 4]);
                assert(body[5] == s@[start as int + 5]);
                assert(body[6] == s@[start as int + 6]);
                assert(body[7] == s@[start as int + 7]);
            }
            if l0 == 105 && l1 == 110 && l2 == 102 && l3 == 105 && l4 == 110 && l5 == 105 && l6
                == 116 && l7 == 121 {
                return true;
            }
        }
    }
    let mut e_pos: Option<usize> = Option::None;
    let mut j: usize = start;
    while j < n
        invariant
            start <= j <= n,
            n == s@.len(),
            body == strip_sign(s@),
            body =~= s@.subrange(start as int, n as int),
            match e_pos {
                Option::Some(p) => start <= p < j && (s@[p as int] == 'e' || s@[p as int] == 'E')
                    && forall|k: int| start <= k < p ==> s@[k] != 'e' && s@[k] != 'E',
                Option::None => forall|k: int| start <= k < j ==> s@[k] != 'e' && s@[k] != 'E',
            },
        decreases n - j,
    {
        let c = s.get_char(j);
        if c == 'e' || c == 'E' {
            if e_pos.is_none() {
                e_pos = Option::Some(j);
            }
        }
        j = j + 1;
    }
    match e_pos {
        Option::None => {
            let r = check_mantissa(s, start, n);
            proof {
                assert(s@.subrange(start as int, n as int) == body);
                assert(!(exists|p: int|
                    0 <= p < body.len() && (body[p] == 'e' || body[p] == 'E') && is_mantissa(
                        body.take(p),
                    ) && is_exponent(body.skip(p + 1)))) by {
                    assert(forall|p: int|
                        0 <= p < body.len() ==> #[trigger] body[p] == s@[p + start]);
                    assert(forall|p: int|
                        0 <= p < body.len() ==> body[p] != 'e' && body[p] != 'E');
                }
                assert(r == is_number_body(body));
                assert(!is_inf(body) && !is_infinity(body) && !is_nan(body)) by {
                    if body.len() == 3 || body.len() == 8 {
                    }
                }
            }
            r
        },
        Option::Some(p) => {
            let r1 = check_mantissa(s, start, p);
            let r2 = check_exponent(s, p + 1, n);
            let r = r1 && r2;
            proof {
                let pb = p as int - start;
                assert(body[pb] == s@[p as int]);
                assert(s@.subrange(start as int, p as int) =~= body.take(pb));
                assert(s@.subrange(p as int + 1, n as int) =~= body.skip(pb + 1));
                if r {
                    assert(is_number_body(body));
                } else {
                    assert(!is_mantissa(body)) by {
                        assert(!is_ascii_digit(body[pb]));
                        assert forall|q: int|
                            0 <= q < body.len() && body[q] == '.' && all_digits(body.take(q))
                                implies !all_digits(body.skip(q + 1)) by {
                            assert(body[pb] != '.');
                            if q > pb {
                                assert(body.take(q)[pb] == body[pb]);
                            } else {
                                assert(body.skip(q + 1)[pb - q - 1] == body[pb]);
                            }
                        }
                    }
                    assert forall|q: int|
                        0 <= q < body.len() && (body[q] == 'e' || body[q] == 'E') && is_mantissa(
                            body.take(q),
                        ) implies !is_exponent(body.skip(q + 1)) by {
                        if q < pb {
                            assert(body[q] == s@[q + start]);
                            assert(false);
                        } else if q == pb {
                            assert(!r1 || !r2);
                            if r1 {
                                assert(!is_exponent(body.skip(pb + 1)));
                            } else {
                                assert(!is_mantissa(body.take(pb)));
                                assert(false);
                            }
                        } else {
                            assert(body.take(q)[pb] == body[pb]);
                            assert(!is_mantissa(body.take(q))) by {
                                assert(!is_ascii_digit(body[pb]));
                                assert(!all_digits(body.take(q))) by {
                                    assert(body.take(q)[pb] == body[pb]);
                                }
                                assert forall|d: int|
                                    0 <= d < body.take(q).len() && body.take(q)[d] == '.'
                                        && all_digits(body.take(q).take(d)) implies !all_digits(
                                    body.take(q).skip(d + 1)) by {
                                    assert(body.take(q)[pb] == body[pb]);
                                    assert(d != pb);
                                    if d > pb {
                                        assert(body.take(q).take(d)[pb] == body.take(q)[pb]);
                                    } else {
                                        assert(body.take(q).skip(d + 1)[pb - d - 1]
                                            == body.take(q)[pb]);
                                    }
                                }
                            }
                            assert(false);
                        }
                    }
                    assert(!is_number_body(body));
                }
                assert(!is_inf(body) && !is_infinity(body) && !is_nan(body)) by {
                    if body.len() == 3 || body.len() == 8 {
                    }
                }
            }
            r
        },
    }
}

} // verus!
