//! Decimal rendering and parsing of the unsigned integers that appear as
//! tokens in the serialization format, with a proof that rendering followed
//! by parsing returns the original number.

use vstd::prelude::*;

use crate::text::{ascii_byte_seq, ascii_to_string, bytes_chars};

verus! {

/// The decimal digit characters.
pub open spec fn is_digit(c: char) -> bool {
    48 <= (c as u32) && (c as u32) <= 57
}

/// Value of a digit character.
pub open spec fn digit_val(c: char) -> int {
    (c as u32) - 48
}

/// The digit character for a value below ten.
pub open spec fn digit_char(d: int) -> char {
    ((48 + d) as u8) as char
}

/// Decimal representation of a number, most significant digit first,
/// without leading zeros.
pub open spec fn dec_seq(n: nat) -> Seq<char>
    decreases n,
{
    if n < 10 {
        seq![digit_char(n as int)]
    } else {
        dec_seq(n / 10).push(digit_char((n % 10) as int))
    }
}

/// Numeric value of a digit string, by Horner's rule.
pub open spec fn digits_val(s: Seq<char>) -> int
    decreases s.len(),
{
    if s.len() == 0 {
        0
    } else {
        digits_val(s.drop_last()) * 10 + digit_val(s.last())
    }
}

/// Every character is a decimal digit.
pub open spec fn digits_only(s: Seq<char>) -> bool {
    forall|i: int| 0 <= i < s.len() ==> is_digit(#[trigger] s[i])
}

/// What `str::parse::<u128>` accepts: an optional leading `+`, then one or
/// more digits whose value fits, and nothing else.
pub open spec fn spec_parse_u128(s: Seq<char>) -> Option<u128> {
    let d = if s.len() >= 1 && s[0] == '+' {
        s.drop_first()
    } else {
        s
    };
    if d.len() > 0 && digits_only(d) && digits_val(d) <= u128::MAX {
        Some(digits_val(d) as u128)
    } else {
        None
    }
}

/// Same acceptance rule, for values that must fit in a `usize`.
pub open spec fn spec_parse_usize(s: Seq<char>) -> Option<usize> {
    match spec_parse_u128(s) {
        Some(v) => if v <= usize::MAX as u128 {
            Some(v as usize)
        } else {
            None
        },
        None => None,
    }
}

/// Same acceptance rule, for values that must fit in a `u16`.
pub open spec fn spec_parse_u16(s: Seq<char>) -> Option<u16> {
    match spec_parse_u128(s) {
        Some(v) => if v <= u16::MAX as u128 {
            Some(v as u16)
        } else {
            None
        },
        None => None,
    }
}

/// A digit string is non-negative.
proof fn lemma_digits_val_nonneg(s: Seq<char>)
    requires
        digits_only(s),
    ensures
        digits_val(s) >= 0,
    decreases s.len(),
{
    if s.len() > 0 {
        assert(digits_only(s.drop_last())) by {
            assert(forall|i: int|
                0 <= i < s.len() - 1 ==> #[trigger] s.drop_last()[i] == s[i]);
        }
        lemma_digits_val_nonneg(s.drop_last());
        assert(is_digit(s.last()));
    }
}

/// Extending a digit string on the right does not decrease its value.
proof fn lemma_digits_val_take_le(s: Seq<char>, i: int)
    requires
        digits_only(s),
        0 <= i <= s.len(),
    ensures
        digits_val(s.take(i)) <= digits_val(s),
    decreases s.len() - i,
{
    if i == s.len() {
        assert(s.take(i) =~= s);
    } else {
        assert(digits_only(s.take(i))) by {
            assert forall|j: int| 0 <= j < s.take(i).len() implies is_digit(
                #[trigger] s.take(i)[j],
            ) by {
                assert(s.take(i)[j] == s[j]);
            }
        }
        assert(digits_only(s.take(i + 1))) by {
            assert forall|j: int| 0 <= j < s.take(i + 1).len() implies is_digit(
                #[trigger] s.take(i + 1)[j],
            ) by {
                assert(s.take(i + 1)[j] == s[j]);
            }
        }
        assert(s.take(i + 1).drop_last() =~= s.take(i));
        assert(s.take(i + 1).last() == s[i]);
        lemma_digits_val_nonneg(s.take(i));
        assert(is_digit(s[i]));
        assert(digits_val(s.take(i + 1)) == digits_val(s.take(i)) * 10 + digit_val(s[i]));
        assert(digits_val(s.take(i)) <= digits_val(s.take(i)) * 10) by (nonlinear_arith)
            requires
                digits_val(s.take(i)) >= 0,
        ;
        lemma_digits_val_take_le(s, i + 1);
    }
}

/// The decimal rendering contains digits only.
pub proof fn lemma_dec_seq_digits(n: nat)
    ensures
        dec_seq(n).len() >= 1,
        digits_only(dec_seq(n)),
    decreases n,
{
    if n < 10 {
        assert(is_digit(digit_char(n as int)));
    } else {
        lemma_dec_seq_digits(n / 10);
        assert(is_digit(digit_char((n % 10) as int)));
        assert(forall|i: int|
            0 <= i < dec_seq(n / 10).len() ==> #[trigger] dec_seq(n)[i] == dec_seq(n / 10)[i]);
        assert(dec_seq(n).last() == digit_char((n % 10) as int));
    }
}

/// The decimal rendering evaluates back to the number.
pub proof fn lemma_dec_seq_val(n: nat)
    ensures
        digits_val(dec_seq(n)) == n,
    decreases n,
{
    if n < 10 {
        crate::text::lemma_ascii_byte_char_cast((48 + n) as u8);
        assert(digit_val(digit_char(n as int)) == n);
        assert(dec_seq(n).len() == 1);
        assert(dec_seq(n).drop_last() =~= Seq::<char>::empty());
        assert(dec_seq(n).last() == digit_char(n as int));
        assert(digits_val(Seq::<char>::empty()) == 0);
        assert(digits_val(dec_seq(n)) == digits_val(dec_seq(n).drop_last()) * 10 + digit_val(
            dec_seq(n).last(),
        ));
    } else {
        lemma_dec_seq_val(n / 10);
        crate::text::lemma_ascii_byte_char_cast((48 + n % 10) as u8);
        assert(dec_seq(n).drop_last() =~= dec_seq(n / 10));
        assert(dec_seq(n).len() > 0);
        assert(digit_val(dec_seq(n).last()) == n % 10);
        assert(digits_val(dec_seq(n)) == digits_val(dec_seq(n).drop_last()) * 10 + digit_val(
            dec_seq(n).last(),
        ));
        assert(n / 10 * 10 + n % 10 == n) by (nonlinear_arith);
    }
}

/// Rendering then parsing is the identity: the round trip for unsigned
/// integer tokens.
pub proof fn lemma_parse_dec_seq(n: u128)
    ensures
        spec_parse_u128(dec_seq(n as nat)) == Some(n),
{
    lemma_dec_seq_digits(n as nat);
    lemma_dec_seq_val(n as nat);
    assert(is_digit(dec_seq(n as nat)[0]));
    assert(dec_seq(n as nat)[0] != '+');
}

/// Rendering then parsing is the identity, `usize` version.
pub proof fn lemma_parse_dec_seq_usize(n: usize)
    ensures
        spec_parse_usize(dec_seq(n as nat)) == Some(n),
{
    lemma_parse_dec_seq(n as u128);
}

/// Rendering then parsing is the identity, `u16` version.
pub proof fn lemma_parse_dec_seq_u16(n: u16)
    ensures
        spec_parse_u16(dec_seq(n as nat)) == Some(n),
{
    lemma_parse_dec_seq(n as u128);
}

/// Pushes the decimal digits of `n` onto `out`, most significant first.
pub(crate) fn push_dec_bytes(n: u128, out: &mut Vec<u8>)
    ensures
        final(out)@ == old(out)@ + dec_seq(n as nat).map_values(|c: char| c as u8),
    decreases n,
{
    proof {
        lemma_dec_seq_digits(n as nat);
    }
    if n < 10 {
        let d: u8 = (48 + (n as u8));
        out.push(d);
        proof {
            assert(dec_seq(n as nat) =~= seq![digit_char(n as int)]);
            assert(d as char == digit_char(n as int));
            assert(final(out)@ =~= old(out)@ + dec_seq(n as nat).map_values(
                |c: char| c as u8,
            ));
        }
    } else {
        push_dec_bytes(n / 10, out);
        let d: u8 = (48 + ((n % 10) as u8));
        out.push(d);
        proof {
            assert(d as char == digit_char((n % 10) as int));
            assert(dec_seq(n as nat) == dec_seq((n as nat) / 10).push(
                digit_char(((n as nat) % 10) as int),
            ));
            assert(final(out)@ =~= old(out)@ + dec_seq(n as nat).map_values(
                |c: char| c as u8,
            ));
        }
    }
}

/// Renders a number as its decimal string.
pub fn u128_to_decimal(n: u128) -> (r: String)
    ensures
        r@ == dec_seq(n as nat),
        r.is_ascii(),
{
    let mut out: Vec<u8> = Vec::new();
    push_dec_bytes(n, &mut out);
    proof {
        lemma_dec_seq_digits(n as nat);
        assert(out@ =~= dec_seq(n as nat).map_values(|c: char| c as u8));
        assert(ascii_byte_seq(out@)) by {
            assert forall|i: int| 0 <= i < out@.len() implies #[trigger] out@[i] < 128 by {
                let c = dec_seq(n as nat)[i];
                assert(out@[i] == c as u8);
                assert(is_digit(c));
                crate::text::lemma_ascii_char_byte_cast(c);
            }
        }
    }
    let r = ascii_to_string(out);
    proof {
        assert(r@ =~= dec_seq(n as nat)) by {
            assert forall|i: int| 0 <= i < r@.len() implies r@[i] == dec_seq(n as nat)[i] by {
                let c = dec_seq(n as nat)[i];
                assert(is_digit(c));
                assert(out@[i] == c as u8);
                crate::text::lemma_ascii_char_byte_cast(c);
                assert(r@[i] == (c as u8) as char);
            }
        }
    }
    r
}

/// Parses a decimal string exactly as `str::parse::<u128>` does.
pub fn parse_u128(s: &str) -> (r: Option<u128>)
    ensures
        r == spec_parse_u128(s@),
{
    let len = s.unicode_len();
    let start: usize = if len > 0 && s.get_char(0) == '+' {
        1
    } else {
        0
    };
    let ghost d: Seq<char> = if s@.len() >= 1 && s@[0] == '+' {
        s@.drop_first()
    } else {
        s@
    };
    proof {
        assert(forall|j: int| 0 <= j < d.len() ==> d[j] == s@[j + start]);
    }
    if start >= len {
        return None;
    }
    let mut val: u128 = 0;
    let mut i: usize = start;
    while i < len
        invariant
            start <= 1,
            start <= i <= len,
            len == s@.len(),
            (start == 1) <==> (s@.len() >= 1 && s@[0] == '+'),
            start == 1 ==> d == s@.drop_first(),
            start == 0 ==> d == s@,
            d.len() == len - start,
            forall|j: int| 0 <= j < d.len() ==> d[j] == s@[j + start],
            digits_only(d.take(i - start)),
            val == digits_val(d.take(i - start)),
        decreases len - i,
    {
        let c = s.get_char(i);
        let u = c as u32;
        if u < 48 || u > 57 {
            proof {
                assert(d[i - start] == c);
                assert(!is_digit(c));
                assert(!digits_only(d));
                assert(spec_parse_u128(s@) is None);
            }
            return None;
        }
        proof {
            assert(d[i - start] == c);
            assert(is_digit(c));
            assert(digits_only(d.take(i + 1 - start))) by {
                assert forall|j: int| 0 <= j < i + 1 - start implies is_digit(
                    #[trigger] d.take(i + 1 - start)[j],
                ) by {
                    assert(d.take(i + 1 - start)[j] == d[j]);
                    if j < i - start {
                        assert(d.take(i - start)[j] == d[j]);
                        assert(is_digit(d.take(i - start)[j]));
                    }
                }
            }
            assert(d.take(i + 1 - start).drop_last() =~= d.take(i - start));
            assert(d.take(i + 1 - start).last() == d[i - start]);
        }
        let dig: u128 = (u - 48) as u128;
        let next = match val.checked_mul(10) {
            Some(v) => match v.checked_add(dig) {
                Some(w) => w,
                None => {
                    proof {
                        overflow_means_none(s@, d, i - start + 1);
                    }
                    return None;
                },
            },
            None => {
                proof {
                    lemma_digits_val_nonneg(d.take(i - start));
                    assert(digit_val(c) >= 0);
                    assert(val * 10 + digit_val(c) > u128::MAX) by (nonlinear_arith)
                        requires
                            val * 10 > u128::MAX,
                            digit_val(c) >= 0,
                    ;
                    overflow_means_none(s@, d, i - start + 1);
                }
                return None;
            },
        };
        val = next;
        i = i + 1;
    }
    proof {
        assert(d.take(len - start) =~= d);
        lemma_digits_val_nonneg(d);
    }
    Some(val)
}

/// If some prefix of the digit string already exceeds `u128::MAX`, the whole
/// string parses to nothing.
proof fn overflow_means_none(s: Seq<char>, d: Seq<char>, k: int)
    requires
        d == (if s.len() >= 1 && s[0] == '+' {
            s.drop_first()
        } else {
            s
        }),
        0 <= k <= d.len(),
        digits_only(d.take(k)),
        digits_val(d.take(k)) > u128::MAX,
    ensures
        spec_parse_u128(s) is None,
{
    if digits_only(d) {
        lemma_digits_val_take_le(d, k);
    }
}

/// Parses a decimal string exactly as `str::parse::<usize>` does.
pub fn parse_usize(s: &str) -> (r: Option<usize>)
    ensures
        r == spec_parse_usize(s@),
{
    match parse_u128(s) {
        Some(v) => {
            if v <= usize::MAX as u128 {
                Some(v as usize)
            } else {
                None
            }
        },
        None => None,
    }
}

/// Parses a decimal string exactly as `str::parse::<u16>` does.
pub fn parse_u16(s: &str) -> (r: Option<u16>)
    ensures
        r == spec_parse_u16(s@),
{
    match parse_u128(s) {
        Some(v) => {
            if v <= u16::MAX as u128 {
                Some(v as u16)
            } else {
                None
            }
        },
        None => None,
    }
}

} // verus!
