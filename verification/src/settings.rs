//! The build-time limits of a save: how many miners and furnaces the
//! bootstrap routines aim for. A limit is given as decimal text, or left
//! unset for its default.

use vstd::prelude::*;
use vstd::string::StringSliceAdditionalSpecFns;

verus! {

/// Number of miners per ore field when no limit is given.
pub const DEFAULT_MAX_MINER: u32 = 20;

/// Number of iron furnaces when no limit is given.
pub const DEFAULT_MAX_FURNACE: usize = 10;

/// The byte is an ASCII decimal digit.
pub open spec fn is_digit(b: u8) -> bool {
    48 <= b <= 57
}

/// The value of a string of decimal digits, most significant first.
pub open spec fn digits_value(s: Seq<u8>) -> nat
    decreases s.len(),
{
    if s.len() == 0 {
        0
    } else {
        digits_value(s.drop_last()) * 10 + (s.last() - 48) as nat
    }
}

/// The digits of an unsigned decimal number: the text without its optional
/// leading `+`.
pub open spec fn unsigned_digits(s: Seq<u8>) -> Seq<u8> {
    if s.len() > 0 && s[0] == 43 {
        s.skip(1)
    } else {
        s
    }
}

/// The number that the text spells, as an unsigned decimal integer at most
/// `limit`: an optional `+`, then one or more decimal digits and nothing else.
pub open spec fn decimal_value(s: Seq<u8>, limit: nat) -> Option<nat> {
    let d = unsigned_digits(s);
    if d.len() > 0 && (forall|i: int| 0 <= i < d.len() ==> is_digit(#[trigger] d[i])) && digits_value(
        d,
    ) <= limit {
        Some(digits_value(d))
    } else {
        None
    }
}

proof fn lemma_digits_value_take_step(s: Seq<u8>, k: int)
    requires
        0 <= k < s.len(),
    ensures
        digits_value(s.take(k + 1)) == digits_value(s.take(k)) * 10 + (s[k] - 48) as nat,
{
    assert(s.take(k + 1).drop_last() =~= s.take(k));
}

/// A longer prefix of digits never spells a smaller number.
proof fn lemma_digits_value_monotone(s: Seq<u8>, j: int, k: int)
    requires
        0 <= j <= k <= s.len(),
        forall|i: int| 0 <= i < s.len() ==> is_digit(#[trigger] s[i]),
    ensures
        digits_value(s.take(j)) <= digits_value(s.take(k)),
    decreases k - j,
{
    if j < k {
        lemma_digits_value_monotone(s, j, k - 1);
        lemma_digits_value_take_step(s, k - 1);
    }
}

/// Reads an unsigned decimal number of at most `limit` from `text`, as the
/// standard library reads an unsigned integer whose largest value is `limit`.
/// Gives `None` where the text is not such a number.
pub fn parse_decimal(text: &str, limit: u64) -> (r: Option<u64>)
    ensures
        r matches Some(v) ==> decimal_value(text.spec_bytes(), limit as nat) == Some(v as nat),
        r is None ==> decimal_value(text.spec_bytes(), limit as nat) is None,
{
    let bytes: &[u8] = text.as_bytes();
    let ghost s: Seq<u8> = bytes@;
    let ghost d: Seq<u8> = unsigned_digits(s);
    let start: usize = if bytes.len() > 0 && bytes[0] == 43 {
        1
    } else {
        0
    };
    assert(d =~= s.skip(start as int));
    if start >= bytes.len() {
        return None;
    }
    let mut value: u64 = 0;
    let mut i: usize = start;
    while i < bytes.len()
        invariant
            s == bytes@,
            s == text.spec_bytes(),
            d == unsigned_digits(s),
            d == s.skip(start as int),
            start < bytes.len(),
            start <= i <= bytes.len(),
            value <= limit,
            value == digits_value(d.take(i - start)),
            forall|j: int| 0 <= j < i - start ==> is_digit(#[trigger] d[j]),
        decreases bytes.len() - i,
    {
        let b: u8 = bytes[i];
        if b < 48 || b > 57 {
            assert(!is_digit(d[i - start]));
            return None;
        }
        let digit: u64 = (b - 48) as u64;
        proof {
            lemma_digits_value_take_step(d, i - start);
        }
        if digit > limit || value > (limit - digit) / 10 {
            proof {
                assert(digits_value(d.take(i - start + 1)) > limit) by (nonlinear_arith)
                    requires
                        digits_value(d.take(i - start + 1)) == value * 10 + digit,
                        digit > limit || value > (limit - digit) / 10,
                        digit <= 9,
                        value >= 0,
                ;
                if forall|j: int| 0 <= j < d.len() ==> is_digit(#[trigger] d[j]) {
                    lemma_digits_value_monotone(d, i - start + 1, d.len() as int);
                    assert(d.take(d.len() as int) =~= d);
                }
            }
            return None;
        }
        assert(value * 10 + digit <= limit) by (nonlinear_arith)
            requires
                value <= (limit - digit) / 10,
                digit <= limit,
        ;
        value = value * 10 + digit;
        i = i + 1;
    }
    assert(d.take(d.len() as int) =~= d);
    Some(value)
}

/// The miner limit: the default where no limit is given, the number the text
/// spells where it is a valid `u32`, and `None` otherwise.
pub fn max_miner_setting(text: Option<&str>) -> (r: Option<u32>)
    ensures
        text is None ==> r == Some(DEFAULT_MAX_MINER),
        text matches Some(t) ==> (r matches Some(v) ==> decimal_value(
            t.spec_bytes(),
            u32::MAX as nat,
        ) == Some(v as nat)),
        text matches Some(t) ==> (r is None <==> decimal_value(t.spec_bytes(), u32::MAX as nat) is None),
{
    match text {
        None => Some(DEFAULT_MAX_MINER),
        Some(t) => match parse_decimal(t, u32::MAX as u64) {
            Some(v) => Some(v as u32),
            None => None,
        },
    }
}

/// The furnace limit: the default where no limit is given, the number the
/// text spells where it is a valid `usize`, and `None` otherwise.
pub fn max_furnace_setting(text: Option<&str>) -> (r: Option<usize>)
    ensures
        text is None ==> r == Some(DEFAULT_MAX_FURNACE),
        text matches Some(t) ==> (r matches Some(v) ==> decimal_value(
            t.spec_bytes(),
            usize::MAX as nat,
        ) == Some(v as nat)),
        text matches Some(t) ==> (r is None <==> decimal_value(t.spec_bytes(), usize::MAX as nat) is None),
{
    match text {
        None => Some(DEFAULT_MAX_FURNACE),
        Some(t) => match parse_decimal(t, usize::MAX as u64) {
            Some(v) => Some(v as usize),
            None => None,
        },
    }
}

/// Law: a single decimal digit reads as its value, and a leading `+` before
/// the digits changes nothing.
pub proof fn lemma_decimal_single_digit(d: u8, limit: nat)
    requires
        48 <= d <= 57,
    ensures
        (d - 48) as nat <= limit ==> decimal_value(seq![d], limit) == Some((d - 48) as nat),
        (d - 48) as nat > limit ==> decimal_value(seq![d], limit) is None,
        decimal_value(seq![43u8, d], limit) == decimal_value(seq![d], limit),
{
    let s = seq![d];
    assert(s.drop_last() =~= Seq::<u8>::empty());
    assert(digits_value(s.drop_last()) == 0);
    assert(digits_value(s) == (d - 48) as nat);
    assert(unsigned_digits(s) == s);
    assert(forall|i: int| 0 <= i < s.len() ==> is_digit(#[trigger] s[i]));
    assert(seq![43u8, d].skip(1) =~= s);
}

/// Law: appending a decimal digit to a number multiplies it by ten and adds
/// the digit, within the limit; past the limit, or after any byte that is not
/// a digit, there is no number.
pub proof fn lemma_decimal_append_digit(s: Seq<u8>, d: u8, limit: nat)
    requires
        s.len() > 0,
        s[0] != 43,
    ensures
        48 <= d <= 57 ==> (decimal_value(s, limit) matches Some(v) ==> (v * 10 + (d - 48) <= limit
            ==> decimal_value(s.push(d), limit) == Some(v * 10 + (d - 48) as nat))),
        !(48 <= d <= 57) ==> decimal_value(s.push(d), limit) is None,
        decimal_value(s, limit) is None ==> decimal_value(s.push(d), limit) is None,
{
    let t = s.push(d);
    assert(t.drop_last() =~= s);
    assert(unsigned_digits(t) == t);
    assert(unsigned_digits(s) == s);
    if !(48 <= d <= 57) {
        assert(!is_digit(t[t.len() - 1]));
    }
    if decimal_value(s, limit) is None {
        if forall|i: int| 0 <= i < s.len() ==> is_digit(#[trigger] s[i]) {
            assert(digits_value(s) > limit);
            assert(digits_value(t) >= digits_value(s) * 10);
        } else {
            let i = choose|i: int| 0 <= i < s.len() && !is_digit(#[trigger] s[i]);
            assert(!is_digit(t[i]));
        }
    }
}

} // verus!
