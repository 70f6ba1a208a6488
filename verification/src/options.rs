use vstd::prelude::*;

use vstd::string::StrSliceExecFns;

verus! {

/// The two parameters of a search: pegs per code, and colours per peg.
#[derive(Debug)]
pub struct Options {
    pub code_length: usize,
    pub code_base: usize,
}

/// Whether `c` is a decimal digit.
pub open spec fn is_digit(c: char) -> bool {
    '0' <= c && c <= '9'
}

/// The numeric value a digit contributes; anything else counts nothing.
pub open spec fn digit_val(c: char) -> nat {
    if is_digit(c) {
        (c as int - '0' as int) as nat
    } else {
        0
    }
}

/// The number a sequence of digits denotes in decimal.
pub open spec fn decimal_value(s: Seq<char>) -> nat
    decreases s.len(),
{
    if s.len() == 0 {
        0
    } else {
        decimal_value(s.drop_last()) * 10 + digit_val(s.last())
    }
}

/// How the command line must spell a positive parameter: one or more
/// decimal digits denoting a value between 1 and `u32::MAX`.
pub open spec fn is_positive_u32_decimal(s: Seq<char>) -> bool {
    &&& s.len() >= 1
    &&& (forall|i: int| 0 <= i < s.len() ==> is_digit(#[trigger] s[i]))
    &&& 1 <= decimal_value(s) <= u32::MAX
}

/// Reading more digits never lowers the value.
proof fn lemma_decimal_value_take_le(s: Seq<char>, j: int)
    requires
        0 <= j <= s.len(),
    ensures
        decimal_value(s.take(j)) <= decimal_value(s),
    decreases s.len() - j,
{
    if j < s.len() {
        lemma_decimal_value_take_le(s, j + 1);
        assert(s.take(j + 1).drop_last() =~= s.take(j));
        assert(decimal_value(s.take(j + 1)) == decimal_value(s.take(j)) * 10 + digit_val(
            s.take(j + 1).last(),
        ));
    } else {
        assert(s.take(j) =~= s);
    }
}

/// Reads a decimal numeral as a positive 32-bit integer: `None` when the
/// text is empty, holds anything but digits, spells zero, or does not fit.
pub fn parse_positive_int(value: &str) -> (r: Option<u32>)
    ensures
        match r {
            Option::Some(v) => is_positive_u32_decimal(value@) && v == decimal_value(value@),
            Option::None => !is_positive_u32_decimal(value@),
        },
{
    let n = value.unicode_len();
    if n == 0 {
        return Option::None;
    }
    let mut acc: u32 = 0;
    for i in 0..n
        invariant
            n == value@.len(),
            forall|k: int| 0 <= k < i ==> is_digit(#[trigger] value@[k]),
            acc == decimal_value(value@.take(i as int)),
    {
        let c = value.get_char(i);
        if c < '0' || c > '9' {
            // a stray character spoils the numeral
            return Option::None;
        }
        let d: u32 = (c as u32) - ('0' as u32);
        proof {
            assert(value@.take(i + 1).drop_last() =~= value@.take(i as int));
            assert(value@.take(i + 1).last() == value@[i as int]);
            assert(digit_val(value@[i as int]) == d);
        }
        if acc > (u32::MAX - d) / 10 {
            // the numeral has outgrown 32 bits and can only keep growing
            proof {
                assert(decimal_value(value@.take(i + 1)) > u32::MAX);
                lemma_decimal_value_take_le(value@, i + 1);
            }
            return Option::None;
        }
        acc = acc * 10 + d;
    }
    proof {
        assert(value@.take(n as int) =~= value@);
    }
    if acc == 0 {
        // zero is not a positive integer
        return Option::None;
    }
    Option::Some(acc)
}

/// Accepts exactly the texts that spell a positive 32-bit integer; anything
/// else earns the validation message.
pub fn validate_positive_int(value: String) -> (r: Result<(), String>)
    ensures
        r is Ok <==> is_positive_u32_decimal(value@),
        r matches Err(e) ==> e@ == "must be a positive integer"@,
{
    match parse_positive_int(value.as_str()) {
        Option::Some(_) => Result::Ok(()),
        Option::None => Result::Err("must be a positive integer".to_owned()),
    }
}

} // verus!
