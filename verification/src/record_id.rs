use vstd::prelude::*;

verus! {

use crate::text::string_push;

/// The unique, immutable identifier of one model instance within its table.
///
/// Identifiers are assigned when the model value is created and never change.
/// They are plain 128-bit values, so they are totally ordered and cheap to
/// compare; callers that want time-ordered generation can feed in any
/// time-ordered 128-bit value.
#[derive(Clone, Copy, PartialEq, Eq, Hash, Debug, Structural)]
pub struct RecordId {
    value: u128,
}

impl View for RecordId {
    type V = u128;

    closed spec fn view(&self) -> u128 {
        self.value
    }
}

/// The character for one decimal digit.
pub open spec fn digit_char(d: int) -> char
    recommends
        0 <= d < 10,
{
    ((d + 0x30) as u8) as char
}

/// The decimal text of a number: digits most significant first, no sign,
/// no leading zero (except for the number zero itself).
pub open spec fn decimal_of(n: int) -> Seq<char>
    recommends
        n >= 0,
    decreases n,
{
    if n < 10 {
        seq![digit_char(n)]
    } else {
        decimal_of(n / 10).push(digit_char(n % 10))
    }
}

impl RecordId {
    /// Wrap a 128-bit value as a record identifier.
    pub fn new(value: u128) -> (r: Self)
        ensures
            r@ == value,
    {
        RecordId { value }
    }

    /// The identifier's numeric value.
    pub fn value(&self) -> (r: u128)
        ensures
            r == self@,
    {
        self.value
    }

    /// The identifier's decimal text form, used in error messages.
    pub fn to_text(&self) -> (r: String)
        ensures
            r@ == decimal_of(self@ as int),
    {
        decimal_string(self.value)
    }
}

/// The decimal text of a 128-bit number.
pub fn decimal_string(value: u128) -> (r: String)
    ensures
        r@ == decimal_of(value as int),
{
    let mut digits: Vec<char> = Vec::new();
    let mut n: u128 = value;
        loop
            invariant_except_break
                decimal_of(value as int) == decimal_of(n as int) + digits@,
            ensures
                decimal_of(value as int) == digits@,
            decreases n,
        {
            let d: u8 = (n % 10) as u8;
            let c: char = (d + 0x30) as char;
            proof {
                assert(c == digit_char(n as int % 10));
                if n >= 10 {
                    assert(decimal_of(n as int) == decimal_of(n as int / 10).push(
                        digit_char(n as int % 10),
                    ));
                    assert(decimal_of(n as int / 10).push(c) + digits@ == decimal_of(
                        n as int / 10,
                    ) + (seq![c] + digits@));
                } else {
                    assert(decimal_of(n as int) == seq![digit_char(n as int)]);
                    assert(seq![c] + digits@ == decimal_of(n as int) + digits@);
                }
            }
            digits.insert(0, c);
            n = n / 10;
            if n == 0 {
                break;
            }
        }
        let mut out = String::new();
        let mut i: usize = 0;
        while i < digits.len()
            invariant
                0 <= i <= digits@.len(),
                out@ == digits@.subrange(0, i as int),
            decreases digits@.len() - i,
        {
            string_push(&mut out, digits[i]);
            proof {
                assert(digits@.subrange(0, i as int + 1) =~= digits@.subrange(0, i as int).push(
                    digits@[i as int],
                ));
            }
            i = i + 1;
        }
    proof {
        assert(digits@.subrange(0, digits@.len() as int) =~= digits@);
    }
    out
}

} // verus!
