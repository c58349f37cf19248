//! What holds of the texts of errors.

use crate::error::{decimal, digits, Error, Int};
use vstd::prelude::*;

verus! {

/// The number that is written in decimal digits.
pub open spec fn number(text: Seq<char>) -> int
    decreases text.len(),
{
    if text.len() == 0 {
        0
    } else {
        10 * number(text.drop_last()) + (text.last() as int - '0' as int)
    }
}

/// Digits say the number that they were made of, and are nothing but digits; there is no zero
/// in front of them.
pub proof fn law_digits(n: nat)
    ensures
        number(digits(n)) == n,
        digits(n).len() > 0,
        forall|i: int| 0 <= i < digits(n).len() ==> '0' <= #[trigger] digits(n)[i] <= '9',
        n > 0 ==> digits(n)[0] != '0',
        n < 10 ==> digits(n).len() == 1,
    decreases n,
{
    let last = seq![(48 + n % 10) as char];
    reveal_with_fuel(number, 2);
    if n >= 10 {
        law_digits(n / 10);
        assert(digits(n).drop_last() =~= digits(n / 10));
        assert(digits(n)[0] == digits(n / 10)[0]);
    } else {
        assert(digits(n).drop_last() =~= Seq::<char>::empty());
    }
}

/// A number that is negative is written as its absolute value behind a minus sign, and all
/// others as they are.
pub proof fn law_decimal(n: int)
    ensures
        n >= 0 ==> number(decimal(n)) == n && decimal(n)[0] != '-',
        n < 0 ==> decimal(n)[0] == '-' && number(decimal(n).skip(1)) == -n,
{
    if n < 0 {
        law_digits((-n) as nat);
        assert(decimal(n).skip(1) =~= digits((-n) as nat));
    } else {
        law_digits(n as nat);
    }
}

/// What errors say.
pub proof fn law_messages(n: Int, why: String, at: usize, len: u8)
    ensures
        Error::JoinColumn(n).words() == "smallest joinable column is 1, got "@ + decimal(n as int),
        Error::NegativeField(n).words() == "attempt to access field "@ + decimal(n as int)
            + "; field must be nonnegative"@,
        Error::Read(why).words() == "read error "@ + why@,
        Error::Split(why).words() == why@,
        Error::InvalidUtf8(at, Some(len)).words() == "invalid utf8: invalid utf-8 sequence of "@
            + digits(len as nat) + " bytes from index "@ + digits(at as nat),
        Error::InvalidUtf8(at, None).words()
            == "invalid utf8: incomplete utf-8 byte sequence from index "@ + digits(at as nat),
{
}

} // verus!
