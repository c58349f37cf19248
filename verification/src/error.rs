//! What can go wrong.

use vstd::prelude::*;
use vstd::string::StringExecFns;

verus! {

/// The integers of the language.
pub type Int = i64;

/// The errors of this library.
#[derive(Debug)]
pub enum Error {
    /// The first column of a join is below 1, or the last one is; the first column
    /// is given.
    JoinColumn(Int),
    /// A field with a negative number was asked for, or assigned to.
    NegativeField(Int),
    /// Reading failed, for the reason given.
    Read(String),
    /// The input is not UTF-8: the number of valid bytes in front of the fault, and
    /// the length of the invalid sequence there, which is not known where the input
    /// ends inside a character.
    InvalidUtf8(usize, Option<u8>),
    /// A line could not be split by a pattern, for the reason given.
    Split(String),
}

/// `n` in decimal digits.
pub open spec fn digits(n: nat) -> Seq<char>
    decreases n,
{
    let last = seq![(48 + n % 10) as char];
    if n < 10 {
        last
    } else {
        digits(n / 10) + last
    }
}

/// `n` in decimal digits, behind a minus sign if it is negative.
pub open spec fn decimal(n: int) -> Seq<char> {
    if n < 0 {
        seq!['-'] + digits((-n) as nat)
    } else {
        digits(n as nat)
    }
}

/// The string for one digit.
fn digit(n: u64) -> (r: &'static str)
    requires
        n < 10,
    ensures
        r@ == seq![(48 + n) as char],
{
    proof {
        reveal_strlit("0");
        reveal_strlit("1");
        reveal_strlit("2");
        reveal_strlit("3");
        reveal_strlit("4");
        reveal_strlit("5");
        reveal_strlit("6");
        reveal_strlit("7");
        reveal_strlit("8");
        reveal_strlit("9");
    }
    let r = match n {
        0 => "0",
        1 => "1",
        2 => "2",
        3 => "3",
        4 => "4",
        5 => "5",
        6 => "6",
        7 => "7",
        8 => "8",
        _ => "9",
    };
    assert(r@ =~= seq![(48 + n) as char]);
    r
}

/// Appends `n` in decimal digits.
fn append_digits(text: &mut String, n: u64)
    ensures
        final(text)@ == old(text)@ + digits(n as nat),
    decreases n,
{
    let ghost before = text@;
    if n >= 10 {
        append_digits(text, n / 10);
    }
    text.append(digit(n % 10));
    assert(text@ =~= before + digits(n as nat));
}

/// Appends `n` in decimal digits, behind a minus sign if it is negative.
fn append_decimal(text: &mut String, n: Int)
    ensures
        final(text)@ == old(text)@ + decimal(n as int),
{
    if n < 0 {
        let ghost before = text@;
        proof {
            reveal_strlit("-");
            assert("-"@ =~= seq!['-']);
        }
        text.append("-");
        append_digits(text, (-(n + 1)) as u64 + 1);
        assert(text@ =~= before + decimal(n as int));
    } else {
        append_digits(text, n as u64);
    }
}

impl Error {
    /// The error in words.
    pub open spec fn words(self) -> Seq<char> {
        match self {
            Error::JoinColumn(start) => {
                "smallest joinable column is 1, got "@ + decimal(start as int)
            },
            Error::NegativeField(col) => {
                "attempt to access field "@ + decimal(col as int)
                    + "; field must be nonnegative"@
            },
            Error::Read(why) => "read error "@ + why@,
            Error::InvalidUtf8(at, Some(len)) => {
                "invalid utf8: invalid utf-8 sequence of "@ + digits(len as nat)
                    + " bytes from index "@ + digits(at as nat)
            },
            Error::InvalidUtf8(at, None) => {
                "invalid utf8: incomplete utf-8 byte sequence from index "@ + digits(at as nat)
            },
            Error::Split(why) => why@,
        }
    }

    /// The error in words.
    pub fn message(&self) -> (r: String)
        ensures
            r@ == self.words(),
    {
        let mut text = String::new();
        match self {
            Error::JoinColumn(start) => {
                text.append("smallest joinable column is 1, got ");
                append_decimal(&mut text, *start);
            },
            Error::NegativeField(col) => {
                text.append("attempt to access field ");
                append_decimal(&mut text, *col);
                text.append("; field must be nonnegative");
            },
            Error::Read(why) => {
                text.append("read error ");
                text.append(why.as_str());
            },
            Error::InvalidUtf8(at, Some(len)) => {
                text.append("invalid utf8: invalid utf-8 sequence of ");
                append_digits(&mut text, *len as u64);
                text.append(" bytes from index ");
                append_digits(&mut text, *at as u64);
            },
            Error::InvalidUtf8(at, None) => {
                text.append("invalid utf8: incomplete utf-8 byte sequence from index ");
                append_digits(&mut text, *at as u64);
            },
            Error::Split(why) => {
                text.append(why.as_str());
            },
        }
        assert(text@ =~= self.words());
        text
    }
}

} // verus!
