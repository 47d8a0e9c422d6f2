use vstd::prelude::*;
use crate::error::Error;

verus! {

/// Whether a byte is an ASCII decimal digit.
pub open spec fn is_digit(b: u8) -> bool {
    48 <= b && b <= 57
}

/// Whether every byte of a text is an ASCII decimal digit.
pub open spec fn all_digits(s: Seq<u8>) -> bool {
    forall|i: int| 0 <= i < s.len() ==> is_digit(#[trigger] s[i])
}

/// The number that a text of decimal digits denotes.
pub open spec fn decimal_value(s: Seq<u8>) -> nat
    decreases s.len(),
{
    if s.len() == 0 {
        0
    } else {
        decimal_value(s.drop_last()) * 10 + (s.last() - 48) as nat
    }
}

/// A longer text of digits never denotes less than one of its prefixes.
pub proof fn lemma_decimal_prefix(s: Seq<u8>, n: int)
    requires
        all_digits(s),
        0 <= n <= s.len(),
    ensures
        decimal_value(s.take(n)) <= decimal_value(s),
    decreases s.len() - n,
{
    if n == s.len() {
        assert(s.take(n) =~= s);
    } else {
        lemma_decimal_prefix(s, n + 1);
        assert(s.take(n + 1).drop_last() =~= s.take(n));
        assert(is_digit(s[n]));
        assert(s.take(n + 1).last() == s[n]);
    }
}

/// Reads a non-empty run of decimal digits as a number. The result is `Some`
/// exactly for a non-empty text of digits whose value fits in 64 bits.
pub fn parse_decimal(text: &[u8]) -> (r: Option<u64>)
    ensures
        r.is_some() <==> (text@.len() > 0 && all_digits(text@) && decimal_value(text@)
            <= u64::MAX),
        r.is_some() ==> r.unwrap() == decimal_value(text@),
{
    if text.len() == 0 {
        return None;
    }
    let mut acc: u64 = 0;
    let mut i: usize = 0;
    while i < text.len()
        invariant
            0 <= i <= text@.len(),
            all_digits(text@.take(i as int)),
            acc == decimal_value(text@.take(i as int)),
        decreases text@.len() - i,
    {
        let b: u8 = text[i];
        if b < 48 || b > 57 {
            assert(!is_digit(text@[i as int]));
            return None;
        }
        let d: u64 = (b - 48) as u64;
        proof {
            assert(text@.take(i + 1).drop_last() =~= text@.take(i as int));
            assert(text@.take(i + 1).last() == b);
            assert forall|k: int| 0 <= k < i + 1 implies is_digit(
                #[trigger] text@.take(i + 1)[k],
            ) by {
                if k < i {
                    assert(text@.take(i as int)[k] == text@[k]);
                }
            }
        }
        if acc > (u64::MAX - d) / 10 {
            proof {
                if all_digits(text@) {
                    lemma_decimal_prefix(text@, i + 1);
                }
            }
            return None;
        }
        acc = acc * 10 + d;
        i = i + 1;
    }
    proof {
        assert(text@.take(i as int) =~= text@);
    }
    Some(acc)
}

/// Whether a year is a leap year of the Gregorian calendar.
pub open spec fn is_leap_year(year: int) -> bool {
    year % 4 == 0 && (year % 100 != 0 || year % 400 == 0)
}

/// The number of days of a month.
pub open spec fn days_in_month(year: int, month: int) -> int {
    if month == 2 {
        if is_leap_year(year) {
            29
        } else {
            28
        }
    } else if month == 4 || month == 6 || month == 9 || month == 11 {
        30
    } else {
        31
    }
}

/// A calendar date that names one capture or one output table.
#[derive(Clone, Copy, Debug, PartialEq, Eq, Structural)]
pub struct DateCode {
    pub year: u32,
    pub month: u32,
    pub day: u32,
}

/// The date whose eight digits, read as one number, give `n`.
pub open spec fn date_of_number(n: nat) -> DateCode {
    DateCode {
        year: (n / 10000) as u32,
        month: ((n / 100) % 100) as u32,
        day: (n % 100) as u32,
    }
}

/// Whether `n`, written with eight digits, is a date of the calendar.
pub open spec fn number_is_date(n: nat) -> bool {
    n <= 99991231 && date_of_number(n).valid()
}

impl DateCode {
    /// A date of the calendar with a year of at most four digits.
    pub open spec fn valid(self) -> bool {
        &&& self.year <= 9999
        &&& 1 <= self.month <= 12
        &&& 1 <= self.day <= days_in_month(self.year as int, self.month as int)
    }

    /// The date as the number that its eight digits spell.
    pub open spec fn number(self) -> nat {
        (self.year * 10000 + self.month * 100 + self.day) as nat
    }

    /// Checks year, month and day against the calendar.
    pub fn new(year: u32, month: u32, day: u32) -> (r: Result<DateCode, Error>)
        ensures
            r.is_ok() <==> (DateCode { year, month, day }).valid(),
            r.is_ok() ==> r.unwrap() == (DateCode { year, month, day }),
            r.is_err() ==> r.unwrap_err() == Error::Parse,
    {
        if year > 9999 || month < 1 || month > 12 || day < 1 {
            return Err(Error::Parse);
        }
        let leap: bool = year % 4 == 0 && (year % 100 != 0 || year % 400 == 0);
        let limit: u32 = if month == 2 {
            if leap {
                29
            } else {
                28
            }
        } else if month == 4 || month == 6 || month == 9 || month == 11 {
            30
        } else {
            31
        };
        if day > limit {
            return Err(Error::Parse);
        }
        Ok(DateCode { year, month, day })
    }

    /// Splits an eight-digit number into year, month and day.
    pub fn from_number(n: u32) -> (r: Result<DateCode, Error>)
        ensures
            r.is_ok() <==> number_is_date(n as nat),
            r.is_ok() ==> r.unwrap() == date_of_number(n as nat),
            r.is_err() ==> r.unwrap_err() == Error::Parse,
    {
        if n > 99991231 {
            return Err(Error::Parse);
        }
        DateCode::new(n / 10000, (n / 100) % 100, n % 100)
    }

    /// The eight-digit number of a date.
    pub fn to_number(&self) -> (r: u32)
        requires
            self.valid(),
        ensures
            r == self.number(),
            number_is_date(r as nat),
            date_of_number(r as nat) == *self,
    {
        self.year * 10000 + self.month * 100 + self.day
    }
}

/// Reads a date code: exactly eight decimal digits that spell a date of the
/// calendar, year first, with no separators.
pub fn parse_datecode(text: &[u8]) -> (r: Result<DateCode, Error>)
    ensures
        r.is_ok() <==> (text@.len() == 8 && all_digits(text@) && number_is_date(
            decimal_value(text@),
        )),
        r.is_ok() ==> r.unwrap() == date_of_number(decimal_value(text@)),
        r.is_err() ==> r.unwrap_err() == Error::Parse,
{
    if text.len() != 8 {
        return Err(Error::Parse);
    }
    match parse_decimal(text) {
        None => {
            proof {
                lemma_eight_digits_bound(text@);
            }
            Err(Error::Parse)
        },
        Some(v) => {
            if v > 99991231 {
                Err(Error::Parse)
            } else {
                DateCode::from_number(v as u32)
            }
        },
    }
}

/// Eight digits never spell a number of more than eight digits.
pub proof fn lemma_eight_digits_bound(s: Seq<u8>)
    requires
        s.len() == 8,
    ensures
        all_digits(s) ==> decimal_value(s) <= 99999999,
{
    if all_digits(s) {
        reveal_with_fuel(decimal_value, 10);
        let s7 = s.drop_last();
        let s6 = s7.drop_last();
        let s5 = s6.drop_last();
        let s4 = s5.drop_last();
        let s3 = s4.drop_last();
        let s2 = s3.drop_last();
        let s1 = s2.drop_last();
        assert(is_digit(s[7]) && is_digit(s[6]) && is_digit(s[5]) && is_digit(s[4]));
        assert(is_digit(s[3]) && is_digit(s[2]) && is_digit(s[1]) && is_digit(s[0]));
        assert(s7.last() == s[6] && s6.last() == s[5] && s5.last() == s[4] && s4.last() == s[3]);
        assert(s3.last() == s[2] && s2.last() == s[1] && s1.last() == s[0]);
        assert(s1.drop_last().len() == 0);
    }
}

} // verus!
