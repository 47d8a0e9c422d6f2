use vstd::prelude::*;
use crate::datecode::{all_digits, decimal_value, is_digit, DateCode};
use crate::listing::{capture_suffix, capture_suffix_bytes};
use crate::resolver::{capture_ending, file_kind_of, output_ending, FileKind};
use crate::text::{append_bytes, matches_at};

verus! {

/// The eight digits that spell a number below a hundred million.
pub open spec fn digits_of(n: nat) -> Seq<u8> {
    let q1 = n / 10;
    let q2 = q1 / 10;
    let q3 = q2 / 10;
    let q4 = q3 / 10;
    let q5 = q4 / 10;
    let q6 = q5 / 10;
    let q7 = q6 / 10;
    seq![
        (48 + q7 % 10) as u8,
        (48 + q6 % 10) as u8,
        (48 + q5 % 10) as u8,
        (48 + q4 % 10) as u8,
        (48 + q3 % 10) as u8,
        (48 + q2 % 10) as u8,
        (48 + q1 % 10) as u8,
        (48 + n % 10) as u8,
    ]
}

/// The eight digits of a number spell that number.
pub proof fn lemma_digits_round_trip(n: nat)
    requires
        n <= 99999999,
    ensures
        digits_of(n).len() == 8,
        all_digits(digits_of(n)),
        decimal_value(digits_of(n)) == n,
{
    let s = digits_of(n);
    let q1 = n / 10;
    let q2 = q1 / 10;
    let q3 = q2 / 10;
    let q4 = q3 / 10;
    let q5 = q4 / 10;
    let q6 = q5 / 10;
    let q7 = q6 / 10;
    reveal_with_fuel(decimal_value, 10);
    let s7 = s.drop_last();
    let s6 = s7.drop_last();
    let s5 = s6.drop_last();
    let s4 = s5.drop_last();
    let s3 = s4.drop_last();
    let s2 = s3.drop_last();
    let s1 = s2.drop_last();
    assert(s7.last() == s[6] && s6.last() == s[5] && s5.last() == s[4] && s4.last() == s[3]);
    assert(s3.last() == s[2] && s2.last() == s[1] && s1.last() == s[0]);
    assert(s1.drop_last().len() == 0);
    assert(q7 < 10);
    assert(decimal_value(s1) == q7);
    assert(decimal_value(s2) == q6);
    assert(decimal_value(s3) == q5);
    assert(decimal_value(s4) == q4);
    assert(decimal_value(s5) == q3);
    assert(decimal_value(s6) == q2);
    assert(decimal_value(s7) == q1);
}

/// The name of the cached capture of a listed date code: the code and
/// `.vbus`.
pub open spec fn capture_name(code: Seq<u8>) -> Seq<u8> {
    code + capture_ending()
}

/// The name of the table of a day: the day's eight digits and `.csv`.
pub open spec fn output_name(day: DateCode) -> Seq<u8> {
    digits_of(day.number()) + output_ending()
}

/// The path of a capture on the logger: `/log/`, the code and
/// `_packets.vbus`.
pub open spec fn remote_path(code: Seq<u8>) -> Seq<u8> {
    seq![47u8, 108u8, 111u8, 103u8, 47u8] + code + capture_suffix()
}

/// Writes a date as eight digits, year first.
pub fn datecode_digits(day: DateCode) -> (r: Vec<u8>)
    requires
        day.valid(),
    ensures
        r@ == digits_of(day.number()),
        r@.len() == 8,
        all_digits(r@),
        decimal_value(r@) == day.number(),
{
    let n: u32 = day.to_number();
    proof {
        lemma_digits_round_trip(n as nat);
    }
    let q1: u32 = n / 10;
    let q2: u32 = q1 / 10;
    let q3: u32 = q2 / 10;
    let q4: u32 = q3 / 10;
    let q5: u32 = q4 / 10;
    let q6: u32 = q5 / 10;
    let q7: u32 = q6 / 10;
    let r = vec![
        (48 + q7 % 10) as u8,
        (48 + q6 % 10) as u8,
        (48 + q5 % 10) as u8,
        (48 + q4 % 10) as u8,
        (48 + q3 % 10) as u8,
        (48 + q2 % 10) as u8,
        (48 + q1 % 10) as u8,
        (48 + n % 10) as u8,
    ];
    assert(r@ =~= digits_of(n as nat));
    r
}

/// Names the cached capture of a listed date code.
pub fn capture_file_name(code: &[u8]) -> (r: Vec<u8>)
    ensures
        r@ == capture_name(code@),
        code@.len() == 8 && all_digits(code@) ==> file_kind_of(r@) == FileKind::Capture,
{
    let mut out: Vec<u8> = Vec::new();
    append_bytes(&mut out, code);
    let ending = vec![46u8, 118u8, 98u8, 117u8, 115u8];
    assert(ending@ =~= capture_ending());
    append_bytes(&mut out, ending.as_slice());
    proof {
        if code@.len() == 8 && all_digits(code@) {
            assert(out@.take(8) =~= code@);
            assert(out@.subrange(8, 13) =~= capture_ending());
        }
    }
    out
}

/// Names the table of a day.
pub fn output_file_name(day: DateCode) -> (r: Vec<u8>)
    requires
        day.valid(),
    ensures
        r@ == output_name(day),
        file_kind_of(r@) == FileKind::Output,
{
    let mut out: Vec<u8> = datecode_digits(day);
    let ghost digits = out@;
    let ending = vec![46u8, 99u8, 115u8, 118u8];
    assert(ending@ =~= output_ending());
    append_bytes(&mut out, ending.as_slice());
    proof {
        assert(out@.take(8) =~= digits);
        assert(out@.subrange(8, 12) =~= output_ending());
        assert(out@.len() == 12);
        assert(!matches_at(out@, 8, capture_ending()) || out@.len() != 13);
    }
    out
}

/// Gives the path under which the logger serves the capture of a listed
/// date code.
pub fn capture_url_path(code: &[u8]) -> (r: Vec<u8>)
    ensures
        r@ == remote_path(code@),
{
    let mut out: Vec<u8> = vec![47u8, 108u8, 111u8, 103u8, 47u8];
    let ghost head = out@;
    append_bytes(&mut out, code);
    let suffix = capture_suffix_bytes();
    append_bytes(&mut out, suffix.as_slice());
    assert(out@ =~= remote_path(code@));
    out
}

} // verus!
