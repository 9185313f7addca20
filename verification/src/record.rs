//! The release record: one discovered tool release, with its build
//! identifier, a range-validated calendar date, and its download address.
use vstd::prelude::*;

verus! {

/// Mathematical model of a release record.
pub struct RecordModel {
    pub version: Seq<char>,
    pub year: int,
    pub month: int,
    pub day: int,
    pub url: Seq<char>,
}

/// One discovered release: build identifier, calendar date, download address.
#[derive(Debug, PartialEq, Eq)]
pub struct ReleaseRecord {
    pub version: String,
    pub year: u16,
    pub month: u8,
    pub day: u8,
    pub url: String,
}

impl View for ReleaseRecord {
    type V = RecordModel;

    open spec fn view(&self) -> RecordModel {
        RecordModel {
            version: self.version@,
            year: self.year as int,
            month: self.month as int,
            day: self.day as int,
            url: self.url@,
        }
    }
}

/// The models of a sequence of records.
pub open spec fn recs_view(v: Seq<ReleaseRecord>) -> Seq<RecordModel> {
    Seq::new(v.len(), |k: int| v[k]@)
}

/// Record invariant: all three fields present and individually valid.
/// The year has at most four digits, month and day are range-checked.
pub open spec fn wf_record(r: RecordModel) -> bool {
    &&& r.version.len() > 0
    &&& 0 <= r.year <= 9999
    &&& 1 <= r.month <= 12
    &&& 1 <= r.day <= 31
    &&& r.url.len() > 0
}

/// The decimal digit character for `d` in 0..=9.
pub open spec fn digit_char(d: int) -> char {
    if d == 0 {
        '0'
    } else if d == 1 {
        '1'
    } else if d == 2 {
        '2'
    } else if d == 3 {
        '3'
    } else if d == 4 {
        '4'
    } else if d == 5 {
        '5'
    } else if d == 6 {
        '6'
    } else if d == 7 {
        '7'
    } else if d == 8 {
        '8'
    } else {
        '9'
    }
}

/// Two-digit zero-padded decimal rendering of `n` in 0..=99.
pub open spec fn two_digits(n: int) -> Seq<char> {
    seq![digit_char(n / 10), digit_char(n % 10)]
}

/// Four-digit zero-padded decimal rendering of `y` in 0..=9999.
pub open spec fn four_digits(y: int) -> Seq<char> {
    seq![
        digit_char(y / 1000 % 10),
        digit_char(y / 100 % 10),
        digit_char(y / 10 % 10),
        digit_char(y % 10),
    ]
}

/// ISO-8601 rendering `YYYY-MM-DD` of a record's date.
pub open spec fn date_seq(year: int, month: int, day: int) -> Seq<char> {
    four_digits(year) + "-"@ + two_digits(month) + "-"@ + two_digits(day)
}

/// The one-character string for the digit `d`.
pub fn digit_str(d: u16) -> (r: &'static str)
    requires
        d < 10,
    ensures
        r@ =~= seq![digit_char(d as int)],
{
    proof {
        reveal_strlit("0");
        reveal_strlit("1");
        reveal_strlit("2");
        reveal_strlit("3");
        reveal_strlit("4");
        reveal_strlit("5");
        reveal_strlit("6");
        reveal_strlit("7");
        reveal_strlit("8");
        reveal_strlit("9");
    }
    match d {
        0 => "0",
        1 => "1",
        2 => "2",
        3 => "3",
        4 => "4",
        5 => "5",
        6 => "6",
        7 => "7",
        8 => "8",
        _ => "9",
    }
}

/// Append the two-digit zero-padded rendering of `n`.
pub fn push_two_digits(out: &mut String, n: u8)
    requires
        n < 100,
    ensures
        final (out)@ == old(out)@ + two_digits(n as int),
{
    out.append(digit_str((n / 10) as u16));
    out.append(digit_str((n % 10) as u16));
    proof {
        assert(out@ =~= old(out)@ + two_digits(n as int));
    }
}

/// Append the four-digit zero-padded rendering of `y`.
pub fn push_four_digits(out: &mut String, y: u16)
    requires
        y <= 9999,
    ensures
        final (out)@ == old(out)@ + four_digits(y as int),
{
    out.append(digit_str(y / 1000 % 10));
    out.append(digit_str(y / 100 % 10));
    out.append(digit_str(y / 10 % 10));
    out.append(digit_str(y % 10));
    proof {
        assert(out@ =~= old(out)@ + four_digits(y as int));
    }
}

impl ReleaseRecord {
    /// The record's date as `YYYY-MM-DD`, zero-padded.
    pub fn date_string(&self) -> (r: String)
        requires
            wf_record(self@),
        ensures
            r@ == date_seq(self@.year, self@.month, self@.day),
    {
        let mut out = String::new();
        push_four_digits(&mut out, self.year);
        out.append("-");
        push_two_digits(&mut out, self.month);
        out.append("-");
        push_two_digits(&mut out, self.day);
        proof {
            assert(out@ =~= date_seq(self@.year, self@.month, self@.day));
        }
        out
    }
}

} // verus!
