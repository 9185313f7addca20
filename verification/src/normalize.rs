//! The normalizer: parse one version caption into a build identifier and a
//! range-validated date, mapping French month names to calendar numbers.
//!
//! The caption grammar is positional over whitespace tokens:
//! `[prefix, ..., buildId, connector, day, monthName, year]` — at least six
//! tokens, read from the end, so that extra words between the prefix and the
//! build identifier do not shift the date fields.
use crate::errors::DateField;
use crate::errors::PipelineError;
use crate::record::RecordModel;
use crate::record::ReleaseRecord;
use crate::record::wf_record;
use crate::text::is_digit;
use crate::text::is_space;
use crate::views_of;
use vstd::prelude::*;

verus! {

/// Whitespace tokenization, carrying the token collected so far.
pub open spec fn tokens_acc(s: Seq<char>, i: int, cur: Seq<char>) -> Seq<Seq<char>>
    decreases s.len() - i,
{
    if i < 0 || i >= s.len() {
        if cur.len() > 0 {
            seq![cur]
        } else {
            Seq::empty()
        }
    } else if is_space(s[i]) {
        if cur.len() > 0 {
            seq![cur] + tokens_acc(s, i + 1, Seq::empty())
        } else {
            tokens_acc(s, i + 1, Seq::empty())
        }
    } else {
        tokens_acc(s, i + 1, cur.push(s[i]))
    }
}

/// The whitespace-separated tokens of `s`, in order.
pub open spec fn tokens_of(s: Seq<char>) -> Seq<Seq<char>> {
    tokens_acc(s, 0, Seq::empty())
}

/// Every token is non-empty.
pub proof fn lemma_tokens_acc_nonempty(s: Seq<char>, i: int, cur: Seq<char>)
    ensures
        forall|k: int|
            0 <= k < tokens_acc(s, i, cur).len() ==> #[trigger] tokens_acc(s, i, cur)[k].len() > 0,
    decreases s.len() - i,
{
    let ts = tokens_acc(s, i, cur);
    if i < 0 || i >= s.len() {
        if cur.len() > 0 {
            assert(ts[0] == cur);
        }
    } else if is_space(s[i]) {
        lemma_tokens_acc_nonempty(s, i + 1, Seq::empty());
        let rest = tokens_acc(s, i + 1, Seq::empty());
        if cur.len() > 0 {
            assert forall|k: int| 0 <= k < ts.len() implies #[trigger] ts[k].len() > 0 by {
                if k > 0 {
                    assert(ts[k] == rest[k - 1]);
                    assert(rest[k - 1].len() > 0);
                } else {
                    assert(ts[0] == cur);
                }
            }
        } else {
            assert forall|k: int| 0 <= k < ts.len() implies #[trigger] ts[k].len() > 0 by {
                assert(ts[k] == rest[k]);
                assert(rest[k].len() > 0);
            }
        }
    } else {
        lemma_tokens_acc_nonempty(s, i + 1, cur.push(s[i]));
        let rest = tokens_acc(s, i + 1, cur.push(s[i]));
        assert forall|k: int| 0 <= k < ts.len() implies #[trigger] ts[k].len() > 0 by {
            assert(ts[k] == rest[k]);
            assert(rest[k].len() > 0);
        }
    }
}

/// Split `s` into its whitespace-separated tokens, in order.
pub fn tokenize(s: &str) -> (r: Vec<String>)
    ensures
        views_of(r@) == tokens_of(s@),
{
    let n = s.unicode_len();
    let mut out: Vec<String> = Vec::new();
    let mut i: usize = 0;
    let mut start: usize = 0;
    let mut in_tok: bool = false;
    while i < n
        invariant
            i <= n,
            n == s@.len(),
            in_tok ==> start < i,
            tokens_of(s@) == views_of(out@) + tokens_acc(
                s@,
                i as int,
                if in_tok {
                    s@.subrange(start as int, i as int)
                } else {
                    Seq::<char>::empty()
                },
            ),
        decreases n - i,
    {
        let ghost cur: Seq<char> = if in_tok {
            s@.subrange(start as int, i as int)
        } else {
            Seq::<char>::empty()
        };
        let c = s.get_char(i);
        let sp = c == ' ' || c == '\t' || c == '\n' || c == '\r';
        if sp {
            if in_tok {
                let tok = s.substring_char(start, i).to_owned();
                proof {
                    assert(tokens_acc(s@, i as int, cur) == seq![cur] + tokens_acc(
                        s@,
                        i + 1,
                        Seq::<char>::empty(),
                    ));
                }
                out.push(tok);
                in_tok = false;
                proof {
                    assert(views_of(out@) =~= views_of(out@.drop_last()) + seq![cur]);
                    assert(views_of(out@.drop_last()) + seq![cur] + tokens_acc(
                        s@,
                        i + 1,
                        Seq::<char>::empty(),
                    ) =~= views_of(out@.drop_last()) + (seq![cur] + tokens_acc(
                        s@,
                        i + 1,
                        Seq::<char>::empty(),
                    )));
                }
            }
        } else {
            if !in_tok {
                start = i;
                in_tok = true;
            }
            proof {
                assert(s@.subrange(start as int, i + 1) =~= cur.push(s@[i as int]));
            }
        }
        i += 1;
    }
    let ghost cur: Seq<char> = if in_tok {
        s@.subrange(start as int, i as int)
    } else {
        Seq::<char>::empty()
    };
    if in_tok {
        let tok = s.substring_char(start, n).to_owned();
        out.push(tok);
        proof {
            assert(tokens_acc(s@, n as int, cur) == seq![cur]);
            assert(views_of(out@) =~= views_of(out@.drop_last()) + seq![cur]);
        }
    } else {
        proof {
            assert(views_of(out@) + tokens_acc(s@, n as int, cur) =~= views_of(out@));
        }
    }
    out
}

/// Every character of `t` is an ASCII digit.
pub open spec fn all_digits(t: Seq<char>) -> bool {
    forall|k: int| 0 <= k < t.len() ==> is_digit(#[trigger] t[k])
}

/// The numeric value of the digit character `c`.
pub open spec fn digit_val(c: char) -> int {
    c as u32 - '0' as u32
}

/// The decimal value of a digit string.
pub open spec fn digits_val(t: Seq<char>) -> int
    decreases t.len(),
{
    if t.len() == 0 {
        0
    } else {
        digits_val(t.drop_last()) * 10 + digit_val(t.last())
    }
}

/// Ten to the `n`.
pub open spec fn ten_pow(n: nat) -> int
    decreases n,
{
    if n == 0 {
        1
    } else {
        10 * ten_pow((n - 1) as nat)
    }
}

pub proof fn lemma_digits_val_nonneg(t: Seq<char>)
    requires
        all_digits(t),
    ensures
        digits_val(t) >= 0,
    decreases t.len(),
{
    if t.len() > 0 {
        assert(all_digits(t.drop_last()));
        lemma_digits_val_nonneg(t.drop_last());
    }
}

/// A digit string of length `n` has value below ten to the `n`.
pub proof fn lemma_digits_val_bound(t: Seq<char>)
    requires
        all_digits(t),
    ensures
        0 <= digits_val(t) < ten_pow(t.len()),
    decreases t.len(),
{
    if t.len() > 0 {
        assert(all_digits(t.drop_last()));
        lemma_digits_val_bound(t.drop_last());
    }
}

/// The value of a digit-string prefix never exceeds the whole.
pub proof fn lemma_digits_prefix_le(t: Seq<char>, i: int)
    requires
        all_digits(t),
        0 <= i <= t.len(),
    ensures
        digits_val(t.subrange(0, i)) <= digits_val(t),
    decreases t.len() - i,
{
    if i == t.len() {
        assert(t.subrange(0, i) =~= t);
    } else {
        assert(t.subrange(0, i + 1).drop_last() =~= t.subrange(0, i));
        assert(all_digits(t.subrange(0, i)));
        lemma_digits_val_nonneg(t.subrange(0, i));
        assert(digits_val(t.subrange(0, i + 1)) == digits_val(t.subrange(0, i)) * 10 + digit_val(
            t[i],
        ));
        lemma_digits_prefix_le(t, i + 1);
    }
}

/// A day token: decimal digits whose value lies in 1..=31.
pub open spec fn valid_day_token(t: Seq<char>) -> bool {
    t.len() > 0 && all_digits(t) && 1 <= digits_val(t) <= 31
}

/// A year token: exactly four decimal digits.
pub open spec fn valid_year_token(t: Seq<char>) -> bool {
    t.len() == 4 && all_digits(t)
}

/// Parse a day token, accepting exactly the values 1..=31.
pub fn parse_day(t: &str) -> (r: Option<u8>)
    ensures
        match r {
            Some(d) => valid_day_token(t@) && d as int == digits_val(t@),
            None => !valid_day_token(t@),
        },
{
    let n = t.unicode_len();
    if n == 0 {
        return None;
    }
    let mut i: usize = 0;
    let mut val: u32 = 0;
    while i < n
        invariant
            i <= n,
            n == t@.len(),
            val <= 31,
            all_digits(t@.subrange(0, i as int)),
            val as int == digits_val(t@.subrange(0, i as int)),
        decreases n - i,
    {
        let c = t.get_char(i);
        let cu = c as u32;
        if cu < 48 || cu > 57 {
            proof {
                assert(!is_digit(t@[i as int]));
            }
            return None;
        }
        let d = cu - 48;
        proof {
            assert(t@.subrange(0, i + 1).drop_last() =~= t@.subrange(0, i as int));
            assert(digits_val(t@.subrange(0, i + 1)) == val * 10 + d);
            assert(all_digits(t@.subrange(0, i + 1)));
        }
        let nv = val * 10 + d;
        if nv > 31 {
            proof {
                if all_digits(t@) {
                    lemma_digits_prefix_le(t@, i + 1);
                }
            }
            return None;
        }
        val = nv;
        i += 1;
    }
    proof {
        assert(t@.subrange(0, n as int) =~= t@);
    }
    if val == 0 {
        return None;
    }
    Some(val as u8)
}

/// Parse a year token, accepting exactly four-digit strings.
pub fn parse_year(t: &str) -> (r: Option<u16>)
    ensures
        match r {
            Some(y) => valid_year_token(t@) && y as int == digits_val(t@) && y <= 9999,
            None => !valid_year_token(t@),
        },
{
    let n = t.unicode_len();
    if n != 4 {
        return None;
    }
    let mut i: usize = 0;
    let mut val: u32 = 0;
    while i < n
        invariant
            i <= n,
            n == t@.len(),
            n == 4,
            val <= 9999,
            all_digits(t@.subrange(0, i as int)),
            val as int == digits_val(t@.subrange(0, i as int)),
        decreases n - i,
    {
        let c = t.get_char(i);
        let cu = c as u32;
        if cu < 48 || cu > 57 {
            proof {
                assert(!is_digit(t@[i as int]));
            }
            return None;
        }
        let d = cu - 48;
        proof {
            assert(t@.subrange(0, i + 1).drop_last() =~= t@.subrange(0, i as int));
            assert(digits_val(t@.subrange(0, i + 1)) == val * 10 + d);
            assert(all_digits(t@.subrange(0, i + 1)));
            lemma_digits_val_bound(t@.subrange(0, i + 1));
            reveal_with_fuel(ten_pow, 6);
            assert(ten_pow((i + 1) as nat) <= 10000);
        }
        val = val * 10 + d;
        i += 1;
    }
    proof {
        assert(t@.subrange(0, n as int) =~= t@);
    }
    Some(val as u16)
}

/// The fixed twelve-entry table of French month names, mapped to their
/// canonical calendar numbers.
pub open spec fn month_number(m: Seq<char>) -> Option<int> {
    if m == "janvier"@ {
        Some(1)
    } else if m == "février"@ {
        Some(2)
    } else if m == "mars"@ {
        Some(3)
    } else if m == "avril"@ {
        Some(4)
    } else if m == "mai"@ {
        Some(5)
    } else if m == "juin"@ {
        Some(6)
    } else if m == "juillet"@ {
        Some(7)
    } else if m == "août"@ {
        Some(8)
    } else if m == "septembre"@ {
        Some(9)
    } else if m == "octobre"@ {
        Some(10)
    } else if m == "novembre"@ {
        Some(11)
    } else if m == "décembre"@ {
        Some(12)
    } else {
        None
    }
}

/// Map a French month name to its calendar number, 1..=12.
pub fn convert_month_to_number(month: &str) -> (r: Option<u8>)
    ensures
        match r {
            Some(x) => month_number(month@) == Some(x as int) && 1 <= x <= 12,
            None => month_number(month@) is None,
        },
{
    let m = month.to_owned();
    if m == String::from_str("janvier") {
        Some(1)
    } else if m == String::from_str("février") {
        Some(2)
    } else if m == String::from_str("mars") {
        Some(3)
    } else if m == String::from_str("avril") {
        Some(4)
    } else if m == String::from_str("mai") {
        Some(5)
    } else if m == String::from_str("juin") {
        Some(6)
    } else if m == String::from_str("juillet") {
        Some(7)
    } else if m == String::from_str("août") {
        Some(8)
    } else if m == String::from_str("septembre") {
        Some(9)
    } else if m == String::from_str("octobre") {
        Some(10)
    } else if m == String::from_str("novembre") {
        Some(11)
    } else if m == String::from_str("décembre") {
        Some(12)
    } else {
        None
    }
}

/// Each of the twelve French month names maps to its canonical calendar
/// number, "janvier" to 1 through "décembre" to 12, and the table is a
/// function of the name alone.
pub proof fn lemma_month_table()
    ensures
        month_number("janvier"@) == Some(1int),
        month_number("février"@) == Some(2int),
        month_number("mars"@) == Some(3int),
        month_number("avril"@) == Some(4int),
        month_number("mai"@) == Some(5int),
        month_number("juin"@) == Some(6int),
        month_number("juillet"@) == Some(7int),
        month_number("août"@) == Some(8int),
        month_number("septembre"@) == Some(9int),
        month_number("octobre"@) == Some(10int),
        month_number("novembre"@) == Some(11int),
        month_number("décembre"@) == Some(12int),
{
    reveal_strlit("janvier");
    reveal_strlit("février");
    reveal_strlit("mars");
    reveal_strlit("avril");
    reveal_strlit("mai");
    reveal_strlit("juin");
    reveal_strlit("juillet");
    reveal_strlit("août");
    reveal_strlit("septembre");
    reveal_strlit("octobre");
    reveal_strlit("novembre");
    reveal_strlit("décembre");
    assert(("janvier"@)[0] == 'j' && ("février"@)[0] == 'f' && ("juillet"@)[1] == 'u');
    assert(("janvier"@)[1] == 'a' && ("octobre"@)[0] == 'o' && ("juillet"@)[0] == 'j');
    assert(("mars"@)[0] == 'm' && ("juin"@)[0] == 'j' && ("août"@)[0] == 'a');
    assert(("novembre"@)[0] == 'n' && ("décembre"@)[0] == 'd');
    assert(("février"@)[1] == 'é');
    assert(("janvier"@).len() == 7 && ("février"@).len() == 7 && ("mars"@).len() == 4);
    assert(("avril"@).len() == 5 && ("mai"@).len() == 3 && ("juin"@).len() == 4);
    assert(("juillet"@).len() == 7 && ("août"@).len() == 4 && ("septembre"@).len() == 9);
    assert(("octobre"@).len() == 7 && ("novembre"@).len() == 8 && ("décembre"@).len() == 8);
}

/// What normalizing one caption yields: the build identifier is the fifth
/// token from the end, the date is read from the last three tokens, and the
/// fields are validated in order. In lenient mode an unknown month resolves
/// to month 1 instead of failing.
pub open spec fn normalize_spec(c: Seq<char>, url: Seq<char>, strict: bool) -> Result<
    RecordModel,
    PipelineError,
> {
    let ts = tokens_of(c);
    if ts.len() < 6 {
        Err(PipelineError::Parse)
    } else {
        let build = ts[ts.len() - 5];
        let day_t = ts[ts.len() - 3];
        let month_t = ts[ts.len() - 2];
        let year_t = ts[ts.len() - 1];
        if !valid_day_token(day_t) {
            Err(PipelineError::Validation { field: DateField::Day })
        } else if !valid_year_token(year_t) {
            Err(PipelineError::Validation { field: DateField::Year })
        } else {
            match month_number(month_t) {
                Some(mn) => Ok(
                    RecordModel {
                        version: build,
                        year: digits_val(year_t),
                        month: mn,
                        day: digits_val(day_t),
                        url,
                    },
                ),
                None => if strict {
                    Err(PipelineError::UnknownMonth)
                } else {
                    Ok(
                        RecordModel {
                            version: build,
                            year: digits_val(year_t),
                            month: 1,
                            day: digits_val(day_t),
                            url,
                        },
                    )
                },
            }
        }
    }
}

/// The model of an executable normalization result.
pub open spec fn res_view(r: Result<ReleaseRecord, PipelineError>) -> Result<
    RecordModel,
    PipelineError,
> {
    match r {
        Ok(x) => Ok(x@),
        Err(e) => Err(e),
    }
}

/// Normalization is a pure function of the caption alone: two results that
/// meet its contract for the same caption are the same record.
pub proof fn lemma_normalize_deterministic(
    c: Seq<char>,
    url: Seq<char>,
    strict: bool,
    r1: Result<RecordModel, PipelineError>,
    r2: Result<RecordModel, PipelineError>,
)
    requires
        r1 == normalize_spec(c, url, strict),
        r2 == normalize_spec(c, url, strict),
    ensures
        r1 == r2,
{
}

/// Normalize one caption into a release record carrying `url`.
pub fn parse_version_info(version_text: &str, url: &str, strict: bool) -> (r: Result<
    ReleaseRecord,
    PipelineError,
>)
    requires
        url@.len() > 0,
    ensures
        res_view(r) == normalize_spec(version_text@, url@, strict),
        r matches Ok(rec) ==> wf_record(rec@),
{
    let ts = tokenize(version_text);
    let n = ts.len();
    proof {
        assert(views_of(ts@).len() == ts@.len());
    }
    if n < 6 {
        return Err(PipelineError::Parse);
    }
    proof {
        assert(tokens_of(version_text@)[n - 3] == ts@[n - 3]@);
        assert(tokens_of(version_text@)[n - 2] == ts@[n - 2]@);
        assert(tokens_of(version_text@)[n - 1] == ts@[n - 1]@);
        assert(tokens_of(version_text@)[n - 5] == ts@[n - 5]@);
    }
    let day = match parse_day(ts[n - 3].as_str()) {
        Some(d) => d,
        None => {
            return Err(PipelineError::Validation { field: DateField::Day });
        },
    };
    let year = match parse_year(ts[n - 1].as_str()) {
        Some(y) => y,
        None => {
            return Err(PipelineError::Validation { field: DateField::Year });
        },
    };
    let month = match convert_month_to_number(ts[n - 2].as_str()) {
        Some(mn) => mn,
        None => {
            if strict {
                return Err(PipelineError::UnknownMonth);
            }
            1
        },
    };
    let version = ts[n - 5].clone();
    proof {
        lemma_tokens_acc_nonempty(version_text@, 0, Seq::<char>::empty());
        assert(tokens_of(version_text@)[n - 5].len() > 0);
    }
    Ok(ReleaseRecord { version, year, month, day, url: url.to_owned() })
}

} // verus!
