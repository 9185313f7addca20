//! JSON rendering of release records: one object per record, with the
//! fields `version`, `date` (ISO-8601) and `url`, string values escaped.
use crate::record::RecordModel;
use crate::record::ReleaseRecord;
use crate::record::date_seq;
use crate::record::digit_char;
use crate::record::push_four_digits;
use crate::record::push_two_digits;
use crate::record::recs_view;
use crate::record::wf_record;
use vstd::prelude::*;

verus! {

/// Lower-case hexadecimal digit character for `d` in 0..=15.
pub open spec fn hex_char(d: int) -> char {
    if d < 10 {
        digit_char(d)
    } else if d == 10 {
        'a'
    } else if d == 11 {
        'b'
    } else if d == 12 {
        'c'
    } else if d == 13 {
        'd'
    } else if d == 14 {
        'e'
    } else {
        'f'
    }
}

/// JSON escaping of one character: quotes and backslashes are escaped,
/// control characters become `\u00XX`, everything else stands as it is.
pub open spec fn esc_char(c: char) -> Seq<char> {
    if c == '"' {
        seq!['\\', '"']
    } else if c == '\\' {
        seq!['\\', '\\']
    } else if (c as u32) < 32 {
        seq!['\\', 'u', '0', '0', hex_char(((c as u32) as int) / 16), hex_char(((c as u32) as int) % 16)]
    } else {
        seq![c]
    }
}

/// JSON escaping of a string.
pub open spec fn esc(s: Seq<char>) -> Seq<char>
    decreases s.len(),
{
    if s.len() == 0 {
        Seq::empty()
    } else {
        esc(s.drop_last()) + esc_char(s.last())
    }
}

/// The JSON object for one record.
pub open spec fn json_record(r: RecordModel) -> Seq<char> {
    "{\"version\":\""@ + esc(r.version) + "\",\"date\":\""@ + date_seq(r.year, r.month, r.day)
        + "\",\"url\":\""@ + esc(r.url) + "\"}"@
}

/// The comma-separated JSON objects for the records from `i` on.
pub open spec fn json_items(rs: Seq<RecordModel>, i: int) -> Seq<char>
    decreases rs.len() - i,
{
    if i < 0 || i >= rs.len() {
        Seq::empty()
    } else if i == rs.len() - 1 {
        json_record(rs[i])
    } else {
        json_record(rs[i]) + ","@ + json_items(rs, i + 1)
    }
}

/// The JSON array of all records, in order.
pub open spec fn json_array(rs: Seq<RecordModel>) -> Seq<char> {
    "["@ + json_items(rs, 0) + "]"@
}

/// The one-character string for the hexadecimal digit `d`.
fn hex_str(d: u32) -> (r: &'static str)
    requires
        d < 16,
    ensures
        r@ =~= seq![hex_char(d as int)],
{
    proof {
        reveal_strlit("0");
        reveal_strlit("1");
        reveal_strlit("2");
        reveal_strlit("3");
        reveal_strlit("4");
        reveal_strlit("5");
        reveal_strlit("6");
        reveal_strlit("7");
        reveal_strlit("8");
        reveal_strlit("9");
        reveal_strlit("a");
        reveal_strlit("b");
        reveal_strlit("c");
        reveal_strlit("d");
        reveal_strlit("e");
        reveal_strlit("f");
    }
    match d {
        0 => "0",
        1 => "1",
        2 => "2",
        3 => "3",
        4 => "4",
        5 => "5",
        6 => "6",
        7 => "7",
        8 => "8",
        9 => "9",
        10 => "a",
        11 => "b",
        12 => "c",
        13 => "d",
        14 => "e",
        _ => "f",
    }
}

/// Append the JSON escaping of `s` to `out`.
fn push_escaped(out: &mut String, s: &str)
    ensures
        final (out)@ == old(out)@ + esc(s@),
{
    let n = s.unicode_len();
    let mut i: usize = 0;
    while i < n
        invariant
            i <= n,
            n == s@.len(),
            out@ == old(out)@ + esc(s@.subrange(0, i as int)),
        decreases n - i,
    {
        let ghost pre = s@.subrange(0, i as int);
        let c = s.get_char(i);
        proof {
            assert(s@.subrange(0, i + 1).drop_last() =~= pre);
            assert(s@.subrange(0, i + 1).last() == s@[i as int]);
        }
        let cu = c as u32;
        if c == '"' {
            out.append("\\\"");
            proof {
                reveal_strlit("\\\"");
                assert(("\\\""@) =~= esc_char(c));
            }
        } else if c == '\\' {
            out.append("\\\\");
            proof {
                reveal_strlit("\\\\");
                assert(("\\\\"@) =~= esc_char(c));
            }
        } else if cu < 32 {
            out.append("\\u00");
            out.append(hex_str(cu / 16));
            out.append(hex_str(cu % 16));
            proof {
                reveal_strlit("\\u00");
                assert(("\\u00"@) + seq![hex_char((cu / 16) as int)] + seq![
                    hex_char((cu % 16) as int),
                ] =~= esc_char(c));
            }
        } else {
            let piece = s.substring_char(i, i + 1);
            out.append(piece);
            proof {
                assert(piece@ =~= esc_char(c));
            }
        }
        proof {
            assert(out@ =~= old(out)@ + esc(s@.subrange(0, i + 1)));
        }
        i += 1;
    }
    proof {
        assert(s@.subrange(0, n as int) =~= s@);
    }
}

/// The JSON object for one record.
pub fn record_json(r: &ReleaseRecord) -> (out: String)
    requires
        wf_record(r@),
    ensures
        out@ == json_record(r@),
{
    let mut out = String::new();
    out.append("{\"version\":\"");
    push_escaped(&mut out, r.version.as_str());
    out.append("\",\"date\":\"");
    push_four_digits(&mut out, r.year);
    out.append("-");
    push_two_digits(&mut out, r.month);
    out.append("-");
    push_two_digits(&mut out, r.day);
    out.append("\",\"url\":\"");
    push_escaped(&mut out, r.url.as_str());
    out.append("\"}");
    proof {
        assert(out@ =~= json_record(r@));
    }
    out
}

/// The comma-separated JSON objects for the records from `k` on.
fn items_json_from(rs: &Vec<ReleaseRecord>, k: usize) -> (out: String)
    requires
        forall|t: int| 0 <= t < rs@.len() ==> wf_record((#[trigger] rs@[t])@),
    ensures
        out@ == json_items(recs_view(rs@), k as int),
    decreases rs@.len() - k,
{
    if k >= rs.len() {
        let out = String::new();
        proof {
            assert(out@ =~= json_items(recs_view(rs@), k as int));
        }
        out
    } else {
        let mut out = record_json(&rs[k]);
        proof {
            assert(recs_view(rs@)[k as int] == rs@[k as int]@);
        }
        if k < rs.len() - 1 {
            let rest = items_json_from(rs, k + 1);
            out.append(",");
            out.append(rest.as_str());
            proof {
                assert(out@ =~= json_items(recs_view(rs@), k as int));
            }
        } else {
            proof {
                assert(out@ =~= json_items(recs_view(rs@), k as int));
            }
        }
        out
    }
}

/// The JSON array of all records, in order.
pub fn records_json(rs: &Vec<ReleaseRecord>) -> (out: String)
    requires
        forall|t: int| 0 <= t < rs@.len() ==> wf_record((#[trigger] rs@[t])@),
    ensures
        out@ == json_array(recs_view(rs@)),
{
    let mut out = String::new();
    out.append("[");
    let items = items_json_from(rs, 0);
    out.append(items.as_str());
    out.append("]");
    proof {
        assert(out@ =~= json_array(recs_view(rs@)));
    }
    out
}

} // verus!
