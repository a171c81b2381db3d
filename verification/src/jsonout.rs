//! The output file format.
//!
//! Each output file holds a JSON array of objects
//! `{"targets": [string, ...], "labels": {string: string, ...}}`, the
//! file-based service-discovery contract of the target monitoring
//! system. The text is produced here, character by character, so that
//! serialization is deterministic for a fixed entry order and the change
//! detector can fingerprint it.

use vstd::prelude::*;
use crate::entry::{FileSdEntry, EntryView, entries_view};
use crate::labels::LabelSeq;
use crate::text::push_char;
use vstd::string::StringExecFns;

verus! {

/// The hexadecimal digit of a value below sixteen.
pub open spec fn hex_digit(n: int) -> char {
    if n == 0 {
        '0'
    } else if n == 1 {
        '1'
    } else if n == 2 {
        '2'
    } else if n == 3 {
        '3'
    } else if n == 4 {
        '4'
    } else if n == 5 {
        '5'
    } else if n == 6 {
        '6'
    } else if n == 7 {
        '7'
    } else if n == 8 {
        '8'
    } else if n == 9 {
        '9'
    } else if n == 10 {
        'a'
    } else if n == 11 {
        'b'
    } else if n == 12 {
        'c'
    } else if n == 13 {
        'd'
    } else if n == 14 {
        'e'
    } else {
        'f'
    }
}

fn hex_digit_exec(n: u32) -> (r: char)
    requires
        n < 16,
    ensures
        r == hex_digit(n as int),
{
    if n == 0 {
        '0'
    } else if n == 1 {
        '1'
    } else if n == 2 {
        '2'
    } else if n == 3 {
        '3'
    } else if n == 4 {
        '4'
    } else if n == 5 {
        '5'
    } else if n == 6 {
        '6'
    } else if n == 7 {
        '7'
    } else if n == 8 {
        '8'
    } else if n == 9 {
        '9'
    } else if n == 10 {
        'a'
    } else if n == 11 {
        'b'
    } else if n == 12 {
        'c'
    } else if n == 13 {
        'd'
    } else if n == 14 {
        'e'
    } else {
        'f'
    }
}

/// The escape of one character inside a JSON string: quote and backslash
/// take a backslash, control characters take a `\u00..` escape, and
/// every other character stands as it is.
pub open spec fn json_escape_char(c: char) -> Seq<char> {
    if c == '"' {
        seq!['\\', '"']
    } else if c == '\\' {
        seq!['\\', '\\']
    } else if (c as u32) < 32 {
        seq!['\\', 'u', '0', '0', hex_digit((c as u32 / 16) as int), hex_digit((c as u32 % 16) as int)]
    } else {
        seq![c]
    }
}

/// The escaped body of a JSON string.
pub open spec fn json_escape(s: Seq<char>) -> Seq<char>
    decreases s.len(),
{
    if s.len() == 0 {
        Seq::empty()
    } else {
        json_escape(s.drop_last()) + json_escape_char(s.last())
    }
}

/// A JSON string: the escaped body between double quotes.
pub open spec fn json_string(s: Seq<char>) -> Seq<char> {
    seq!['"'] + json_escape(s) + seq!['"']
}

fn json_string_exec(s: &str) -> (r: String)
    ensures
        r@ == json_string(s@),
{
    let mut out = String::new();
    push_char(&mut out, '"');
    let n = s.unicode_len();
    let mut i: usize = 0;
    while i < n
        invariant
            0 <= i <= n,
            n == s@.len(),
            out@ == seq!['"'] + json_escape(s@.take(i as int)),
        decreases n - i,
    {
        proof {
            assert(s@.take(i as int + 1).drop_last() =~= s@.take(i as int));
            assert(s@.take(i as int + 1).last() == s@[i as int]);
        }
        let c = s.get_char(i);
        let u: u32 = c as u32;
        if c == '"' {
            push_char(&mut out, '\\');
            push_char(&mut out, '"');
        } else if c == '\\' {
            push_char(&mut out, '\\');
            push_char(&mut out, '\\');
        } else if u < 32 {
            push_char(&mut out, '\\');
            push_char(&mut out, 'u');
            push_char(&mut out, '0');
            push_char(&mut out, '0');
            push_char(&mut out, hex_digit_exec(u / 16));
            push_char(&mut out, hex_digit_exec(u % 16));
        } else {
            push_char(&mut out, c);
        }
        proof {
            assert(out@ =~= seq!['"'] + json_escape(s@.take(i as int + 1)));
        }
        i += 1;
    }
    push_char(&mut out, '"');
    proof {
        assert(s@.take(n as int) =~= s@);
        assert(out@ =~= json_string(s@));
    }
    out
}

/// Comma-separated JSON strings.
pub open spec fn json_string_list(ss: Seq<Seq<char>>) -> Seq<char>
    decreases ss.len(),
{
    if ss.len() == 0 {
        Seq::empty()
    } else if ss.len() == 1 {
        json_string(ss[0])
    } else {
        json_string_list(ss.drop_last()) + ","@ + json_string(ss.last())
    }
}

/// Comma-separated `"key":"value"` pairs, in the map's own order.
pub open spec fn json_label_pairs(m: LabelSeq) -> Seq<char>
    decreases m.len(),
{
    if m.len() == 0 {
        Seq::empty()
    } else if m.len() == 1 {
        json_string(m[0].0) + ":"@ + json_string(m[0].1)
    } else {
        json_label_pairs(m.drop_last()) + ","@ + json_string(m.last().0) + ":"@ + json_string(
            m.last().1,
        )
    }
}

/// One serialized entry.
pub open spec fn json_entry(e: EntryView) -> Seq<char> {
    "{\"targets\":["@ + json_string_list(e.targets) + "],\"labels\":{"@ + json_label_pairs(e.labels)
        + "}}"@
}

/// Comma-separated serialized entries.
pub open spec fn json_entry_list(es: Seq<EntryView>) -> Seq<char>
    decreases es.len(),
{
    if es.len() == 0 {
        Seq::empty()
    } else if es.len() == 1 {
        json_entry(es[0])
    } else {
        json_entry_list(es.drop_last()) + ","@ + json_entry(es.last())
    }
}

/// The serialized entry set: a JSON array of the entries, in order.
pub open spec fn json_entries(es: Seq<EntryView>) -> Seq<char> {
    "["@ + json_entry_list(es) + "]"@
}

fn json_entry_exec(e: &FileSdEntry) -> (r: String)
    ensures
        r@ == json_entry(e@),
{
    let mut out = String::from_str("{\"targets\":[");
    let ghost ts = e@.targets;
    let n = e.targets.len();
    let mut i: usize = 0;
    while i < n
        invariant
            0 <= i <= n,
            n == ts.len(),
            ts == e@.targets,
            out@ == "{\"targets\":["@ + json_string_list(ts.take(i as int)),
        decreases n - i,
    {
        proof {
            assert(ts.take(i as int + 1).drop_last() =~= ts.take(i as int));
            assert(ts.take(i as int + 1).last() == ts[i as int]);
            assert(ts[i as int] == e.targets@[i as int]@);
        }
        if i > 0 {
            out.append(",");
        }
        let js = json_string_exec(e.targets[i].as_str());
        out.append(js.as_str());
        proof {
            assert(out@ =~= "{\"targets\":["@ + json_string_list(ts.take(i as int + 1)));
        }
        i += 1;
    }
    proof {
        assert(ts.take(n as int) =~= ts);
    }
    out.append("],\"labels\":{");
    let ghost ls = e@.labels;
    let m = e.labels.len();
    let mut j: usize = 0;
    while j < m
        invariant
            0 <= j <= m,
            m == ls.len(),
            ls == e@.labels,
            out@ == "{\"targets\":["@ + json_string_list(ts) + "],\"labels\":{"@
                + json_label_pairs(ls.take(j as int)),
        decreases m - j,
    {
        proof {
            assert(ls.take(j as int + 1).drop_last() =~~= ls.take(j as int));
            assert(ls.take(j as int + 1).last() == ls[j as int]);
        }
        if j > 0 {
            out.append(",");
        }
        let p = e.labels.pair_at(j);
        let jk = json_string_exec(p.0.as_str());
        let jv = json_string_exec(p.1.as_str());
        out.append(jk.as_str());
        out.append(":");
        out.append(jv.as_str());
        proof {
            assert(out@ =~= "{\"targets\":["@ + json_string_list(ts) + "],\"labels\":{"@
                + json_label_pairs(ls.take(j as int + 1)));
        }
        j += 1;
    }
    proof {
        assert(ls.take(m as int) =~~= ls);
    }
    out.append("}}");
    proof {
        assert(out@ =~= json_entry(e@));
    }
    out
}

/// Serializes the full entry set to the output file format.
pub fn serialize_entries(entries: &Vec<FileSdEntry>) -> (r: String)
    ensures
        r@ == json_entries(entries_view(entries@)),
{
    let ghost ev = entries_view(entries@);
    let mut out = String::from_str("[");
    let n = entries.len();
    let mut i: usize = 0;
    while i < n
        invariant
            0 <= i <= n,
            n == ev.len(),
            ev == entries_view(entries@),
            out@ == "["@ + json_entry_list(ev.take(i as int)),
        decreases n - i,
    {
        proof {
            assert(ev.take(i as int + 1).drop_last() =~~= ev.take(i as int));
            assert(ev.take(i as int + 1).last() == ev[i as int]);
            assert(ev[i as int] == entries@[i as int]@);
        }
        if i > 0 {
            out.append(",");
        }
        let je = json_entry_exec(&entries[i]);
        out.append(je.as_str());
        proof {
            assert(out@ =~= "["@ + json_entry_list(ev.take(i as int + 1)));
        }
        i += 1;
    }
    proof {
        assert(ev.take(n as int) =~~= ev);
    }
    out.append("]");
    proof {
        assert(out@ =~= json_entries(ev));
    }
    out
}

} // verus!
