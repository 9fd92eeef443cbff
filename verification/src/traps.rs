//! The trap definitions of the maps: a text of sections `[map name]` with
//! entries `trap index = script path`, read as bytes. Lines that start with
//! `;` or `#` are comments. Blanks are the ASCII ones.

use crate::mmf::{opt_name, TrapEntry};
use vstd::prelude::*;
use vstd::slice::{slice_subrange, slice_to_vec};

verus! {

/// One accepted entry of the text: the section it stands in, the trap
/// index and the script path.
pub struct TrapRecord {
    pub section: Vec<u8>,
    pub trap_index: u8,
    pub script_path: Vec<u8>,
}

/// What a `TrapRecord` holds, as plain values.
pub ghost struct Record {
    pub section: Seq<u8>,
    pub index: int,
    pub path: Seq<u8>,
}

impl TrapRecord {
    /// The record as plain values.
    pub open spec fn view(&self) -> Record {
        Record {
            section: self.section@,
            index: self.trap_index as int,
            path: self.script_path@,
        }
    }
}

/// The records of a vector as plain values.
pub open spec fn record_views(records: Seq<TrapRecord>) -> Seq<Record> {
    Seq::new(records.len(), |i: int| records[i]@)
}

/// True for a space, a tab, a line feed, a vertical tab, a form feed and a
/// carriage return.
pub open spec fn is_blank(b: u8) -> bool {
    b == 0x20 || (0x09 <= b && b <= 0x0d)
}

/// The end of the line that holds position `i`: the next line feed, or the
/// end of the text.
pub open spec fn line_end(s: Seq<u8>, i: int) -> int
    decreases s.len() - i,
{
    if i < 0 || i >= s.len() || s[i] == 0x0a {
        i
    } else {
        line_end(s, i + 1)
    }
}

/// The first position in `a..b` that holds no blank, or `b`.
pub open spec fn skip_blanks(s: Seq<u8>, a: int, b: int) -> int
    decreases b - a,
{
    if a >= b || !is_blank(s[a]) {
        a
    } else {
        skip_blanks(s, a + 1, b)
    }
}

/// The end of `a..b` without the blanks at its end.
pub open spec fn drop_blanks(s: Seq<u8>, a: int, b: int) -> int
    decreases b - a,
{
    if b <= a || !is_blank(s[b - 1]) {
        b
    } else {
        drop_blanks(s, a, b - 1)
    }
}

/// The first position in `a..b` that holds `=`, or `b`.
pub open spec fn find_equals(s: Seq<u8>, a: int, b: int) -> int
    decreases b - a,
{
    if a >= b || s[a] == 0x3d {
        a
    } else {
        find_equals(s, a + 1, b)
    }
}

/// The number that the decimal digits in `i..b` continue from `acc`, or
/// `None` where a byte is no digit or the number leaves the range of a byte.
pub open spec fn digits_value(s: Seq<u8>, i: int, b: int, acc: int) -> Option<int>
    decreases b - i,
{
    if i >= b {
        Some(acc)
    } else if s[i] < 0x30 || s[i] > 0x39 || acc * 10 + (s[i] - 0x30) > 255 {
        None
    } else {
        digits_value(s, i + 1, b, acc * 10 + (s[i] - 0x30))
    }
}

/// The trap index written in `a..b`: decimal digits, a `+` before them
/// allowed, at least one digit, at most 255.
pub open spec fn index_value(s: Seq<u8>, a: int, b: int) -> Option<int> {
    let from = if a < b && s[a] == 0x2b {
        a + 1
    } else {
        a
    };
    if from >= b {
        None
    } else {
        digits_value(s, from, b, 0)
    }
}

/// The state of the parser between two lines.
pub ghost struct ParseState {
    /// The section that the following entries belong to, if one was opened.
    pub section: Option<Seq<u8>>,
    /// The entries accepted so far.
    pub records: Seq<Record>,
}

/// The parser's state after the line whose text, blanks trimmed, is `a..b`.
pub open spec fn after_line(s: Seq<u8>, a: int, b: int, st: ParseState) -> ParseState {
    if a >= b || s[a] == 0x3b || s[a] == 0x23 {
        st
    } else if s[a] == 0x5b && s[b - 1] == 0x5d {
        ParseState { section: Some(s.subrange(a + 1, b - 1)), records: st.records }
    } else {
        let eq = find_equals(s, a, b);
        if st.section.is_none() || eq >= b {
            st
        } else {
            let key_end = drop_blanks(s, a, eq);
            let value_start = skip_blanks(s, eq + 1, b);
            match index_value(s, a, key_end) {
                Some(index) => ParseState {
                    section: st.section,
                    records: st.records.push(
                        Record {
                            section: st.section.unwrap(),
                            index,
                            path: s.subrange(value_start, b),
                        },
                    ),
                },
                None => st,
            }
        }
    }
}

/// The parser's state after the lines from position `pos` on.
pub open spec fn after_lines(s: Seq<u8>, pos: int, st: ParseState) -> ParseState
    decreases s.len() - pos,
    via after_lines_decreases
{
    if pos < 0 || pos >= s.len() {
        st
    } else {
        let end = line_end(s, pos);
        let a = skip_blanks(s, pos, end);
        let b = drop_blanks(s, a, end);
        if end >= s.len() {
            after_line(s, a, b, st)
        } else {
            after_lines(s, end + 1, after_line(s, a, b, st))
        }
    }
}

#[via_fn]
proof fn after_lines_decreases(s: Seq<u8>, pos: int, st: ParseState) {
    if 0 <= pos < s.len() {
        lemma_line_end(s, pos);
    }
}

proof fn lemma_line_end(s: Seq<u8>, i: int)
    requires
        0 <= i <= s.len(),
    ensures
        i <= line_end(s, i) <= s.len(),
    decreases s.len() - i,
{
    if i < s.len() && s[i] != 0x0a {
        lemma_line_end(s, i + 1);
    }
}

/// The entries of the whole text, in the order in which they stand.
pub open spec fn parsed_records(s: Seq<u8>) -> Seq<Record> {
    after_lines(s, 0, ParseState { section: None, records: Seq::<Record>::empty() }).records
}

fn is_blank_byte(b: u8) -> (r: bool)
    ensures
        r == is_blank(b),
{
    b == 0x20 || (0x09 <= b && b <= 0x0d)
}

/// Reads a trap index from `content[a..b]`.
pub fn parse_index(content: &[u8], a: usize, b: usize) -> (r: Option<u8>)
    requires
        a <= b <= content.len(),
    ensures
        match r {
            Some(v) => index_value(content@, a as int, b as int) == Some(v as int),
            None => index_value(content@, a as int, b as int).is_none(),
        },
{
    let from: usize = if a < b && content[a] == 0x2b {
        a + 1
    } else {
        a
    };
    if from >= b {
        return None;
    }
    let mut acc: u16 = 0;
    let mut i: usize = from;
    while i < b
        invariant
            from <= i <= b <= content.len(),
            a <= b,
            from as int == (if a < b && content@[a as int] == 0x2b {
                a + 1
            } else {
                a as int
            }),
            acc <= 255,
            digits_value(content@, from as int, b as int, 0) == digits_value(
                content@,
                i as int,
                b as int,
                acc as int,
            ),
        decreases b - i,
    {
        let c: u8 = content[i];
        if c < 0x30 || c > 0x39 {
            assert(digits_value(content@, i as int, b as int, acc as int).is_none());
            return None;
        }
        let next: u16 = acc * 10 + (c - 0x30) as u16;
        if next > 255 {
            assert(digits_value(content@, i as int, b as int, acc as int).is_none());
            return None;
        }
        acc = next;
        i = i + 1;
    }
    Some(acc as u8)
}

/// Reads the trap definitions of all maps. Gives every accepted entry with
/// its section, in the order of the text: an entry needs an open section,
/// an `=` and, before it, an index between 0 and 255.
pub fn parse_traps_ini(content: &[u8]) -> (records: Vec<TrapRecord>)
    ensures
        record_views(records@) == parsed_records(content@),
{
    let mut records: Vec<TrapRecord> = Vec::new();
    let mut section: Option<Vec<u8>> = None;
    let mut pos: usize = 0;
    let ghost start = ParseState { section: None, records: Seq::<Record>::empty() };
    assert(record_views(records@) =~= start.records);
    while pos < content.len()
        invariant
            after_lines(content@, 0, start) == after_lines(
                content@,
                pos as int,
                ParseState {
                    section: opt_name(section),
                    records: record_views(records@),
                },
            ),
        decreases content.len() - pos,
    {
        let ghost st = ParseState {
            section: opt_name(section),
            records: record_views(records@),
        };
        let mut end: usize = pos;
        while end < content.len() && content[end] != 0x0a
            invariant
                pos <= end <= content.len(),
                line_end(content@, pos as int) == line_end(content@, end as int),
            decreases content.len() - end,
        {
            end = end + 1;
        }
        let mut a: usize = pos;
        while a < end && is_blank_byte(content[a])
            invariant
                pos <= a <= end <= content.len(),
                skip_blanks(content@, pos as int, end as int) == skip_blanks(
                    content@,
                    a as int,
                    end as int,
                ),
            decreases end - a,
        {
            a = a + 1;
        }
        let mut b: usize = end;
        while b > a && is_blank_byte(content[b - 1])
            invariant
                a <= b <= end <= content.len(),
                drop_blanks(content@, a as int, end as int) == drop_blanks(
                    content@,
                    a as int,
                    b as int,
                ),
            decreases b - a,
        {
            b = b - 1;
        }
        if a >= b || content[a] == 0x3b || content[a] == 0x23 {
        } else if content[a] == 0x5b && content[b - 1] == 0x5d {
            section = Some(slice_to_vec(slice_subrange(content, a + 1, b - 1)));
        } else {
            let mut eq: usize = a;
            while eq < b && content[eq] != 0x3d
                invariant
                    a <= eq <= b <= content.len(),
                    find_equals(content@, a as int, b as int) == find_equals(
                        content@,
                        eq as int,
                        b as int,
                    ),
                decreases b - eq,
            {
                eq = eq + 1;
            }
            if eq < b {
                let mut key_end: usize = eq;
                while key_end > a && is_blank_byte(content[key_end - 1])
                    invariant
                        a <= key_end <= eq,
                        eq < b <= content.len(),
                        drop_blanks(content@, a as int, eq as int) == drop_blanks(
                            content@,
                            a as int,
                            key_end as int,
                        ),
                    decreases key_end - a,
                {
                    key_end = key_end - 1;
                }
                let mut value_start: usize = eq + 1;
                while value_start < b && is_blank_byte(content[value_start])
                    invariant
                        eq + 1 <= value_start <= b <= content.len(),
                        skip_blanks(content@, eq as int + 1, b as int) == skip_blanks(
                            content@,
                            value_start as int,
                            b as int,
                        ),
                    decreases b - value_start,
                {
                    value_start = value_start + 1;
                }
                match &section {
                    Some(name) => {
                        match parse_index(content, a, key_end) {
                            Some(index) => {
                                let ghost before = record_views(records@);
                                let record = TrapRecord {
                                    section: slice_to_vec(name.as_slice()),
                                    trap_index: index,
                                    script_path: slice_to_vec(
                                        slice_subrange(content, value_start, b),
                                    ),
                                };
                                records.push(record);
                                assert(record_views(records@) =~= before.push(
                                    Record {
                                        section: name@,
                                        index: index as int,
                                        path: content@.subrange(value_start as int, b as int),
                                    },
                                ));
                            },
                            None => {},
                        }
                    },
                    None => {},
                }
            }
        }
        assert(ParseState {
            section: opt_name(section),
            records: record_views(records@),
        } == after_line(content@, a as int, b as int, st));
        if end < content.len() {
            pos = end + 1;
        } else {
            pos = end;
        }
    }
    records
}

/// The path of the last record for `section` and `index` among the first `n`, if any.
pub open spec fn last_path(records: Seq<Record>, section: Seq<u8>, index: int, n: int) -> Option<
    Seq<u8>,
>
    decreases n,
{
    if n <= 0 {
        None
    } else if records[n - 1].section == section && records[n - 1].index == index {
        Some(records[n - 1].path)
    } else {
        last_path(records, section, index, n - 1)
    }
}

/// The traps of one section, up to the index `upto`: one entry for each
/// index that the section defines, in ascending order, with the path of
/// the last definition.
pub open spec fn section_traps(records: Seq<Record>, section: Seq<u8>, upto: int) -> Seq<
    (int, Seq<u8>),
>
    decreases upto,
{
    if upto <= 0 {
        Seq::<(int, Seq<u8>)>::empty()
    } else {
        match last_path(records, section, upto - 1, records.len() as int) {
            Some(path) => section_traps(records, section, upto - 1).push((upto - 1, path)),
            None => section_traps(records, section, upto - 1),
        }
    }
}

/// The entries of a vector as plain values.
pub open spec fn entry_views(entries: Seq<TrapEntry>) -> Seq<(int, Seq<u8>)> {
    Seq::new(entries.len(), |i: int| (entries[i].trap_index as int, entries[i].script_path@))
}

fn same_bytes(a: &[u8], b: &[u8]) -> (r: bool)
    ensures
        r == (a@ == b@),
{
    if a.len() != b.len() {
        return false;
    }
    let mut i: usize = 0;
    while i < a.len()
        invariant
            i <= a.len(),
            a.len() == b.len(),
            forall|k: int| 0 <= k < i ==> a[k] == b[k],
        decreases a.len() - i,
    {
        if a[i] != b[i] {
            return false;
        }
        i = i + 1;
    }
    assert(a@ =~= b@);
    true
}

/// Collects the traps of the section `section`: for each trap index that
/// the section defines, the path that was given last, ordered by index.
pub fn traps_for_section(records: &Vec<TrapRecord>, section: &[u8]) -> (entries: Vec<TrapEntry>)
    ensures
        entry_views(entries@) == section_traps(record_views(records@), section@, 256),
{
    let ghost views = record_views(records@);
    let mut entries: Vec<TrapEntry> = Vec::new();
    assert(entry_views(entries@) =~= section_traps(views, section@, 0));
    let mut index: u16 = 0;
    while index < 256
        invariant
            index <= 256,
            views == record_views(records@),
            entry_views(entries@) == section_traps(views, section@, index as int),
        decreases 256 - index,
    {
        let mut found: Option<usize> = None;
        let mut n: usize = records.len();
        while n > 0 && found.is_none()
            invariant
                n <= records.len(),
                views == record_views(records@),
                index < 256,
                match found {
                    Some(at) => at < records.len() && last_path(
                        views,
                        section@,
                        index as int,
                        records.len() as int,
                    ) == Some(records[at as int].script_path@),
                    None => last_path(views, section@, index as int, records.len() as int)
                        == last_path(views, section@, index as int, n as int),
                },
            decreases n - (if found.is_some() { 1int } else { 0int }) + 1,
        {
            let r = &records[n - 1];
            assert(views[n as int - 1] == records@[n as int - 1]@);
            if r.trap_index as u16 == index && same_bytes(r.section.as_slice(), section) {
                found = Some(n - 1);
            } else {
                n = n - 1;
            }
        }
        let ghost before = entry_views(entries@);
        match found {
            Some(at) => {
                entries.push(
                    TrapEntry {
                        trap_index: index as u8,
                        script_path: slice_to_vec(records[at].script_path.as_slice()),
                    },
                );
                assert(entry_views(entries@) =~= before.push(
                    (index as int, records[at as int].script_path@),
                ));
            },
            None => {},
        }
        index = index + 1;
    }
    entries
}

} // verus!
