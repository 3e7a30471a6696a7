//! The loader: turn the text of a `;`-delimited birthday list into
//! entries. Each row with at least two fields contributes either an entry
//! (name, parsed `DD.MM.YYYY` date) or a skipped-row record naming the row
//! and its unparseable date text; shorter rows are passed over silently.

use vstd::prelude::*;
use vstd::string::StrSliceExecFns;
use vstd::string::StringExecFns;

use crate::date::Date;
use crate::evaluate::BirthdayEntry;

verus! {

/// A row whose date field did not parse: kept for diagnostics, naming the
/// row and the offending text.
#[derive(Clone, Debug, PartialEq)]
pub struct SkippedRow {
    pub name: String,
    pub date_text: String,
}

/// Spec-level image of an entry: the name's characters and the date.
pub struct EntryView {
    pub name: Seq<char>,
    pub birth_date: Date,
}

/// Spec-level image of a skipped row.
pub struct SkippedView {
    pub name: Seq<char>,
    pub date_text: Seq<char>,
}

impl View for BirthdayEntry {
    type V = EntryView;

    open spec fn view(&self) -> EntryView {
        EntryView { name: self.name@, birth_date: self.birth_date }
    }
}

impl View for SkippedRow {
    type V = SkippedView;

    open spec fn view(&self) -> SkippedView {
        SkippedView { name: self.name@, date_text: self.date_text@ }
    }
}

/// Split at every occurrence of `c`; n separators give n + 1 pieces, and
/// the empty text gives one empty piece.
pub open spec fn spec_split(s: Seq<char>, c: char) -> Seq<Seq<char>>
    decreases s.len(),
{
    if s.len() == 0 {
        seq![Seq::<char>::empty()]
    } else if s[0] == c {
        seq![Seq::<char>::empty()] + spec_split(s.drop_first(), c)
    } else {
        let rest = spec_split(s.drop_first(), c);
        seq![seq![s[0]] + rest[0]] + rest.drop_first()
    }
}

proof fn lemma_split_nonempty(s: Seq<char>, c: char)
    ensures
        spec_split(s, c).len() >= 1,
    decreases s.len(),
{
    if s.len() > 0 {
        lemma_split_nonempty(s.drop_first(), c);
    }
}

proof fn lemma_split_no_sep(s: Seq<char>, c: char)
    requires
        forall|k: int| 0 <= k < s.len() ==> s[k] != c,
    ensures
        spec_split(s, c) == seq![s],
    decreases s.len(),
{
    if s.len() == 0 {
        assert(s =~= Seq::<char>::empty());
        assert(spec_split(s, c) =~= seq![s]);
    } else {
        lemma_split_no_sep(s.drop_first(), c);
        let rest = spec_split(s.drop_first(), c);
        assert(rest[0] == s.drop_first());
        assert(seq![s[0]] + rest[0] =~= s);
        assert(spec_split(s, c) =~= seq![s]);
    }
}

proof fn lemma_split_first_sep(s: Seq<char>, c: char, i: int)
    requires
        0 <= i < s.len(),
        s[i] == c,
        forall|k: int| 0 <= k < i ==> s[k] != c,
    ensures
        spec_split(s, c) == seq![s.take(i)] + spec_split(s.skip(i + 1), c),
    decreases i,
{
    if i == 0 {
        assert(s.take(0) =~= Seq::<char>::empty());
        assert(s.skip(1) =~= s.drop_first());
        assert(spec_split(s, c) =~= seq![s.take(0)] + spec_split(s.skip(1), c));
    } else {
        let tail = s.drop_first();
        assert(forall|k: int| 0 <= k < i - 1 ==> tail[k] != c);
        lemma_split_first_sep(tail, c, i - 1);
        let rest = spec_split(tail, c);
        lemma_split_nonempty(tail.skip(i), c);
        assert(rest[0] == tail.take(i - 1));
        assert(seq![s[0]] + tail.take(i - 1) =~= s.take(i));
        assert(rest.drop_first() =~= spec_split(tail.skip(i), c));
        assert(tail.skip(i) =~= s.skip(i + 1));
        assert(spec_split(s, c) =~= seq![s.take(i)] + spec_split(s.skip(i + 1), c));
    }
}

/// The views of a vector of strings.
pub open spec fn views_of_strings(v: Seq<String>) -> Seq<Seq<char>> {
    v.map_values(|t: String| t@)
}

/// Exec form of `spec_split`.
pub fn split_str(s: &str, sep: char) -> (r: Vec<String>)
    ensures
        views_of_strings(r@) == spec_split(s@, sep),
{
    let n: usize = s.unicode_len();
    let mut out: Vec<String> = Vec::new();
    let mut start: usize = 0;
    let mut i: usize = 0;
    proof {
        assert(s@.skip(0) =~= s@);
        assert(views_of_strings(out@) =~= Seq::<Seq<char>>::empty());
    }
    while i < n
        invariant
            start <= i <= n,
            n == s@.len(),
            spec_split(s@, sep) == views_of_strings(out@) + spec_split(s@.skip(start as int), sep),
            forall|k: int| start <= k < i ==> s@[k] != sep,
        decreases n - i,
    {
        let ch = s.get_char(i);
        if ch == sep {
            let piece = String::from_str(s.substring_char(start, i));
            proof {
                let tail = s@.skip(start as int);
                lemma_split_first_sep(tail, sep, i - start);
                assert(tail.take(i - start) =~= s@.subrange(start as int, i as int));
                assert(tail.skip(i - start + 1) =~= s@.skip(i + 1));
                assert(views_of_strings(out@.push(piece)) =~= views_of_strings(out@).push(piece@));
                assert(views_of_strings(out@).push(piece@) + spec_split(s@.skip(i + 1), sep)
                    =~= views_of_strings(out@) + (seq![piece@] + spec_split(s@.skip(i + 1), sep)));
            }
            out.push(piece);
            start = i + 1;
        }
        i = i + 1;
    }
    let piece = String::from_str(s.substring_char(start, n));
    proof {
        let tail = s@.skip(start as int);
        lemma_split_no_sep(tail, sep);
        assert(tail =~= s@.subrange(start as int, n as int));
        assert(views_of_strings(out@.push(piece)) =~= views_of_strings(out@).push(piece@));
        assert(views_of_strings(out@).push(piece@) =~= views_of_strings(out@) + seq![piece@]);
    }
    out.push(piece);
    out
}

/// A line's trailing carriage return, if any, is not part of the record.
pub open spec fn spec_strip_cr(l: Seq<char>) -> Seq<char> {
    if l.len() > 0 && l.last() == '\r' {
        l.drop_last()
    } else {
        l
    }
}

fn strip_cr(line: &str) -> (r: String)
    ensures
        r@ == spec_strip_cr(line@),
{
    let n: usize = line.unicode_len();
    if n > 0 && line.get_char(n - 1) == '\r' {
        let r = String::from_str(line.substring_char(0, n - 1));
        proof {
            assert(line@.subrange(0, n - 1) =~= line@.drop_last());
        }
        r
    } else {
        String::from_str(line)
    }
}

/// Value of a decimal digit; 10 for every other character.
pub open spec fn spec_digit_val(c: char) -> int {
    if c == '0' {
        0
    } else if c == '1' {
        1
    } else if c == '2' {
        2
    } else if c == '3' {
        3
    } else if c == '4' {
        4
    } else if c == '5' {
        5
    } else if c == '6' {
        6
    } else if c == '7' {
        7
    } else if c == '8' {
        8
    } else if c == '9' {
        9
    } else {
        10
    }
}

pub open spec fn spec_is_digit(c: char) -> bool {
    spec_digit_val(c) < 10
}

fn digit_val(c: char) -> (r: u32)
    ensures
        r as int == spec_digit_val(c),
{
    match c {
        '0' => 0,
        '1' => 1,
        '2' => 2,
        '3' => 3,
        '4' => 4,
        '5' => 5,
        '6' => 6,
        '7' => 7,
        '8' => 8,
        '9' => 9,
        _ => 10,
    }
}

/// The date a text denotes in the fixed `DD.MM.YYYY` pattern: exactly ten
/// characters, two-digit day, two-digit month, four-digit year, forming a
/// real calendar date; anything else denotes none.
pub open spec fn spec_parse_date(s: Seq<char>) -> Option<Date> {
    if s.len() == 10 && s[2] == '.' && s[5] == '.' && spec_is_digit(s[0]) && spec_is_digit(s[1])
        && spec_is_digit(s[3]) && spec_is_digit(s[4]) && spec_is_digit(s[6]) && spec_is_digit(s[7])
        && spec_is_digit(s[8]) && spec_is_digit(s[9]) {
        let day = 10 * spec_digit_val(s[0]) + spec_digit_val(s[1]);
        let month = 10 * spec_digit_val(s[3]) + spec_digit_val(s[4]);
        let year = 1000 * spec_digit_val(s[6]) + 100 * spec_digit_val(s[7]) + 10 * spec_digit_val(
            s[8],
        ) + spec_digit_val(s[9]);
        let d = Date { year: year as i32, month: month as u32, day: day as u32 };
        if d.calendar_valid() {
            Some(d)
        } else {
            None
        }
    } else {
        None
    }
}

/// Exec form of `spec_parse_date`. The parsed date, when there is one, is
/// fully valid: its year lies in 0..=9999.
pub fn parse_date(s: &str) -> (r: Option<Date>)
    ensures
        r == spec_parse_date(s@),
        r is Some ==> r.unwrap().valid(),
{
    if s.unicode_len() != 10 {
        return None;
    }
    if s.get_char(2) != '.' || s.get_char(5) != '.' {
        return None;
    }
    let d0 = digit_val(s.get_char(0));
    let d1 = digit_val(s.get_char(1));
    let m0 = digit_val(s.get_char(3));
    let m1 = digit_val(s.get_char(4));
    let y0 = digit_val(s.get_char(6));
    let y1 = digit_val(s.get_char(7));
    let y2 = digit_val(s.get_char(8));
    let y3 = digit_val(s.get_char(9));
    if d0 >= 10 || d1 >= 10 || m0 >= 10 || m1 >= 10 || y0 >= 10 || y1 >= 10 || y2 >= 10 || y3
        >= 10 {
        return None;
    }
    let day: u32 = 10 * d0 + d1;
    let month: u32 = 10 * m0 + m1;
    let year: u32 = 1000 * y0 + 100 * y1 + 10 * y2 + y3;
    let d = Date { year: year as i32, month, day };
    if 1 <= month && month <= 12 && 1 <= day && day <= Date::days_in_month(year as i32, month) {
        Some(d)
    } else {
        None
    }
}

/// The entry a row yields: its first field as the name and its second as
/// the date, provided the row has two fields and the date parses.
pub open spec fn spec_row_entry(line: Seq<char>) -> Option<EntryView> {
    let fields = spec_split(line, ';');
    if fields.len() < 2 {
        None
    } else {
        match spec_parse_date(fields[1]) {
            Some(d) => Some(EntryView { name: fields[0], birth_date: d }),
            None => None,
        }
    }
}

/// The diagnostic a row yields: present exactly when the row has two
/// fields but its date text does not parse.
pub open spec fn spec_row_skip(line: Seq<char>) -> Option<SkippedView> {
    let fields = spec_split(line, ';');
    if fields.len() < 2 {
        None
    } else {
        match spec_parse_date(fields[1]) {
            Some(d) => None,
            None => Some(SkippedView { name: fields[0], date_text: fields[1] }),
        }
    }
}

/// The records of the text: split at every newline, each line without its
/// trailing carriage return.
pub open spec fn spec_lines(text: Seq<char>) -> Seq<Seq<char>> {
    spec_split(text, '\n').map_values(|l: Seq<char>| spec_strip_cr(l))
}

/// The entries of the given lines, in source order.
pub open spec fn spec_entries_of(lines: Seq<Seq<char>>) -> Seq<EntryView>
    decreases lines.len(),
{
    if lines.len() == 0 {
        Seq::empty()
    } else {
        spec_entries_of(lines.drop_last()) + match spec_row_entry(lines.last()) {
            Some(e) => seq![e],
            None => Seq::empty(),
        }
    }
}

/// The skipped-row diagnostics of the given lines, in source order.
pub open spec fn spec_skipped_of(lines: Seq<Seq<char>>) -> Seq<SkippedView>
    decreases lines.len(),
{
    if lines.len() == 0 {
        Seq::empty()
    } else {
        spec_skipped_of(lines.drop_last()) + match spec_row_skip(lines.last()) {
            Some(k) => seq![k],
            None => Seq::empty(),
        }
    }
}

/// The entries the whole text denotes.
pub open spec fn spec_load_entries(text: Seq<char>) -> Seq<EntryView> {
    spec_entries_of(spec_lines(text))
}

/// The diagnostics the whole text denotes.
pub open spec fn spec_load_skipped(text: Seq<char>) -> Seq<SkippedView> {
    spec_skipped_of(spec_lines(text))
}

/// The views of a vector of entries.
pub open spec fn views_of_entries(v: Seq<BirthdayEntry>) -> Seq<EntryView> {
    v.map_values(|e: BirthdayEntry| e@)
}

/// The views of a vector of skipped rows.
pub open spec fn views_of_skipped(v: Seq<SkippedRow>) -> Seq<SkippedView> {
    v.map_values(|k: SkippedRow| k@)
}

/// Load entries from the text of a birthday list. Valid rows become
/// entries, with name and date taken verbatim and the source order kept;
/// rows with two fields and an unparseable date become diagnostics; rows
/// with fewer than two fields are skipped silently. Every input text is
/// accepted: a bad row never aborts the load.
pub fn load(text: &str) -> (r: (Vec<BirthdayEntry>, Vec<SkippedRow>))
    ensures
        views_of_entries(r.0@) == spec_load_entries(text@),
        views_of_skipped(r.1@) == spec_load_skipped(text@),
        forall|i: int| 0 <= i < r.0@.len() ==> (#[trigger] r.0@[i]).birth_date.valid(),
{
    let raw_lines = split_str(text, '\n');
    let mut entries: Vec<BirthdayEntry> = Vec::new();
    let mut skipped: Vec<SkippedRow> = Vec::new();
    let ghost lines = spec_lines(text@);
    let mut i: usize = 0;
    proof {
        assert(lines.subrange(0, 0) =~= Seq::<Seq<char>>::empty());
        assert(views_of_entries(entries@) =~= Seq::<EntryView>::empty());
        assert(views_of_skipped(skipped@) =~= Seq::<SkippedView>::empty());
    }
    while i < raw_lines.len()
        invariant
            i <= raw_lines@.len(),
            views_of_strings(raw_lines@) == spec_split(text@, '\n'),
            lines == spec_lines(text@),
            views_of_entries(entries@) == spec_entries_of(lines.subrange(0, i as int)),
            views_of_skipped(skipped@) == spec_skipped_of(lines.subrange(0, i as int)),
            forall|k: int| 0 <= k < entries@.len() ==> (#[trigger] entries@[k]).birth_date.valid(),
        decreases raw_lines@.len() - i,
    {
        let line = strip_cr(raw_lines[i].as_str());
        proof {
            assert(lines[i as int] == line@);
            assert(lines.subrange(0, i + 1).drop_last() =~= lines.subrange(0, i as int));
            assert(lines.subrange(0, i + 1).last() == lines[i as int]);
        }
        let fields = split_str(line.as_str(), ';');
        if fields.len() >= 2 {
            proof {
                assert(views_of_strings(fields@)[0] == fields@[0]@);
                assert(views_of_strings(fields@)[1] == fields@[1]@);
            }
            match parse_date(fields[1].as_str()) {
                Some(d) => {
                    let entry = BirthdayEntry { name: fields[0].clone(), birth_date: d };
                    proof {
                        assert(views_of_entries(entries@.push(entry)) =~= views_of_entries(
                            entries@,
                        ).push(entry@));
                        assert(views_of_entries(entries@).push(entry@) =~= views_of_entries(
                            entries@,
                        ) + seq![entry@]);
                        assert(views_of_skipped(skipped@) =~= spec_skipped_of(
                            lines.subrange(0, i + 1),
                        ));
                    }
                    entries.push(entry);
                },
                None => {
                    let skip = SkippedRow {
                        name: fields[0].clone(),
                        date_text: fields[1].clone(),
                    };
                    proof {
                        assert(views_of_skipped(skipped@.push(skip)) =~= views_of_skipped(
                            skipped@,
                        ).push(skip@));
                        assert(views_of_skipped(skipped@).push(skip@) =~= views_of_skipped(
                            skipped@,
                        ) + seq![skip@]);
                        assert(views_of_entries(entries@) =~= spec_entries_of(
                            lines.subrange(0, i + 1),
                        ));
                    }
                    skipped.push(skip);
                },
            }
        } else {
            proof {
                assert(views_of_entries(entries@) =~= spec_entries_of(lines.subrange(0, i + 1)));
                assert(views_of_skipped(skipped@) =~= spec_skipped_of(lines.subrange(0, i + 1)));
            }
        }
        i = i + 1;
    }
    proof {
        assert(lines.subrange(0, lines.len() as int) =~= lines);
    }
    (entries, skipped)
}

} // verus!
