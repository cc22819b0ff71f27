//! The state store: the line-oriented snapshot format. Each record is
//! `rel_path:size:tstamp:hash_hex`; blank lines and `#` comments are
//! ignored; a line without three colons is malformed and skipped with
//! a warning; numeric fields that do not parse degrade to zero.

use crate::digits::{dec_rep, is_digit, parse_u64_spec};
use crate::digits::{lemma_dec_rep_digits, lemma_dec_value_rep};
use crate::digits::{parse_u64_field, u64_to_dec};
use crate::entry::{lemma_entries_map_dom, lemma_sorted_paths_unique, paths_unique};
use crate::entry::{Entry, EntryModel, Index};
use crate::strutil::{find_char, find_char_at, is_ws, trim, trim_spec};
use crate::strutil::{lemma_find_char_exact, lemma_trim_noop};
use vstd::prelude::*;

verus! {

/// What one snapshot line denotes.
pub ghost enum LineParse {
    /// Empty after trimming, or a comment: carries no record.
    Blank,
    /// Fewer than four colon-separated fields: skipped with a warning.
    Malformed,
    /// A well-formed record.
    Record(EntryModel),
}

/// The four fields of a line with at least three colons: the text
/// before the first, between the first and second, between the second
/// and third, and everything after the third.
pub open spec fn split4_spec(t: Seq<char>) -> Option<(Seq<char>, Seq<char>, Seq<char>, Seq<char>)> {
    match find_char(t, ':', 0) {
        Option::None => Option::None,
        Option::Some(i1) => match find_char(t, ':', i1 + 1) {
            Option::None => Option::None,
            Option::Some(i2) => match find_char(t, ':', i2 + 1) {
                Option::None => Option::None,
                Option::Some(i3) => Option::Some(
                    (
                        t.subrange(0, i1),
                        t.subrange(i1 + 1, i2),
                        t.subrange(i2 + 1, i3),
                        t.subrange(i3 + 1, t.len() as int),
                    ),
                ),
            },
        },
    }
}

/// How the loader reads one line.
pub open spec fn parse_line_spec(line: Seq<char>) -> LineParse {
    let t = trim_spec(line);
    if t.len() == 0 || t[0] == '#' {
        LineParse::Blank
    } else {
        match split4_spec(t) {
            Option::None => LineParse::Malformed,
            Option::Some((a, b, c, d)) => LineParse::Record(
                EntryModel {
                    rel_path: a,
                    size: parse_u64_spec(b),
                    tstamp: parse_u64_spec(c),
                    hash_hex: d,
                },
            ),
        }
    }
}

/// The mapping a whole snapshot denotes: records folded in line
/// order, later records winning.
pub open spec fn snapshot_map(lines: Seq<Seq<char>>) -> Map<Seq<char>, EntryModel>
    decreases lines.len(),
{
    if lines.len() == 0 {
        Map::empty()
    } else {
        let m = snapshot_map(lines.drop_last());
        match parse_line_spec(lines.last()) {
            LineParse::Record(e) => m.insert(e.rel_path, e),
            _ => m,
        }
    }
}

/// The indices of the lines the loader skips with a warning, in
/// order: the malformed lines, and the record lines whose path
/// duplicates an earlier record.
pub open spec fn warned_lines(lines: Seq<Seq<char>>) -> Seq<int>
    decreases lines.len(),
{
    if lines.len() == 0 {
        Seq::empty()
    } else {
        let p = warned_lines(lines.drop_last());
        match parse_line_spec(lines.last()) {
            LineParse::Malformed => p.push(lines.len() - 1),
            LineParse::Record(e) => {
                if snapshot_map(lines.drop_last()).dom().contains(e.rel_path) {
                    p.push(lines.len() - 1)
                } else {
                    p
                }
            },
            LineParse::Blank => p,
        }
    }
}

/// A diagnostic for a line the loader had to skip.
#[derive(Debug)]
pub struct LoadWarning {
    /// Zero-based index of the offending line.
    pub line_no: usize,
    /// The offending line, as read.
    pub line: String,
}

/// The outcome of reading one line.
#[derive(Debug, PartialEq, Eq)]
pub enum LineOutcome {
    Blank,
    Malformed,
    Record(Entry),
}

/// Reads one snapshot line.
pub fn parse_line(line: &str) -> (r: LineOutcome)
    ensures
        match r {
            LineOutcome::Blank => parse_line_spec(line@) is Blank,
            LineOutcome::Malformed => parse_line_spec(line@) is Malformed,
            LineOutcome::Record(e) => parse_line_spec(line@) == LineParse::Record(e@),
        },
{
    let t = trim(line);
    let tlen = t.unicode_len();
    if tlen == 0 {
        return LineOutcome::Blank;
    }
    if t.get_char(0) as u32 == '#' as u32 {
        proof {
            vstd::utf8::char_u32_cast(t@[0], t@[0] as u32);
            vstd::utf8::char_u32_cast('#', '#' as u32);
        }
        return LineOutcome::Blank;
    }
    let i1 = match find_char_at(t, ':', 0) {
        Some(i) => i,
        None => {
            return LineOutcome::Malformed;
        },
    };
    assert(i1 < t@.len()) by {
        crate::strutil::lemma_find_char_props(t@, ':', 0);
    }
    let i2 = match find_char_at(t, ':', i1 + 1) {
        Some(i) => i,
        None => {
            return LineOutcome::Malformed;
        },
    };
    assert(i2 < t@.len()) by {
        crate::strutil::lemma_find_char_props(t@, ':', i1 as int + 1);
    }
    let i3 = match find_char_at(t, ':', i2 + 1) {
        Some(i) => i,
        None => {
            return LineOutcome::Malformed;
        },
    };
    assert(i3 < t@.len()) by {
        crate::strutil::lemma_find_char_props(t@, ':', i2 as int + 1);
    }
    let rel = t.substring_char(0, i1).to_owned();
    let size_field = t.substring_char(i1 + 1, i2);
    let tstamp_field = t.substring_char(i2 + 1, i3);
    let hash = t.substring_char(i3 + 1, tlen).to_owned();
    let size = parse_u64_field(size_field);
    let tstamp = parse_u64_field(tstamp_field);
    LineOutcome::Record(Entry::new(rel, size, tstamp, hash))
}

/// The record line an entry is persisted as.
pub open spec fn render_entry_spec(e: EntryModel) -> Seq<char> {
    e.rel_path + seq![':'] + dec_rep(e.size) + seq![':'] + dec_rep(e.tstamp) + seq![':']
        + e.hash_hex
}

/// Renders one entry as its snapshot record.
pub fn render_entry(e: &Entry) -> (r: String)
    ensures
        r@ == render_entry_spec(e@),
{
    proof {
        reveal_strlit(":");
    }
    let mut r = e.rel_path.clone();
    let size_field = u64_to_dec(e.size);
    let tstamp_field = u64_to_dec(e.tstamp);
    r.append(":");
    r.append(size_field.as_str());
    r.append(":");
    r.append(tstamp_field.as_str());
    r.append(":");
    r.append(e.hash_hex.as_str());
    proof {
        assert(r@ =~= render_entry_spec(e@));
    }
    r
}

/// The lines a snapshot of these entries consists of.
pub open spec fn render_snapshot_spec(s: Seq<EntryModel>) -> Seq<Seq<char>> {
    s.map_values(|e: EntryModel| render_entry_spec(e))
}

/// Renders a whole index, one record line per entry, in the index's
/// (sorted) order.
pub fn render_snapshot(index: &Index) -> (r: Vec<String>)
    ensures
        r.deep_view() == render_snapshot_spec(index.entries_view()),
{
    let n = index.len();
    let mut r: Vec<String> = Vec::new();
    let mut i: usize = 0;
    while i < n
        invariant
            i <= n == index.entries_view().len(),
            r@.len() == i,
            forall|k: int| 0 <= k < i ==> (#[trigger] r@[k])@ == render_entry_spec(
                index.entries_view()[k],
            ),
        decreases n - i,
    {
        let line = render_entry(index.at(i));
        r.push(line);
        i = i + 1;
    }
    proof {
        let target = render_snapshot_spec(index.entries_view());
        assert(r.deep_view().len() == r@.len());
        assert forall|k: int| 0 <= k < r@.len() implies r.deep_view()[k] == target[k] by {
            assert(r.deep_view()[k] == r@[k].deep_view());
        }
        assert(r.deep_view() =~= target);
    }
    r
}

/// An entry the snapshot format can carry faithfully: no colon or
/// newline inside the path, a path that does not start like a comment
/// or with whitespace, and a digest that does not end in whitespace
/// or carry a newline.
pub open spec fn persistable(e: EntryModel) -> bool {
    &&& !e.rel_path.contains(':')
    &&& !e.rel_path.contains('\n')
    &&& !e.hash_hex.contains('\n')
    &&& (e.rel_path.len() > 0 ==> !is_ws(e.rel_path[0]) && e.rel_path[0] != '#')
    &&& (e.hash_hex.len() > 0 ==> !is_ws(e.hash_hex.last()))
}

/// A persistable entry's record line parses back to the entry itself.
pub proof fn lemma_parse_render_entry(e: EntryModel)
    requires
        persistable(e),
    ensures
        parse_line_spec(render_entry_spec(e)) == LineParse::Record(e),
{
    let line = render_entry_spec(e);
    let rl = e.rel_path.len() as int;
    let b = dec_rep(e.size);
    let c = dec_rep(e.tstamp);
    let i1 = rl;
    let i2 = i1 + 1 + b.len() as int;
    let i3 = i2 + 1 + c.len() as int;
    lemma_dec_rep_digits(e.size);
    lemma_dec_rep_digits(e.tstamp);
    assert(line.len() == i3 + 1 + e.hash_hex.len());
    assert forall|j: int| 0 <= j < rl implies line[j] == e.rel_path[j] by {}
    assert(line[i1] == ':');
    assert forall|j: int| i1 + 1 <= j < i2 implies line[j] == b[j - (i1 + 1)] by {}
    assert(line[i2] == ':');
    assert forall|j: int| i2 + 1 <= j < i3 implies line[j] == c[j - (i2 + 1)] by {}
    assert(line[i3] == ':');
    assert forall|j: int| i3 + 1 <= j < line.len() implies line[j] == e.hash_hex[
        j - (i3 + 1)
    ] by {}

    // the line's ends hold no whitespace, so trimming does nothing
    assert(!is_ws(line[0]) && line[0] != '#') by {
        if e.rel_path.len() > 0 {
            assert(line[0] == e.rel_path[0]);
        } else {
            assert(line[0] == ':');
        }
    }
    assert(!is_ws(line.last())) by {
        if e.hash_hex.len() > 0 {
            assert(line.last() == e.hash_hex[e.hash_hex.len() - 1]);
        } else {
            assert(line.last() == ':');
        }
    }
    lemma_trim_noop(line);

    // a digit is never a colon
    assert forall|j: int| 0 <= j < b.len() implies b[j] != ':' by {
        assert(is_digit(b[j]));
    }
    assert forall|j: int| 0 <= j < c.len() implies c[j] != ':' by {
        assert(is_digit(c[j]));
    }
    // the path holds no colon
    assert forall|j: int| 0 <= j < rl implies line[j] != ':' by {
        if line[j] == ':' {
            assert(e.rel_path[j] == ':');
            assert(e.rel_path.contains(':'));
        }
    }
    lemma_find_char_exact(line, ':', 0, i1);
    lemma_find_char_exact(line, ':', i1 + 1, i2);
    lemma_find_char_exact(line, ':', i2 + 1, i3);

    let parts = split4_spec(line);
    assert(parts is Some);
    let (pa, pb, pc, pd) = parts.unwrap();
    assert(pa =~= e.rel_path);
    assert(pb =~= b);
    assert(pc =~= c);
    assert(pd =~= e.hash_hex);

    lemma_dec_value_rep(e.size);
    lemma_dec_value_rep(e.tstamp);
    assert(parse_u64_spec(b) == e.size);
    assert(parse_u64_spec(c) == e.tstamp);

    match parse_line_spec(line) {
        LineParse::Record(r) => {
            assert(r =~= e);
        },
        _ => {
            assert(false);
        },
    }
}

/// The round-trip law of the state store: loading the lines a
/// snapshot was saved as reconstructs exactly the mapping that was
/// saved — same keys, same field values — and raises no warning, as
/// long as every entry is one the format can carry and no path
/// repeats.
pub proof fn lemma_snapshot_round_trip(entries: Seq<EntryModel>)
    requires
        forall|i: int| 0 <= i < entries.len() ==> persistable(#[trigger] entries[i]),
        paths_unique(entries),
    ensures
        snapshot_map(render_snapshot_spec(entries)) == crate::entry::entries_map(entries),
        warned_lines(render_snapshot_spec(entries)) == Seq::<int>::empty(),
    decreases entries.len(),
{
    let lines = render_snapshot_spec(entries);
    if entries.len() == 0 {
        assert(lines =~= Seq::<Seq<char>>::empty());
    } else {
        assert(lines.drop_last() =~= render_snapshot_spec(entries.drop_last()));
        assert(forall|i: int|
            0 <= i < entries.len() - 1 ==> #[trigger] entries.drop_last()[i] == entries[i]);
        lemma_snapshot_round_trip(entries.drop_last());
        lemma_parse_render_entry(entries.last());
        assert(lines.last() == render_entry_spec(entries.last()));
        // the last record's path is new, so it raises no warning
        let last = entries.last();
        lemma_entries_map_dom(entries.drop_last(), last.rel_path);
        assert(!snapshot_map(lines.drop_last()).dom().contains(last.rel_path)) by {
            if exists|i: int| 0 <= i < entries.len() - 1 && (#[trigger] entries.drop_last()[
                i
            ]).rel_path == last.rel_path {
                let i = choose|i: int| 0 <= i < entries.len() - 1 && (
                #[trigger] entries.drop_last()[i]).rel_path == last.rel_path;
                assert(entries[i].rel_path == entries[entries.len() - 1].rel_path);
            }
        }
    }
}

/// The round-trip law stated of an index: `load(save(index))` equals
/// `index`, with no warnings.
pub proof fn lemma_index_round_trip(index: Index)
    requires
        index.wf(),
        forall|i: int| 0 <= i < index.entries_view().len() ==> persistable(
            #[trigger] index.entries_view()[i],
        ),
    ensures
        snapshot_map(render_snapshot_spec(index.entries_view())) == index.as_map(),
        warned_lines(render_snapshot_spec(index.entries_view())) == Seq::<int>::empty(),
{
    lemma_sorted_paths_unique(index.entries_view());
    lemma_snapshot_round_trip(index.entries_view());
}

/// Reads a whole snapshot, line by line: well-formed records fold
/// into the index (last record for a path wins); malformed lines and
/// records whose path duplicates an earlier record are reported with
/// a warning; blank and comment lines are ignored.
pub fn parse_snapshot(lines: &Vec<String>) -> (r: (Index, Vec<LoadWarning>))
    ensures
        r.0.wf(),
        r.0.as_map() == snapshot_map(lines.deep_view()),
        r.1@.map_values(|w: LoadWarning| w.line_no as int) == warned_lines(lines.deep_view()),
        forall|k: int| 0 <= k < r.1@.len() ==> (#[trigger] r.1@[k]).line_no < lines@.len(),
        forall|k: int| 0 <= k < r.1@.len() ==> (#[trigger] r.1@[k]).line@ == lines.deep_view()[
            r.1@[k].line_no as int
        ],
{
    let n = lines.len();
    let mut index = Index::new();
    let mut warnings: Vec<LoadWarning> = Vec::new();
    let mut i: usize = 0;
    while i < n
        invariant
            i <= n == lines@.len(),
            lines.deep_view().len() == n,
            index.wf(),
            index.as_map() == snapshot_map(lines.deep_view().take(i as int)),
            warnings@.map_values(|w: LoadWarning| w.line_no as int) == warned_lines(
                lines.deep_view().take(i as int),
            ),
            forall|k: int| 0 <= k < warnings@.len() ==> (#[trigger] warnings@[k]).line_no < i,
            forall|k: int| 0 <= k < warnings@.len() ==> (#[trigger] warnings@[k]).line@
                == lines.deep_view()[warnings@[k].line_no as int],
        decreases n - i,
    {
        proof {
            assert(lines.deep_view().take(i as int + 1).drop_last() =~= lines.deep_view().take(
                i as int,
            ));
            assert(lines.deep_view()[i as int] == lines@[i as int]@);
        }
        match parse_line(lines[i].as_str()) {
            LineOutcome::Blank => {},
            LineOutcome::Malformed => {
                let ghost prev = warnings@;
                let w = LoadWarning { line_no: i, line: lines[i].clone() };
                warnings.push(w);
                proof {
                    assert(warnings@.map_values(|w: LoadWarning| w.line_no as int)
                        =~= warned_lines(lines.deep_view().take(i as int + 1)));
                    assert forall|k: int| 0 <= k < warnings@.len() implies (#[trigger] warnings@[
                        k
                    ]).line@ == lines.deep_view()[warnings@[k].line_no as int] && warnings@[
                        k
                    ].line_no < i + 1 by {
                        if k < prev.len() {
                            assert(warnings@[k] == prev[k]);
                        }
                    }
                }
            },
            LineOutcome::Record(e) => {
                if index.get(e.rel_path.as_str()).is_some() {
                    let ghost prev = warnings@;
                    let w = LoadWarning { line_no: i, line: lines[i].clone() };
                    warnings.push(w);
                    proof {
                        assert forall|k: int| 0 <= k < warnings@.len() implies (
                        #[trigger] warnings@[k]).line@ == lines.deep_view()[warnings@[
                            k
                        ].line_no as int] && warnings@[k].line_no < i + 1 by {
                            if k < prev.len() {
                                assert(warnings@[k] == prev[k]);
                            }
                        }
                    }
                }
                proof {
                    assert(warnings@.map_values(|w: LoadWarning| w.line_no as int)
                        =~= warned_lines(lines.deep_view().take(i as int + 1)));
                }
                index.insert(e);
            },
        }
        i = i + 1;
    }
    proof {
        assert(lines.deep_view().take(n as int) =~= lines.deep_view());
    }
    (index, warnings)
}

} // verus!
