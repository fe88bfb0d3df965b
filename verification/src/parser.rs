//! Reading one session log: which messages count, how many lines each tool
//! call or reply adds, and which title the session gets.
use vstd::prelude::*;
use crate::json::{
    as_array, as_str, get, get_array, get_member, get_str, json_parse, parse_json, JsonValue,
};
use crate::text::{
    chars_of, newline_count, spec_count_lines, str_eq, spec_first_line, spec_trim,
    spec_truncate_display, first_line_chars, string_of, trim_chars, truncate_display,
};

verus! {

/// What one assistant message contributed: line counts and the metadata
/// that came with it.
#[derive(Debug)]
pub struct SessionEntry {
    pub write_lines: usize,
    pub edit_lines: usize,
    pub text_lines: usize,
    pub timestamp: Option<String>,
    pub session_id: Option<String>,
    pub title: Option<String>,
}

/// A `SessionEntry` as mathematical values.
pub struct EntryView {
    pub write_lines: nat,
    pub edit_lines: nat,
    pub text_lines: nat,
    pub timestamp: Option<Seq<char>>,
    pub session_id: Option<Seq<char>>,
    pub title: Option<Seq<char>>,
}

pub open spec fn opt_view(o: Option<String>) -> Option<Seq<char>> {
    match o {
        Some(s) => Some(s@),
        None => None,
    }
}

impl View for SessionEntry {
    type V = EntryView;

    open spec fn view(&self) -> EntryView {
        EntryView {
            write_lines: self.write_lines as nat,
            edit_lines: self.edit_lines as nat,
            text_lines: self.text_lines as nat,
            timestamp: opt_view(self.timestamp),
            session_id: opt_view(self.session_id),
            title: opt_view(self.title),
        }
    }
}

impl Default for SessionEntry {
    fn default() -> (e: SessionEntry)
        ensures
            e@ == (EntryView { write_lines: 0, edit_lines: 0, text_lines: 0, timestamp: None, session_id: None, title: None }),
    {
        SessionEntry { write_lines: 0, edit_lines: 0, text_lines: 0, timestamp: None, session_id: None, title: None }
    }
}

pub open spec fn entries_view(es: Seq<SessionEntry>) -> Seq<EntryView> {
    es.map_values(|e: SessionEntry| e@)
}

/// Lines written by `Write`, edited by `Edit`, and replied in text.
pub struct LineCounts {
    pub write: nat,
    pub edit: nat,
    pub text: nat,
}

pub open spec fn no_counts() -> LineCounts {
    LineCounts { write: 0, edit: 0, text: 0 }
}

pub open spec fn add_counts(a: LineCounts, b: LineCounts) -> LineCounts {
    LineCounts { write: a.write + b.write, edit: a.edit + b.edit, text: a.text + b.text }
}

pub open spec fn counts_fit(c: LineCounts) -> bool {
    c.write <= usize::MAX && c.edit <= usize::MAX && c.text <= usize::MAX
}

/// The lines that one item of a message's `content` adds: a `Write` tool call
/// adds the lines of its `input.content`, an `Edit` call those of its
/// `input.new_string`, a `text` item those of its `text`.
pub open spec fn item_counts(c: JsonValue) -> LineCounts {
    let ty = as_str(get(Some(c), "type"@));
    if ty == Some("tool_use"@) {
        let name = as_str(get(Some(c), "name"@));
        let input = get(Some(c), "input"@);
        if name == Some("Write"@) {
            match as_str(get(input, "content"@)) {
                Some(s) => LineCounts { write: spec_count_lines(s), edit: 0, text: 0 },
                None => no_counts(),
            }
        } else if name == Some("Edit"@) {
            match as_str(get(input, "new_string"@)) {
                Some(s) => LineCounts { write: 0, edit: spec_count_lines(s), text: 0 },
                None => no_counts(),
            }
        } else {
            no_counts()
        }
    } else if ty == Some("text"@) {
        match as_str(get(Some(c), "text"@)) {
            Some(s) => LineCounts { write: 0, edit: 0, text: spec_count_lines(s) },
            None => no_counts(),
        }
    } else {
        no_counts()
    }
}

/// The lines that all items of a message's `content` add.
pub open spec fn items_counts(cs: Seq<JsonValue>) -> LineCounts
    decreases cs.len(),
{
    if cs.len() == 0 {
        no_counts()
    } else {
        add_counts(items_counts(cs.drop_last()), item_counts(cs.last()))
    }
}

/// The title that a `text` item of a user message offers: its trimmed first
/// line cut to 20 columns, unless the text is empty or starts with `'<'`
/// (system or IDE context).
pub open spec fn item_title(c: JsonValue) -> Option<Seq<char>> {
    if as_str(get(Some(c), "type"@)) == Some("text"@) {
        match as_str(get(Some(c), "text"@)) {
            Some(t) => {
                let tt = spec_trim(t);
                if tt.len() == 0 || tt[0] == '<' {
                    None
                } else {
                    Some(spec_truncate_display(spec_first_line(tt), 20))
                }
            },
            None => None,
        }
    } else {
        None
    }
}

/// The title offered by the first item that offers one.
pub open spec fn first_title(cs: Seq<JsonValue>) -> Option<Seq<char>>
    decreases cs.len(),
{
    if cs.len() == 0 {
        None
    } else {
        match item_title(cs[0]) {
            Some(t) => Some(t),
            None => first_title(cs.drop_first()),
        }
    }
}

/// `message.content` of a record, when it is an array.
pub open spec fn message_items(v: JsonValue) -> Option<Seq<JsonValue>> {
    as_array(get(get(Some(v), "message"@), "content"@))
}

/// The entries found so far and the title waiting for an entry.
pub struct ParseState {
    pub entries: Seq<EntryView>,
    pub title: Option<Seq<char>>,
}

/// One record of a log. A user message sets the pending title while none is
/// pending; an assistant message whose items add lines becomes an entry, and
/// the first entry takes the pending title. Everything else is skipped.
pub open spec fn record_step(st: ParseState, rec: Option<JsonValue>) -> ParseState {
    match rec {
        None => st,
        Some(v) => {
            let ty = as_str(get(Some(v), "type"@));
            if ty == Some("user"@) && st.title is None {
                ParseState {
                    entries: st.entries,
                    title: match message_items(v) {
                        Some(cs) => first_title(cs),
                        None => None,
                    },
                }
            } else if ty == Some("assistant"@) {
                match message_items(v) {
                    None => st,
                    Some(cs) => {
                        let n = items_counts(cs);
                        if n.write > 0 || n.edit > 0 || n.text > 0 {
                            let first = st.entries.len() == 0;
                            let e = EntryView {
                                write_lines: n.write,
                                edit_lines: n.edit,
                                text_lines: n.text,
                                timestamp: as_str(get(Some(v), "timestamp"@)),
                                session_id: as_str(get(Some(v), "sessionId"@)),
                                title: if first { st.title } else { None },
                            };
                            ParseState {
                                entries: st.entries.push(e),
                                title: if first { None } else { st.title },
                            }
                        } else {
                            st
                        }
                    },
                }
            } else {
                st
            }
        },
    }
}

pub open spec fn fold_records(recs: Seq<Option<JsonValue>>) -> ParseState
    decreases recs.len(),
{
    if recs.len() == 0 {
        ParseState { entries: Seq::empty(), title: None }
    } else {
        record_step(fold_records(recs.drop_last()), recs.last())
    }
}

/// A title still pending at the end goes to the first entry if that has none.
pub open spec fn finish(st: ParseState) -> Seq<EntryView> {
    match st.title {
        Some(t) => if st.entries.len() > 0 && st.entries[0].title is None {
            st.entries.update(0, EntryView { title: Some(t), ..st.entries[0] })
        } else {
            st.entries
        },
        None => st.entries,
    }
}

/// The entries of a log whose lines were parsed into `recs` (`None` for a
/// line that is empty or not JSON).
pub open spec fn spec_entries(recs: Seq<Option<JsonValue>>) -> Seq<EntryView> {
    finish(fold_records(recs))
}

/// Every count of every entry fits in a `usize`.
pub open spec fn entries_fit(es: Seq<EntryView>) -> bool {
    forall|i: int|
        0 <= i < es.len() ==> {
            &&& #[trigger] es[i].write_lines <= usize::MAX
            &&& es[i].edit_lines <= usize::MAX
            &&& es[i].text_lines <= usize::MAX
        }
}

/// What a line of a log parses to: nothing for an empty line.
pub open spec fn line_record(line: Seq<char>) -> Option<JsonValue> {
    if line.len() == 0 { None } else { json_parse(line) }
}

pub open spec fn line_records(lines: Seq<String>) -> Seq<Option<JsonValue>> {
    lines.map_values(|l: String| line_record(l@))
}

// ---------------------------------------------------------------------------
// Proofs about the specification

proof fn lemma_items_counts_mono(cs: Seq<JsonValue>, i: int, j: int)
    requires
        0 <= i <= j <= cs.len(),
    ensures
        items_counts(cs.take(i)).write <= items_counts(cs.take(j)).write,
        items_counts(cs.take(i)).edit <= items_counts(cs.take(j)).edit,
        items_counts(cs.take(i)).text <= items_counts(cs.take(j)).text,
    decreases j - i,
{
    if i < j {
        lemma_items_counts_mono(cs, i, j - 1);
        assert(cs.take(j).drop_last() == cs.take(j - 1));
    }
}

proof fn lemma_fold_prefix(recs: Seq<Option<JsonValue>>, j: int)
    requires
        0 <= j <= recs.len(),
    ensures
        fold_records(recs.take(j)).entries.len() <= fold_records(recs).entries.len(),
        forall|k: int|
            0 <= k < fold_records(recs.take(j)).entries.len() ==> #[trigger] fold_records(recs).entries[k]
                == fold_records(recs.take(j)).entries[k],
    decreases recs.len(),
{
    if j < recs.len() {
        assert(recs.drop_last().take(j) == recs.take(j));
        lemma_fold_prefix(recs.drop_last(), j);
    } else {
        assert(recs.take(j) == recs);
    }
}

/// What the entries found so far satisfy: each counts some line, and only
/// the first may carry a title.
pub open spec fn entries_ok(es: Seq<EntryView>) -> bool {
    forall|i: int|
        0 <= i < es.len() ==> {
            &&& (#[trigger] es[i]).write_lines > 0 || es[i].edit_lines > 0 || es[i].text_lines > 0
            &&& i > 0 ==> es[i].title is None
        }
}

proof fn lemma_fold_ok(recs: Seq<Option<JsonValue>>)
    ensures
        entries_ok(fold_records(recs).entries),
    decreases recs.len(),
{
    if recs.len() > 0 {
        lemma_fold_ok(recs.drop_last());
        let st = fold_records(recs.drop_last());
        let es = fold_records(recs).entries;
        assert forall|i: int| 0 <= i < es.len() implies {
            &&& (#[trigger] es[i]).write_lines > 0 || es[i].edit_lines > 0 || es[i].text_lines > 0
            &&& i > 0 ==> es[i].title is None
        } by {
            if i < st.entries.len() {
                assert(es[i] == st.entries[i]);
            }
        }
    }
}

/// Every entry of a log counts at least one line, and only its first entry
/// can carry the session's title.
pub proof fn law_entries(recs: Seq<Option<JsonValue>>)
    ensures
        entries_ok(spec_entries(recs)),
        spec_entries(recs).len() == fold_records(recs).entries.len(),
{
    lemma_fold_ok(recs);
    let st = fold_records(recs);
    let es = spec_entries(recs);
    assert forall|i: int| 0 <= i < es.len() implies {
        &&& (#[trigger] es[i]).write_lines > 0 || es[i].edit_lines > 0 || es[i].text_lines > 0
        &&& i > 0 ==> es[i].title is None
    } by {
        assert(st.entries[i].write_lines > 0 || st.entries[i].edit_lines > 0 || st.entries[i].text_lines > 0);
    }
}

/// The title that a record offers: for a user message whose content is an
/// array, what its first offering item offers; nothing for any other record.
pub open spec fn offered_title(rec: Option<JsonValue>) -> Option<Seq<char>> {
    match rec {
        Some(v) => if as_str(get(Some(v), "type"@)) == Some("user"@) {
            match message_items(v) {
                Some(cs) => first_title(cs),
                None => None,
            }
        } else {
            None
        },
        None => None,
    }
}

/// The first title offered by any of the records, in order.
pub open spec fn first_offered(recs: Seq<Option<JsonValue>>) -> Option<Seq<char>>
    decreases recs.len(),
{
    if recs.len() == 0 {
        None
    } else {
        match first_offered(recs.drop_last()) {
            Some(t) => Some(t),
            None => offered_title(recs.last()),
        }
    }
}

proof fn lemma_fold_title(recs: Seq<Option<JsonValue>>)
    ensures
        fold_records(recs).entries.len() == 0 ==> fold_records(recs).title == first_offered(recs),
        fold_records(recs).entries.len() > 0 && fold_records(recs).entries[0].title is Some
            ==> fold_records(recs).entries[0].title == first_offered(recs),
        fold_records(recs).entries.len() > 0 && fold_records(recs).entries[0].title is None
            ==> fold_records(recs).title == first_offered(recs),
    decreases recs.len(),
{
    if recs.len() > 0 {
        lemma_fold_title(recs.drop_last());
        let st = fold_records(recs.drop_last());
        let st2 = fold_records(recs);
        if st.entries.len() > 0 {
            assert(st2.entries.len() > 0);
            assert(st2.entries[0] == st.entries[0]);
        }
    }
}

/// The session's title is the first title that a user message offers,
/// wherever that message stands: the first entry carries it (no title when
/// no user message offers one), later user messages never replace it, and
/// no other entry carries a title.
pub proof fn law_first_offered_title(recs: Seq<Option<JsonValue>>)
    ensures
        spec_entries(recs).len() > 0 ==> spec_entries(recs)[0].title == first_offered(recs),
        forall|i: int| 0 < i < spec_entries(recs).len() ==> (#[trigger] spec_entries(recs)[i]).title is None,
{
    lemma_fold_title(recs);
    law_entries(recs);
    let es = spec_entries(recs);
    assert forall|i: int| 0 < i < es.len() implies (#[trigger] es[i]).title is None by {
        assert(entries_ok(es));
    }
}

/// A record that leaves the parse as it is: an empty or unparsable line, or
/// a record whose `type` is neither `"user"` nor `"assistant"`.
pub open spec fn ignorable(rec: Option<JsonValue>) -> bool {
    match rec {
        None => true,
        Some(v) => {
            let ty = as_str(get(Some(v), "type"@));
            ty != Some("user"@) && ty != Some("assistant"@)
        },
    }
}

/// The records of a log without the ignorable ones, in their order.
pub open spec fn kept_records(recs: Seq<Option<JsonValue>>) -> Seq<Option<JsonValue>> {
    recs.filter(|r: Option<JsonValue>| !ignorable(r))
}

proof fn lemma_fold_kept(recs: Seq<Option<JsonValue>>)
    ensures
        fold_records(kept_records(recs)) == fold_records(recs),
    decreases recs.len(),
{
    reveal(Seq::filter);
    if recs.len() > 0 {
        lemma_fold_kept(recs.drop_last());
        let k = kept_records(recs);
        let kd = kept_records(recs.drop_last());
        if !ignorable(recs.last()) {
            assert(k == kd.push(recs.last()));
            assert(k.drop_last() == kd);
        } else {
            assert(k == kd);
        }
    }
}

/// Ignorable records do not change what a log yields: two logs whose
/// records agree once the ignorable ones are left out give the same entries.
pub proof fn law_ignorable_records(recs1: Seq<Option<JsonValue>>, recs2: Seq<Option<JsonValue>>)
    requires
        kept_records(recs1) == kept_records(recs2),
    ensures
        spec_entries(recs1) == spec_entries(recs2),
{
    lemma_fold_kept(recs1);
    lemma_fold_kept(recs2);
}

/// Inserting, anywhere in a log, a line that is empty, is not JSON, or holds
/// a record whose `type` is neither `"user"` nor `"assistant"` leaves its
/// entries as they were.
pub proof fn law_ignorable_line(lines: Seq<String>, i: int, line: String)
    requires
        0 <= i <= lines.len(),
        ignorable(line_record(line@)),
    ensures
        spec_entries(line_records(lines.insert(i, line))) == spec_entries(line_records(lines)),
{
    let recs = line_records(lines);
    let recs2 = line_records(lines.insert(i, line));
    assert(recs2 == recs.insert(i, line_record(line@)));
    let k1 = kept_records(recs);
    let k2 = kept_records(recs2);
    assert(recs2.take(i) == recs.take(i));
    assert(recs2.skip(i + 1) == recs.skip(i));
    assert(recs == recs.take(i) + recs.skip(i));
    assert(recs2 == recs.take(i) + seq![line_record(line@)] + recs.skip(i));
    let f = |r: Option<JsonValue>| !ignorable(r);
    Seq::filter_distributes_over_add(recs.take(i), recs.skip(i), f);
    Seq::filter_distributes_over_add(recs.take(i) + seq![line_record(line@)], recs.skip(i), f);
    Seq::filter_distributes_over_add(recs.take(i), seq![line_record(line@)], f);
    assert(seq![line_record(line@)].filter(f) == Seq::<Option<JsonValue>>::empty()) by {
        reveal_with_fuel(Seq::filter, 2);
        assert(seq![line_record(line@)].drop_last() == Seq::<Option<JsonValue>>::empty());
    }
    assert(k1 == k2);
    law_ignorable_records(recs, recs2);
}

// ---------------------------------------------------------------------------
// Executable parser

/// Number of lines of `s`, or `None` where that number exceeds `usize::MAX`.
fn checked_count_lines(s: &String) -> (r: Option<usize>)
    ensures
        match r {
            Some(n) => n == spec_count_lines(s@),
            None => spec_count_lines(s@) > usize::MAX,
        },
{
    let cs = chars_of(s.as_str());
    if cs.len() == 0 {
        Some(0)
    } else {
        let n = newline_count(&cs);
        n.checked_add(1)
    }
}

/// `item_counts`, or `None` where a count exceeds `usize::MAX`.
fn count_item(c: &JsonValue) -> (r: Option<(usize, usize, usize)>)
    ensures
        match r {
            Some((w, e, t)) => item_counts(*c) == (LineCounts { write: w as nat, edit: e as nat, text: t as nat }),
            None => !counts_fit(item_counts(*c)),
        },
{
    let ty = get_str(get_member(Some(c), "type"));
    let is_tool = match ty {
        Some(t) => str_eq(t.as_str(), "tool_use"),
        None => false,
    };
    let is_text = match ty {
        Some(t) => str_eq(t.as_str(), "text"),
        None => false,
    };
    if is_tool {
        let name = get_str(get_member(Some(c), "name"));
        let input = get_member(Some(c), "input");
        let is_write = match name {
            Some(n) => str_eq(n.as_str(), "Write"),
            None => false,
        };
        let is_edit = match name {
            Some(n) => str_eq(n.as_str(), "Edit"),
            None => false,
        };
        if is_write {
            match get_str(get_member(input, "content")) {
                Some(s) => match checked_count_lines(s) {
                    Some(n) => Some((n, 0, 0)),
                    None => None,
                },
                None => Some((0, 0, 0)),
            }
        } else if is_edit {
            match get_str(get_member(input, "new_string")) {
                Some(s) => match checked_count_lines(s) {
                    Some(n) => Some((0, n, 0)),
                    None => None,
                },
                None => Some((0, 0, 0)),
            }
        } else {
            Some((0, 0, 0))
        }
    } else if is_text {
        match get_str(get_member(Some(c), "text")) {
            Some(s) => match checked_count_lines(s) {
                Some(n) => Some((0, 0, n)),
                None => None,
            },
            None => Some((0, 0, 0)),
        }
    } else {
        Some((0, 0, 0))
    }
}

/// `items_counts`, or `None` where a count exceeds `usize::MAX`.
fn count_items(cs: &Vec<JsonValue>) -> (r: Option<(usize, usize, usize)>)
    ensures
        match r {
            Some((w, e, t)) => items_counts(cs@) == (LineCounts { write: w as nat, edit: e as nat, text: t as nat }),
            None => !counts_fit(items_counts(cs@)),
        },
{
    let mut w: usize = 0;
    let mut e: usize = 0;
    let mut t: usize = 0;
    let mut i: usize = 0;
    while i < cs.len()
        invariant
            i <= cs@.len(),
            items_counts(cs@.take(i as int)) == (LineCounts { write: w as nat, edit: e as nat, text: t as nat }),
        decreases cs.len() - i,
    {
        assert(cs@.take(i + 1).drop_last() == cs@.take(i as int));
        proof { lemma_items_counts_mono(cs@, i + 1, cs@.len() as int); }
        assert(cs@.take(cs@.len() as int) == cs@);
        match count_item(&cs[i]) {
            None => {
                return None;
            },
            Some((a, b, c)) => {
                match (w.checked_add(a), e.checked_add(b), t.checked_add(c)) {
                    (Some(w2), Some(e2), Some(t2)) => {
                        w = w2;
                        e = e2;
                        t = t2;
                    },
                    _ => {
                        return None;
                    },
                }
            },
        }
        i = i + 1;
    }
    assert(cs@.take(cs@.len() as int) == cs@);
    Some((w, e, t))
}

/// The title of a user message: what its first offering item offers.
fn title_of_items(cs: &Vec<JsonValue>) -> (r: Option<String>)
    ensures
        opt_view(r) == first_title(cs@),
{
    let mut i: usize = 0;
    assert(cs@.skip(0) == cs@);
    while i < cs.len()
        invariant
            i <= cs@.len(),
            first_title(cs@) == first_title(cs@.skip(i as int)),
        decreases cs.len() - i,
    {
        assert(cs@.skip(i as int)[0] == cs@[i as int]);
        assert(cs@.skip(i as int).drop_first() == cs@.skip(i + 1));
        let c = &cs[i];
        let ty = get_str(get_member(Some(c), "type"));
        let is_text = match ty {
            Some(t) => str_eq(t.as_str(), "text"),
            None => false,
        };
        if is_text {
            match get_str(get_member(Some(c), "text")) {
                Some(text) => {
                    let raw = chars_of(text.as_str());
                    let trimmed = trim_chars(&raw);
                    if trimmed.len() > 0 && trimmed[0] != '<' {
                        let line = first_line_chars(&trimmed);
                        let line_s = string_of(&line, 0, line.len());
                        assert(line@.subrange(0, line@.len() as int) == line@);
                        return Some(truncate_display(line_s.as_str(), 20));
                    }
                },
                None => {},
            }
        }
        i = i + 1;
    }
    None
}

/// Whether the record's `type` is `kind`.
fn has_type(v: &JsonValue, kind: &str) -> (r: bool)
    ensures
        r == (as_str(get(Some(*v), "type"@)) == Some(kind@)),
{
    match get_str(get_member(Some(v), "type")) {
        Some(t) => str_eq(t.as_str(), kind),
        None => false,
    }
}

fn clone_opt(s: Option<&String>) -> (r: Option<String>)
    ensures
        opt_view(r) == match s { Some(x) => Some(x@), None => None::<Seq<char>> },
{
    match s {
        Some(x) => Some(x.clone()),
        None => None,
    }
}

/// The entries of a log whose lines were parsed into `records` (`None` for
/// a line that is empty or not JSON). `None` where a count of an entry
/// exceeds `usize::MAX`.
pub fn entries_from_records(records: &Vec<Option<JsonValue>>) -> (r: Option<Vec<SessionEntry>>)
    ensures
        match r {
            Some(es) => entries_fit(spec_entries(records@)) && entries_view(es@) == spec_entries(records@),
            None => !entries_fit(spec_entries(records@)),
        },
{
    let mut entries: Vec<SessionEntry> = Vec::new();
    let mut title: Option<String> = None;
    let mut i: usize = 0;
    while i < records.len()
        invariant
            i <= records@.len(),
            entries_view(entries@) == fold_records(records@.take(i as int)).entries,
            opt_view(title) == fold_records(records@.take(i as int)).title,
            entries_fit(entries_view(entries@)),
        decreases records.len() - i,
    {
        assert(records@.take(i + 1).drop_last() == records@.take(i as int));
        let ghost st = fold_records(records@.take(i as int));
        match &records[i] {
            None => {},
            Some(v) => {
                if has_type(v, "user") && title.is_none() {
                    title = match get_array(get_member(get_member(Some(v), "message"), "content")) {
                        Some(cs) => title_of_items(cs),
                        None => None,
                    };
                } else if has_type(v, "assistant") {
                    match get_array(get_member(get_member(Some(v), "message"), "content")) {
                        None => {},
                        Some(cs) => {
                            match count_items(cs) {
                                None => {
                                    proof {
                                        lemma_fold_prefix(records@, i + 1);
                                        let k = st.entries.len() as int;
                                        assert(fold_records(records@.take(i + 1)).entries[k].write_lines
                                            == items_counts(cs@).write);
                                        assert(fold_records(records@).entries[k]
                                            == fold_records(records@.take(i + 1)).entries[k]);
                                        assert(records@.take(records@.len() as int) == records@);
                                        assert(spec_entries(records@)[k].write_lines == items_counts(cs@).write);
                                    }
                                    return None;
                                },
                                Some((w, e, t)) => {
                                    if w > 0 || e > 0 || t > 0 {
                                        let first = entries.len() == 0;
                                        let entry = SessionEntry {
                                            write_lines: w,
                                            edit_lines: e,
                                            text_lines: t,
                                            timestamp: clone_opt(get_str(get_member(Some(v), "timestamp"))),
                                            session_id: clone_opt(get_str(get_member(Some(v), "sessionId"))),
                                            title: if first { title.take() } else { None },
                                        };
                                        entries.push(entry);
                                        assert(entries_view(entries@) == fold_records(records@.take(i + 1)).entries);
                                    }
                                },
                            }
                        },
                    }
                }
            },
        }
        i = i + 1;
    }
    assert(records@.take(records@.len() as int) == records@);
    if let Some(t) = title {
        if entries.len() > 0 && entries[0].title.is_none() {
            entries[0].title = Some(t);
            assert(entries_view(entries@) == spec_entries(records@));
        }
    }
    Some(entries)
}

/// The entries of a log given as its lines. `None` where a count of an
/// entry exceeds `usize::MAX`.
pub fn parse_jsonl_file(lines: &Vec<String>) -> (r: Option<Vec<SessionEntry>>)
    ensures
        match r {
            Some(es) => entries_fit(spec_entries(line_records(lines@)))
                && entries_view(es@) == spec_entries(line_records(lines@)),
            None => !entries_fit(spec_entries(line_records(lines@))),
        },
{
    let mut records: Vec<Option<JsonValue>> = Vec::new();
    let mut i: usize = 0;
    while i < lines.len()
        invariant
            i <= lines@.len(),
            records@ == line_records(lines@).take(i as int),
        decreases lines.len() - i,
    {
        let line = &lines[i];
        let rec = if line.as_str().unicode_len() == 0 {
            None
        } else {
            parse_json(line.as_str())
        };
        records.push(rec);
        assert(records@ == line_records(lines@).take(i + 1));
        i = i + 1;
    }
    assert(line_records(lines@).take(lines@.len() as int) == line_records(lines@));
    entries_from_records(&records)
}

} // verus!
