//! Statistics per session and per project, and how session logs are
//! grouped into them.
use vstd::prelude::*;
use crate::parser::{EntryView, LineCounts, SessionEntry, add_counts, entries_view, no_counts};
use crate::text::{chars_of, push_char, push_chars, seq_less, str_eq, str_less, string_of};

verus! {

/// Lines written, edited and replied.
#[derive(Debug)]
pub struct Stats {
    pub write_lines: usize,
    pub edit_lines: usize,
    pub text_lines: usize,
}

impl View for Stats {
    type V = LineCounts;

    open spec fn view(&self) -> LineCounts {
        LineCounts {
            write: self.write_lines as nat,
            edit: self.edit_lines as nat,
            text: self.text_lines as nat,
        }
    }
}

/// Lines of code: written plus edited.
pub open spec fn code_total_of(c: LineCounts) -> nat {
    c.write + c.edit
}

/// All lines: written, edited and replied.
pub open spec fn total_of(c: LineCounts) -> nat {
    c.write + c.edit + c.text
}

impl Default for Stats {
    fn default() -> (s: Stats)
        ensures
            s@ == no_counts(),
    {
        Stats { write_lines: 0, edit_lines: 0, text_lines: 0 }
    }
}

impl Clone for Stats {
    fn clone(&self) -> (s: Stats)
        ensures
            s == *self,
    {
        Stats { write_lines: self.write_lines, edit_lines: self.edit_lines, text_lines: self.text_lines }
    }
}

impl Stats {
    /// Lines of code: written plus edited.
    pub fn code_total(&self) -> (n: usize)
        requires
            code_total_of(self@) <= usize::MAX,
        ensures
            n == code_total_of(self@),
    {
        self.write_lines + self.edit_lines
    }

    /// All lines: written, edited and replied.
    pub fn total(&self) -> (n: usize)
        requires
            total_of(self@) <= usize::MAX,
        ensures
            n == total_of(self@),
    {
        self.write_lines + self.edit_lines + self.text_lines
    }

    /// Adds `other` to these statistics, field by field.
    pub fn add(&mut self, other: &Stats)
        requires
            add_counts(old(self)@, other@).write <= usize::MAX,
            add_counts(old(self)@, other@).edit <= usize::MAX,
            add_counts(old(self)@, other@).text <= usize::MAX,
        ensures
            final(self)@ == add_counts(old(self)@, other@),
    {
        self.write_lines = self.write_lines + other.write_lines;
        self.edit_lines = self.edit_lines + other.edit_lines;
        self.text_lines = self.text_lines + other.text_lines;
    }
}

/// Adding statistics is commutative and associative, and adding nothing
/// changes nothing; code lines never exceed all lines.
pub proof fn law_add_counts(a: LineCounts, b: LineCounts, c: LineCounts)
    ensures
        add_counts(a, b) == add_counts(b, a),
        add_counts(add_counts(a, b), c) == add_counts(a, add_counts(b, c)),
        add_counts(a, no_counts()) == a,
        total_of(add_counts(a, b)) == total_of(a) + total_of(b),
        code_total_of(a) <= total_of(a),
{
}

/// One session of a project, as displayed.
#[derive(Debug)]
pub struct SessionStats {
    pub date: String,
    pub title: String,
    pub stats: Stats,
}

/// One project with its sessions, as displayed.
#[derive(Debug)]
pub struct ProjectStats {
    pub name: String,
    pub stats: Stats,
    pub sessions: Vec<SessionStats>,
}

pub struct SessionStatsView {
    pub date: Seq<char>,
    pub title: Seq<char>,
    pub stats: LineCounts,
}

pub struct ProjectStatsView {
    pub name: Seq<char>,
    pub stats: LineCounts,
    pub sessions: Seq<SessionStatsView>,
}

impl View for SessionStats {
    type V = SessionStatsView;

    open spec fn view(&self) -> SessionStatsView {
        SessionStatsView { date: self.date@, title: self.title@, stats: self.stats@ }
    }
}

impl View for ProjectStats {
    type V = ProjectStatsView;

    open spec fn view(&self) -> ProjectStatsView {
        ProjectStatsView {
            name: self.name@,
            stats: self.stats@,
            sessions: self.sessions@.map_values(|s: SessionStats| s@),
        }
    }
}

pub open spec fn projects_view(ps: Seq<ProjectStats>) -> Seq<ProjectStatsView> {
    ps.map_values(|p: ProjectStats| p@)
}

// ---------------------------------------------------------------------------
// Project names

/// Whether `c` has the Unicode `Uppercase` property, as `char::is_uppercase`
/// decides it.
pub uninterp spec fn char_is_uppercase(c: char) -> bool;

/// Whether `c` is upper case: among ASCII characters exactly `'A'` to `'Z'`,
/// beyond ASCII as `char::is_uppercase` decides.
pub open spec fn upper_char(c: char) -> bool {
    if (c as int) < 128 {
        'A' <= c && c <= 'Z'
    } else {
        char_is_uppercase(c)
    }
}

/// Calls `char::is_uppercase`. The contract names its result
/// (`char_is_uppercase`) and states what std documents and its source shows
/// for ASCII: exactly `'A'` to `'Z'` are upper case. Which characters beyond
/// ASCII have the Unicode `Uppercase` property is left unsaid.
#[verifier::external_body]
fn is_uppercase(c: char) -> (r: bool)
    ensures
        r == char_is_uppercase(c),
        (c as int) < 128 ==> (r <==> ('A' <= c && c <= 'Z')),
{
    c.is_uppercase()
}

/// The pieces of `s` between `'-'` characters, empty pieces included
/// (`str::split('-')`).
pub open spec fn dash_segments(s: Seq<char>) -> Seq<Seq<char>>
    decreases s.len(),
{
    if s.len() == 0 {
        seq![Seq::empty()]
    } else if s.last() == '-' {
        dash_segments(s.drop_last()).push(Seq::empty())
    } else {
        let p = dash_segments(s.drop_last());
        p.update(p.len() - 1, p.last().push(s.last()))
    }
}

/// The non-empty pieces of `ps`, in order.
pub open spec fn non_empty(ps: Seq<Seq<char>>) -> Seq<Seq<char>>
    decreases ps.len(),
{
    if ps.len() == 0 {
        ps
    } else if ps.last().len() > 0 {
        non_empty(ps.drop_last()).push(ps.last())
    } else {
        non_empty(ps.drop_last())
    }
}

/// The non-empty pieces of `s` between `'-'` characters.
pub open spec fn dash_parts(s: Seq<char>) -> Seq<Seq<char>> {
    non_empty(dash_segments(s))
}

/// The pieces joined with `'-'` between them.
pub open spec fn join_dash(ps: Seq<Seq<char>>) -> Seq<char>
    decreases ps.len(),
{
    if ps.len() == 0 {
        Seq::empty()
    } else if ps.len() == 1 {
        ps[0]
    } else {
        join_dash(ps.drop_last()).push('-') + ps.last()
    }
}

/// A piece of the path of a home directory that names no project.
pub open spec fn is_path_prefix(p: Seq<char>) -> bool {
    ||| p == "Users"@
    ||| p == "kumitaakira"@
    ||| p == "demia"@
    ||| p == "works"@
}

/// A piece made only of upper-case letters and `'_'`.
pub open spec fn all_caps(p: Seq<char>) -> bool {
    forall|i: int| 0 <= i < p.len() ==> upper_char(#[trigger] p[i]) || p[i] == '_'
}

/// The pieces from the first one that names a project on, joined again.
pub open spec fn name_from(ps: Seq<Seq<char>>) -> Option<Seq<char>>
    decreases ps.len(),
{
    if ps.len() == 0 {
        None
    } else if !is_path_prefix(ps[0]) && !all_caps(ps[0]) {
        Some(join_dash(ps))
    } else {
        name_from(ps.drop_first())
    }
}

/// The project name that a log directory such as
/// `-Users-kumitaakira-demia-works-wasurenai` stands for.
pub open spec fn spec_project_name(dir_name: Seq<char>) -> Seq<char> {
    let parts = dash_parts(dir_name);
    if parts.len() == 0 {
        dir_name
    } else {
        match name_from(parts) {
            Some(n) => n,
            None => parts.last(),
        }
    }
}

proof fn lemma_name_from_after(home: Seq<Seq<char>>, rest: Seq<Seq<char>>)
    requires
        forall|i: int| 0 <= i < home.len() ==> is_path_prefix(#[trigger] home[i]),
    ensures
        name_from(home + rest) == name_from(rest),
    decreases home.len(),
{
    if home.len() > 0 {
        assert((home + rest)[0] == home[0]);
        assert((home + rest).drop_first() == home.drop_first() + rest);
        lemma_name_from_after(home.drop_first(), rest);
    } else {
        assert(home + rest == rest);
    }
}

/// A character that keeps a piece from being all capitals: an ASCII
/// character other than `'A'`..`'Z'` and `'_'` (a lower-case letter, a digit,
/// a dot), or a character beyond ASCII that `char::is_uppercase` rejects.
pub open spec fn not_capital(c: char) -> bool {
    if (c as int) < 128 {
        !('A' <= c && c <= 'Z') && c != '_'
    } else {
        !char_is_uppercase(c)
    }
}

/// A directory name whose pieces are pieces of a home directory's path
/// followed by a piece that is no such path piece and holds a character
/// other than a capital or `'_'` names the project made of that piece and
/// all after it, joined with `'-'` (`-Users-kumitaakira-demia-works-my-api`
/// names `my-api`, `...-works-2024-portfolio` names `2024-portfolio`).
pub proof fn law_project_name_after_home(dir_name: Seq<char>, home: Seq<Seq<char>>, rest: Seq<Seq<char>>)
    requires
        dash_parts(dir_name) == home + rest,
        forall|i: int| 0 <= i < home.len() ==> is_path_prefix(#[trigger] home[i]),
        rest.len() > 0,
        !is_path_prefix(rest[0]),
        exists|j: int| 0 <= j < rest[0].len() && not_capital(#[trigger] rest[0][j]),
    ensures
        spec_project_name(dir_name) == join_dash(rest),
{
    let j = choose|j: int| 0 <= j < rest[0].len() && not_capital(#[trigger] rest[0][j]);
    assert(!(upper_char(rest[0][j]) || rest[0][j] == '_'));
    assert(!all_caps(rest[0]));
    lemma_name_from_after(home, rest);
}

/// A piece made only of capitals and `'_'` never starts a project name:
/// pieces of a home directory's path and such pieces before the first piece
/// that is neither are skipped.
pub proof fn law_capitals_skipped(dir_name: Seq<char>, skipped: Seq<Seq<char>>, rest: Seq<Seq<char>>)
    requires
        dash_parts(dir_name) == skipped + rest,
        forall|i: int| 0 <= i < skipped.len() ==> is_path_prefix(#[trigger] skipped[i])
            || (forall|j: int| 0 <= j < skipped[i].len() ==> !not_capital(#[trigger] skipped[i][j])),
        rest.len() > 0,
        !is_path_prefix(rest[0]),
        exists|j: int| 0 <= j < rest[0].len() && not_capital(#[trigger] rest[0][j]),
    ensures
        spec_project_name(dir_name) == join_dash(rest),
{
    let j = choose|j: int| 0 <= j < rest[0].len() && not_capital(#[trigger] rest[0][j]);
    assert(!(upper_char(rest[0][j]) || rest[0][j] == '_'));
    assert(!all_caps(rest[0]));
    lemma_name_from_skipped(skipped, rest);
}

proof fn lemma_name_from_skipped(skipped: Seq<Seq<char>>, rest: Seq<Seq<char>>)
    requires
        forall|i: int| 0 <= i < skipped.len() ==> is_path_prefix(#[trigger] skipped[i])
            || (forall|j: int| 0 <= j < skipped[i].len() ==> !not_capital(#[trigger] skipped[i][j])),
    ensures
        name_from(skipped + rest) == name_from(rest),
    decreases skipped.len(),
{
    if skipped.len() > 0 {
        let p = skipped[0];
        assert((skipped + rest)[0] == p);
        assert((skipped + rest).drop_first() == skipped.drop_first() + rest);
        if !is_path_prefix(p) {
            assert forall|j: int| 0 <= j < p.len() implies upper_char(#[trigger] p[j]) || p[j] == '_' by {
                assert(!not_capital(p[j]));
            }
        }
        assert forall|i: int| 0 <= i < skipped.drop_first().len() implies is_path_prefix(#[trigger] skipped.drop_first()[i])
            || (forall|j: int| 0 <= j < skipped.drop_first()[i].len() ==> !not_capital(#[trigger] skipped.drop_first()[i][j])) by {
            assert(skipped.drop_first()[i] == skipped[i + 1]);
        }
        lemma_name_from_skipped(skipped.drop_first(), rest);
    } else {
        assert(skipped + rest == rest);
    }
}

proof fn lemma_segments_nonempty(s: Seq<char>)
    ensures
        dash_segments(s).len() >= 1,
    decreases s.len(),
{
    if s.len() > 0 {
        lemma_segments_nonempty(s.drop_last());
    }
}

/// The non-empty pieces of `dir_name` between `'-'` characters.
fn split_dash(dir_name: &Vec<char>) -> (parts: Vec<Vec<char>>)
    ensures
        parts@.map_values(|p: Vec<char>| p@) == dash_parts(dir_name@),
{
    let mut parts: Vec<Vec<char>> = Vec::new();
    let mut cur: Vec<char> = Vec::new();
    let mut i: usize = 0;
    while i < dir_name.len()
        invariant
            i <= dir_name@.len(),
            dash_segments(dir_name@.take(i as int)).len() >= 1,
            cur@ == dash_segments(dir_name@.take(i as int)).last(),
            parts@.map_values(|p: Vec<char>| p@) == non_empty(dash_segments(dir_name@.take(i as int)).drop_last()),
        decreases dir_name.len() - i,
    {
        let ghost segs = dash_segments(dir_name@.take(i as int));
        assert(dir_name@.take(i + 1).drop_last() == dir_name@.take(i as int));
        assert(dir_name@.take(i + 1).last() == dir_name@[i as int]);
        let c = dir_name[i];
        if c == '-' {
            let ghost nsegs = segs.push(Seq::empty());
            assert(nsegs.drop_last() == segs);
            assert(segs == segs.drop_last().push(segs.last()));
            if cur.len() > 0 {
                parts.push(cur);
                assert(parts@.map_values(|p: Vec<char>| p@) == non_empty(segs.drop_last()).push(segs.last()));
            }
            cur = Vec::new();
        } else {
            cur.push(c);
            let ghost nsegs = segs.update(segs.len() - 1, segs.last().push(c));
            assert(nsegs.drop_last() == segs.drop_last());
        }
        i = i + 1;
    }
    let ghost segs = dash_segments(dir_name@.take(i as int));
    assert(dir_name@.take(i as int) == dir_name@);
    assert(segs == segs.drop_last().push(segs.last()));
    if cur.len() > 0 {
        parts.push(cur);
        assert(parts@.map_values(|p: Vec<char>| p@) == non_empty(segs.drop_last()).push(segs.last()));
    }
    parts
}

/// Whether `p` names a project: not a piece of a home directory's path and
/// not all capitals.
fn names_project(p: &Vec<char>) -> (r: bool)
    ensures
        r == (!is_path_prefix(p@) && !all_caps(p@)),
{
    let s = string_of(p, 0, p.len());
    assert(p@.subrange(0, p@.len() as int) == p@);
    if str_eq(s.as_str(), "Users") || str_eq(s.as_str(), "kumitaakira")
        || str_eq(s.as_str(), "demia") || str_eq(s.as_str(), "works") {
        return false;
    }
    let mut i: usize = 0;
    while i < p.len()
        invariant
            i <= p@.len(),
            !is_path_prefix(p@),
            forall|k: int| 0 <= k < i ==> upper_char(#[trigger] p@[k]) || p@[k] == '_',
        decreases p.len() - i,
    {
        let up = is_uppercase(p[i]);
        assert(up == upper_char(p@[i as int]));
        if !up && p[i] != '_' {
            assert(!(upper_char(p@[i as int]) || p@[i as int] == '_'));
            return true;
        }
        i = i + 1;
    }
    false
}

/// Joins `ps[from..]` with `'-'`.
fn join_from(ps: &Vec<Vec<char>>, from: usize) -> (r: String)
    requires
        from < ps@.len(),
    ensures
        r@ == join_dash(ps@.map_values(|p: Vec<char>| p@).skip(from as int)),
{
    let ghost views = ps@.map_values(|p: Vec<char>| p@);
    let mut r = string_of(&ps[from], 0, ps[from].len());
    assert(from < ps.len());
    let mut i = from + 1;
    assert(ps[from as int]@.subrange(0, ps[from as int]@.len() as int) == ps[from as int]@);
    assert(views.skip(from as int).take(1) == seq![views[from as int]]);
    assert(join_dash(views.skip(from as int).take(1)) == views[from as int]);
    while i < ps.len()
        invariant
            from < i <= ps@.len(),
            views == ps@.map_values(|p: Vec<char>| p@),
            r@ == join_dash(views.skip(from as int).take(i - from)),
        decreases ps.len() - i,
    {
        let ghost prev = views.skip(from as int).take(i - from);
        let ghost next = views.skip(from as int).take(i + 1 - from);
        assert(next.drop_last() == prev);
        assert(next.last() == ps[i as int]@);
        push_char(&mut r, '-');
        push_chars(&mut r, &ps[i], 0, ps[i].len());
        assert(ps[i as int]@.subrange(0, ps[i as int]@.len() as int) == ps[i as int]@);
        i = i + 1;
    }
    assert(views.skip(from as int).take(ps@.len() - from) == views.skip(from as int));
    r
}

/// The project name for a log directory: the pieces between `'-'` from the
/// first one that is neither part of the home directory's path nor all
/// capitals, joined with `'-'`; the last piece if there is no such piece; the
/// directory name itself if it has no pieces.
pub fn extract_project_name(dir_name: &str) -> (r: String)
    ensures
        r@ == spec_project_name(dir_name@),
{
    let cs = chars_of(dir_name);
    let parts = split_dash(&cs);
    let ghost views = parts@.map_values(|p: Vec<char>| p@);
    if parts.len() == 0 {
        return String::from_str(dir_name);
    }
    let mut i: usize = 0;
    assert(views.skip(0) == views);
    while i < parts.len()
        invariant
            i <= parts@.len(),
            views == parts@.map_values(|p: Vec<char>| p@),
            views == dash_parts(dir_name@),
            views.len() > 0,
            name_from(views) == name_from(views.skip(i as int)),
        decreases parts.len() - i,
    {
        assert(views.skip(i as int)[0] == views[i as int]);
        assert(views.skip(i as int).drop_first() == views.skip(i + 1));
        if names_project(&parts[i]) {
            return join_from(&parts, i);
        }
        i = i + 1;
    }
    let last = parts.len() - 1;
    assert(views.skip(parts@.len() as int).len() == 0);
    string_of(&parts[last], 0, parts[last].len())
}


// ---------------------------------------------------------------------------
// One log file

/// The lines counted by all entries.
pub open spec fn sum_entries(es: Seq<EntryView>) -> LineCounts
    decreases es.len(),
{
    if es.len() == 0 {
        no_counts()
    } else {
        let e = es.last();
        add_counts(
            sum_entries(es.drop_last()),
            LineCounts { write: e.write_lines, edit: e.edit_lines, text: e.text_lines },
        )
    }
}

/// The earliest timestamp, scanning in order: a timestamp replaces the one
/// kept when none is kept yet or when it sorts before it.
pub open spec fn earliest_timestamp(es: Seq<EntryView>) -> Seq<char>
    decreases es.len(),
{
    if es.len() == 0 {
        Seq::empty()
    } else {
        let cur = earliest_timestamp(es.drop_last());
        match es.last().timestamp {
            Some(ts) => if cur.len() == 0 || seq_less(ts, cur) { ts } else { cur },
            None => cur,
        }
    }
}

/// The first non-empty session id (empty if there is none).
pub open spec fn first_session_id(es: Seq<EntryView>) -> Seq<char>
    decreases es.len(),
{
    if es.len() == 0 {
        Seq::empty()
    } else {
        let cur = first_session_id(es.drop_last());
        if cur.len() == 0 {
            match es.last().session_id {
                Some(s) => s,
                None => cur,
            }
        } else {
            cur
        }
    }
}

/// The first title.
pub open spec fn first_entry_title(es: Seq<EntryView>) -> Option<Seq<char>>
    decreases es.len(),
{
    if es.len() == 0 {
        None
    } else {
        match first_entry_title(es.drop_last()) {
            Some(t) => Some(t),
            None => es.last().title,
        }
    }
}

pub open spec fn counts_le(a: LineCounts, b: LineCounts) -> bool {
    a.write <= b.write && a.edit <= b.edit && a.text <= b.text
}

pub proof fn lemma_sum_entries_prefix(es: Seq<EntryView>, i: int)
    requires
        0 <= i <= es.len(),
    ensures
        counts_le(sum_entries(es.take(i)), sum_entries(es)),
    decreases es.len(),
{
    if i < es.len() {
        assert(es.drop_last().take(i) == es.take(i));
        lemma_sum_entries_prefix(es.drop_last(), i);
    } else {
        assert(es.take(i) == es);
    }
}

pub proof fn lemma_sum_entries_each(es: Seq<EntryView>, k: int)
    requires
        0 <= k < es.len(),
    ensures
        es[k].write_lines <= sum_entries(es).write,
        es[k].edit_lines <= sum_entries(es).edit,
        es[k].text_lines <= sum_entries(es).text,
    decreases es.len(),
{
    if k < es.len() - 1 {
        lemma_sum_entries_each(es.drop_last(), k);
    }
}

fn clone_opt_string(s: &Option<String>) -> (r: Option<String>)
    ensures
        crate::parser::opt_view(r) == crate::parser::opt_view(*s),
{
    match s {
        Some(x) => Some(x.clone()),
        None => None,
    }
}

/// Totals of a log's entries, its earliest timestamp, its first non-empty
/// session id and its first title.
pub fn aggregate_entries(entries: &[SessionEntry]) -> (r: (Stats, String, String, Option<String>))
    requires
        sum_entries(entries_view(entries@)).write <= usize::MAX,
        sum_entries(entries_view(entries@)).edit <= usize::MAX,
        sum_entries(entries_view(entries@)).text <= usize::MAX,
    ensures
        r.0@ == sum_entries(entries_view(entries@)),
        r.1@ == earliest_timestamp(entries_view(entries@)),
        r.2@ == first_session_id(entries_view(entries@)),
        crate::parser::opt_view(r.3) == first_entry_title(entries_view(entries@)),
{
    let ghost es = entries_view(entries@);
    let mut stats = Stats { write_lines: 0, edit_lines: 0, text_lines: 0 };
    let mut earliest_ts = String::new();
    let mut session_id = String::new();
    let mut title: Option<String> = None;
    let mut i: usize = 0;
    while i < entries.len()
        invariant
            i <= entries@.len(),
            es == entries_view(entries@),
            counts_le(sum_entries(es), LineCounts { write: usize::MAX as nat, edit: usize::MAX as nat, text: usize::MAX as nat }),
            stats@ == sum_entries(es.take(i as int)),
            earliest_ts@ == earliest_timestamp(es.take(i as int)),
            session_id@ == first_session_id(es.take(i as int)),
            crate::parser::opt_view(title) == first_entry_title(es.take(i as int)),
        decreases entries.len() - i,
    {
        assert(es.take(i + 1).drop_last() == es.take(i as int));
        assert(es.take(i + 1).last() == entries[i as int]@);
        proof { lemma_sum_entries_prefix(es, i + 1); }
        let e = &entries[i];
        stats.write_lines = stats.write_lines + e.write_lines;
        stats.edit_lines = stats.edit_lines + e.edit_lines;
        stats.text_lines = stats.text_lines + e.text_lines;
        match &e.timestamp {
            Some(ts) => {
                if earliest_ts.as_str().unicode_len() == 0 || str_less(ts.as_str(), earliest_ts.as_str()) {
                    earliest_ts = ts.clone();
                }
            },
            None => {},
        }
        if session_id.as_str().unicode_len() == 0 {
            match &e.session_id {
                Some(sid) => {
                    session_id = sid.clone();
                },
                None => {},
            }
        }
        if title.is_none() {
            title = clone_opt_string(&e.title);
        }
        i = i + 1;
    }
    assert(es.take(entries@.len() as int) == es);
    (stats, earliest_ts, session_id, title)
}

// ---------------------------------------------------------------------------
// Byte prefixes

/// Number of bytes of `c` in UTF-8.
pub open spec fn utf8_len(c: char) -> int {
    let u = c as u32;
    if u < 0x80 { 1 } else if u < 0x800 { 2 } else if u < 0x10000 { 3 } else { 4 }
}

/// The characters that make up the first `n` bytes of the UTF-8 encoding of
/// `s`, when `n` bytes end on a character boundary within `s`
/// (`str::get(..n)`).
pub open spec fn byte_prefix(s: Seq<char>, n: int) -> Option<Seq<char>>
    decreases s.len(),
{
    if n == 0 {
        Some(Seq::empty())
    } else if n < 0 || s.len() == 0 {
        None
    } else {
        match byte_prefix(s.drop_first(), n - utf8_len(s[0])) {
            Some(r) => Some(seq![s[0]] + r),
            None => None,
        }
    }
}

/// `str::get(..n)`.
fn get_prefix(s: &str, n: usize) -> (r: Option<String>)
    ensures
        crate::parser::opt_view(r) == byte_prefix(s@, n as int),
{
    let cs = chars_of(s);
    let mut used: usize = 0;
    let mut i: usize = 0;
    assert(cs@.skip(0) == cs@);
    assert(cs@.take(0) + cs@.skip(0) == cs@);
    while used < n
        invariant
            i <= cs@.len(),
            used <= n,
            cs@ == s@,
            byte_prefix(s@, n as int) == match byte_prefix(cs@.skip(i as int), n - used) {
                Some(r) => Some(cs@.take(i as int) + r),
                None => None::<Seq<char>>,
            },
        decreases n - used,
    {
        if i == cs.len() {
            return None;
        }
        let u = cs[i] as u32;
        let l: usize = if u < 0x80 { 1 } else if u < 0x800 { 2 } else if u < 0x10000 { 3 } else { 4 };
        assert(cs@.skip(i as int)[0] == cs@[i as int]);
        assert(cs@.skip(i as int).drop_first() == cs@.skip(i + 1));
        if l > n - used {
            return None;
        }
        proof {
            let rest = byte_prefix(cs@.skip(i + 1), n - used - l);
            if rest is Some {
                assert(cs@.take(i as int) + (seq![cs@[i as int]] + rest.unwrap())
                    == cs@.take(i + 1) + rest.unwrap());
            }
        }
        used = used + l;
        i = i + 1;
    }
    assert(cs@.take(i as int) + Seq::<char>::empty() == cs@.take(i as int));
    Some(string_of(&cs, 0, i))
}

/// The date part `YYYY-MM-DD` of an ISO 8601 timestamp: its first ten bytes,
/// or `"unknown"` where the timestamp has no such prefix.
pub open spec fn spec_extract_date(ts: Seq<char>) -> Seq<char> {
    match byte_prefix(ts, 10) {
        Some(d) => d,
        None => "unknown"@,
    }
}

/// The first eight bytes of a session id, or the whole id where it has no
/// such prefix.
pub open spec fn spec_short_session_id(sid: Seq<char>) -> Seq<char> {
    match byte_prefix(sid, 8) {
        Some(p) => p,
        None => sid,
    }
}

/// The date part of an ISO 8601 timestamp (`"2026-02-27T..."` gives
/// `"2026-02-27"`).
pub fn extract_date(ts: &str) -> (r: String)
    ensures
        r@ == spec_extract_date(ts@),
{
    match get_prefix(ts, 10) {
        Some(d) => d,
        None => String::from_str("unknown"),
    }
}

/// A session id shortened to its first eight bytes.
pub fn short_session_id(sid: &str) -> (r: String)
    ensures
        r@ == spec_short_session_id(sid@),
{
    match get_prefix(sid, 8) {
        Some(p) => p,
        None => String::from_str(sid),
    }
}


// ---------------------------------------------------------------------------
// Sums of line counts

/// The sum of a sequence of line counts.
pub open spec fn counts_total(s: Seq<LineCounts>) -> LineCounts
    decreases s.len(),
{
    if s.len() == 0 {
        no_counts()
    } else {
        add_counts(counts_total(s.drop_last()), s.last())
    }
}

pub proof fn lemma_counts_total_front(a: LineCounts, s: Seq<LineCounts>)
    ensures
        counts_total(seq![a] + s) == add_counts(a, counts_total(s)),
    decreases s.len(),
{
    if s.len() == 0 {
        assert((seq![a] + s).drop_last() =~= Seq::<LineCounts>::empty());
        assert(seq![a] + s == seq![a]);
        assert(counts_total(Seq::<LineCounts>::empty()) == no_counts());
        assert(add_counts(no_counts(), a) == a);
        assert(add_counts(a, no_counts()) == a);
    } else {
        assert((seq![a] + s).drop_last() == seq![a] + s.drop_last());
        assert((seq![a] + s).last() == s.last());
        lemma_counts_total_front(a, s.drop_last());
    }
}

pub proof fn lemma_counts_total_update(s: Seq<LineCounts>, i: int, v: LineCounts)
    requires
        0 <= i < s.len(),
    ensures
        add_counts(counts_total(s.update(i, v)), s[i]) == add_counts(counts_total(s), v),
    decreases s.len(),
{
    if i < s.len() - 1 {
        assert(s.update(i, v).drop_last() == s.drop_last().update(i, v));
        lemma_counts_total_update(s.drop_last(), i, v);
    } else {
        assert(s.update(i, v).drop_last() == s.drop_last());
    }
}

pub proof fn lemma_counts_total_insert(s: Seq<LineCounts>, i: int, v: LineCounts)
    requires
        0 <= i <= s.len(),
    ensures
        counts_total(s.insert(i, v)) == add_counts(counts_total(s), v),
    decreases s.len(),
{
    s.insert_ensures(i, v);
    if i < s.len() {
        s.drop_last().insert_ensures(i, v);
        assert(s.insert(i, v).drop_last() =~= s.drop_last().insert(i, v));
        assert(s.insert(i, v).last() == s.last());
        lemma_counts_total_insert(s.drop_last(), i, v);
    } else {
        assert(s.insert(i, v).drop_last() =~= s);
    }
}


// ---------------------------------------------------------------------------
// Laws of byte prefixes

pub open spec fn is_ascii_char(c: char) -> bool {
    (c as u32) < 0x80
}

proof fn lemma_byte_prefix_ascii(s: Seq<char>, n: int)
    requires
        0 <= n <= s.len(),
        forall|i: int| 0 <= i < n ==> is_ascii_char(#[trigger] s[i]),
    ensures
        byte_prefix(s, n) == Some(s.take(n)),
    decreases n,
{
    if n > 0 {
        let t = s.drop_first();
        assert forall|i: int| 0 <= i < n - 1 implies is_ascii_char(#[trigger] t[i]) by {
            assert(t[i] == s[i + 1]);
        }
        lemma_byte_prefix_ascii(t, n - 1);
        assert(is_ascii_char(s[0]));
        assert(seq![s[0]] + t.take(n - 1) == s.take(n));
    } else {
        assert(s.take(0) =~= Seq::<char>::empty());
    }
}

/// A timestamp that starts with ten ASCII characters (as ISO 8601 ones do)
/// gives those ten characters as its date; a shorter ASCII timestamp gives
/// `"unknown"`.
pub proof fn law_extract_date_ascii(ts: Seq<char>)
    requires
        forall|i: int| 0 <= i < ts.len() && i < 10 ==> is_ascii_char(#[trigger] ts[i]),
    ensures
        ts.len() >= 10 ==> spec_extract_date(ts) == ts.take(10),
        ts.len() < 10 ==> spec_extract_date(ts) == "unknown"@,
{
    if ts.len() >= 10 {
        lemma_byte_prefix_ascii(ts, 10);
    } else {
        lemma_byte_prefix_short(ts, 10);
    }
}

/// An ASCII session id is cut to its first eight characters, and kept
/// whole when it is shorter.
pub proof fn law_short_session_id_ascii(sid: Seq<char>)
    requires
        forall|i: int| 0 <= i < sid.len() ==> is_ascii_char(#[trigger] sid[i]),
    ensures
        sid.len() >= 8 ==> spec_short_session_id(sid) == sid.take(8),
        sid.len() < 8 ==> spec_short_session_id(sid) == sid,
{
    if sid.len() >= 8 {
        lemma_byte_prefix_ascii(sid, 8);
    } else {
        lemma_byte_prefix_short(sid, 8);
    }
}

proof fn lemma_byte_prefix_short(s: Seq<char>, n: int)
    requires
        0 <= s.len() < n,
        forall|i: int| 0 <= i < s.len() && i < n ==> is_ascii_char(#[trigger] s[i]),
    ensures
        byte_prefix(s, n) is None,
    decreases s.len(),
{
    if s.len() > 0 {
        let t = s.drop_first();
        assert forall|i: int| 0 <= i < t.len() && i < n - 1 implies is_ascii_char(#[trigger] t[i]) by {
            assert(t[i] == s[i + 1]);
        }
        assert(is_ascii_char(s[0]));
        lemma_byte_prefix_short(t, n - 1);
    }
}

} // verus!
