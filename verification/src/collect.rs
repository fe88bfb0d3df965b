//! Collecting the statistics of all projects: every log file is summarised,
//! the summaries are grouped by project and by session, and the groups are
//! listed with their sessions newest first and the busiest project first.
use vstd::prelude::*;
use crate::keyed::{
    distinct_keys, keys_of, lemma_ascending_distinct, lemma_ascending_insert, lemma_sorted_keys,
    lemma_to_map_dom, lemma_to_map_insert, lemma_to_map_update, lemma_to_map_value, sorted_keys,
    strictly_ascending, to_map,
};
use crate::parser::{LineCounts, SessionEntry, add_counts, entries_view, line_records, no_counts, opt_view,
    parse_jsonl_file, spec_entries};
use crate::sorting::{
    busiest_first, insert_project, insert_session, law_sort_by_date, law_sort_by_total, newest_first, projects_view,
    sessions_total, sessions_view, sort_by_date, sort_by_total,
};
use crate::stats::{
    ProjectStats, ProjectStatsView, SessionStats, SessionStatsView, Stats, aggregate_entries, counts_le,
    counts_total, lemma_counts_total_insert, lemma_counts_total_update,
    earliest_timestamp, extract_date, extract_project_name, first_entry_title, first_session_id,
    lemma_sum_entries_each, lemma_sum_entries_prefix, short_session_id, spec_extract_date,
    spec_project_name, spec_short_session_id, sum_entries, total_of,
};
use crate::text::{chars_of, has_substring, lemma_less_irreflexive, lemma_less_total, lemma_less_transitive, seq_less,
    str_contains, str_eq, str_less};

verus! {

/// One log file: its name without the extension and its lines.
pub struct LogFile {
    pub stem: String,
    pub lines: Vec<String>,
}

/// One directory under the log root: its name and its log files, in the
/// order in which they were found.
pub struct ProjectDir {
    pub dir_name: String,
    pub files: Vec<LogFile>,
}

/// What one log file adds to its project.
pub struct Contribution {
    pub project: Seq<char>,
    pub sid: Seq<char>,
    pub stats: LineCounts,
    pub ts: Seq<char>,
    pub title: Option<Seq<char>>,
}

/// The summary of a log file of `project`, unless the file has no entries or
/// counts no lines. Its session is the file's first non-empty session id, or
/// else the file's stem.
pub open spec fn file_contribution(project: Seq<char>, f: LogFile) -> Option<Contribution> {
    let es = spec_entries(line_records(f.lines@));
    if es.len() == 0 {
        None
    } else {
        let stats = sum_entries(es);
        if total_of(stats) == 0 {
            None
        } else {
            let sid = first_session_id(es);
            Some(Contribution {
                project,
                sid: if sid.len() == 0 { f.stem@ } else { sid },
                stats,
                ts: earliest_timestamp(es),
                title: first_entry_title(es),
            })
        }
    }
}

pub open spec fn files_contributions(project: Seq<char>, files: Seq<LogFile>) -> Seq<Contribution>
    decreases files.len(),
{
    if files.len() == 0 {
        Seq::empty()
    } else {
        let rest = files_contributions(project, files.drop_last());
        match file_contribution(project, files.last()) {
            Some(c) => rest.push(c),
            None => rest,
        }
    }
}

/// A directory is kept when no filter is given, or when the filter occurs
/// in its project name or in its name.
pub open spec fn selected(dir_name: Seq<char>, filter: Option<Seq<char>>) -> bool {
    match filter {
        None => true,
        Some(f) => has_substring(spec_project_name(dir_name), f) || has_substring(dir_name, f),
    }
}

/// The summaries of all log files of the kept directories, in order.
pub open spec fn all_contributions(dirs: Seq<ProjectDir>, filter: Option<Seq<char>>) -> Seq<Contribution>
    decreases dirs.len(),
{
    if dirs.len() == 0 {
        Seq::empty()
    } else {
        let rest = all_contributions(dirs.drop_last(), filter);
        let d = dirs.last();
        if selected(d.dir_name@, filter) {
            rest + files_contributions(spec_project_name(d.dir_name@), d.files@)
        } else {
            rest
        }
    }
}

/// A session so far: its lines, its earliest timestamp and its title.
pub struct SessionAcc {
    pub stats: LineCounts,
    pub ts: Seq<char>,
    pub title: Option<Seq<char>>,
}

/// A project so far: its lines and its sessions by id.
pub struct ProjectAcc {
    pub stats: LineCounts,
    pub sessions: Map<Seq<char>, SessionAcc>,
}

/// A session with one more file: lines add up, a non-empty timestamp that
/// sorts first replaces the kept one (or fills an empty one), and the first
/// title stays.
pub open spec fn merge_session(prev: Option<SessionAcc>, c: Contribution) -> SessionAcc {
    let s = match prev {
        Some(s) => s,
        None => SessionAcc { stats: no_counts(), ts: c.ts, title: None },
    };
    SessionAcc {
        stats: add_counts(s.stats, c.stats),
        ts: if c.ts.len() > 0 && (s.ts.len() == 0 || seq_less(c.ts, s.ts)) { c.ts } else { s.ts },
        title: if s.title is None { c.title } else { s.title },
    }
}

pub open spec fn empty_project() -> ProjectAcc {
    ProjectAcc { stats: no_counts(), sessions: Map::empty() }
}

pub open spec fn add_contribution(m: Map<Seq<char>, ProjectAcc>, c: Contribution) -> Map<Seq<char>, ProjectAcc> {
    let g = if m.dom().contains(c.project) { m[c.project] } else { empty_project() };
    let prev = if g.sessions.dom().contains(c.sid) { Some(g.sessions[c.sid]) } else { None };
    m.insert(c.project, ProjectAcc {
        stats: add_counts(g.stats, c.stats),
        sessions: g.sessions.insert(c.sid, merge_session(prev, c)),
    })
}

/// The summaries grouped by project and, within a project, by session.
pub open spec fn group_contributions(cs: Seq<Contribution>) -> Map<Seq<char>, ProjectAcc>
    decreases cs.len(),
{
    if cs.len() == 0 {
        Map::empty()
    } else {
        add_contribution(group_contributions(cs.drop_last()), cs.last())
    }
}

/// Every project's total fits in a `usize`.
pub open spec fn groups_fit(m: Map<Seq<char>, ProjectAcc>) -> bool {
    forall|p: Seq<char>| #[trigger] m.dom().contains(p) ==> total_of(m[p].stats) <= usize::MAX
}

/// A session as displayed: the date of its earliest timestamp, and its
/// title or else its shortened id.
pub open spec fn session_view(sid: Seq<char>, a: SessionAcc) -> SessionStatsView {
    SessionStatsView {
        date: spec_extract_date(a.ts),
        title: match a.title {
            Some(t) => t,
            None => spec_short_session_id(sid),
        },
        stats: a.stats,
    }
}

/// The sessions of a project in ascending order of id.
pub open spec fn listed_sessions(g: ProjectAcc) -> Seq<SessionStatsView> {
    sorted_keys(g.sessions.dom()).map_values(|sid: Seq<char>| session_view(sid, g.sessions[sid]))
}

/// A project as displayed: its sessions newest first.
pub open spec fn project_view(name: Seq<char>, g: ProjectAcc) -> ProjectStatsView {
    ProjectStatsView { name, stats: g.stats, sessions: sort_by_date(listed_sessions(g)) }
}

/// The projects in ascending order of name.
pub open spec fn listed_projects(m: Map<Seq<char>, ProjectAcc>) -> Seq<ProjectStatsView> {
    sorted_keys(m.dom()).map_values(|p: Seq<char>| project_view(p, m[p]))
}

/// The projects of the kept directories, busiest first.
pub open spec fn spec_collect_stats(dirs: Seq<ProjectDir>, filter: Option<Seq<char>>) -> Seq<ProjectStatsView> {
    sort_by_total(listed_projects(group_contributions(all_contributions(dirs, filter))))
}

/// A listed project: one of the groups, shown with its sessions newest
/// first, its lines being the sum of its sessions' lines.
pub open spec fn well_grouped(m: Map<Seq<char>, ProjectAcc>, p: ProjectStatsView) -> bool {
    &&& m.dom().contains(p.name)
    &&& p == project_view(p.name, m[p.name])
    &&& newest_first(p.sessions)
    &&& p.stats == sessions_total(p.sessions)
}

pub open spec fn filter_view(f: Option<&str>) -> Option<Seq<char>> {
    match f {
        Some(s) => Some(s@),
        None => None,
    }
}

// ---------------------------------------------------------------------------
// Proofs about grouping

/// Each summary's lines count towards its project.
pub proof fn lemma_group_covers(cs: Seq<Contribution>, k: int)
    requires
        0 <= k < cs.len(),
    ensures
        group_contributions(cs).dom().contains(cs[k].project),
        counts_le(cs[k].stats, group_contributions(cs)[cs[k].project].stats),
    decreases cs.len(),
{
    if k < cs.len() - 1 {
        lemma_group_covers(cs.drop_last(), k);
    }
}

/// A project's lines only grow as summaries are added.
pub proof fn lemma_group_prefix(cs: Seq<Contribution>, a: int, p: Seq<char>)
    requires
        0 <= a <= cs.len(),
        group_contributions(cs.take(a)).dom().contains(p),
    ensures
        group_contributions(cs).dom().contains(p),
        counts_le(group_contributions(cs.take(a))[p].stats, group_contributions(cs)[p].stats),
    decreases cs.len(),
{
    if a < cs.len() {
        assert(cs.drop_last().take(a) == cs.take(a));
        lemma_group_prefix(cs.drop_last(), a, p);
    } else {
        assert(cs.take(a) == cs);
    }
}

proof fn lemma_files_prefix(p: Seq<char>, files: Seq<LogFile>, j: int)
    requires
        0 <= j <= files.len(),
    ensures
        files_contributions(p, files.take(j)).len() <= files_contributions(p, files).len(),
        files_contributions(p, files).take(files_contributions(p, files.take(j)).len() as int)
            == files_contributions(p, files.take(j)),
    decreases files.len(),
{
    if j < files.len() {
        assert(files.drop_last().take(j) == files.take(j));
        lemma_files_prefix(p, files.drop_last(), j);
        let a = files_contributions(p, files.take(j));
        let b = files_contributions(p, files.drop_last());
        assert(files_contributions(p, files).take(b.len() as int) == b);
        assert(files_contributions(p, files).take(a.len() as int) == b.take(a.len() as int));
    } else {
        assert(files.take(j) == files);
    }
}

proof fn lemma_all_prefix(dirs: Seq<ProjectDir>, filter: Option<Seq<char>>, i: int)
    requires
        0 <= i <= dirs.len(),
    ensures
        all_contributions(dirs.take(i), filter).len() <= all_contributions(dirs, filter).len(),
        all_contributions(dirs, filter).take(all_contributions(dirs.take(i), filter).len() as int)
            == all_contributions(dirs.take(i), filter),
    decreases dirs.len(),
{
    if i < dirs.len() {
        assert(dirs.drop_last().take(i) == dirs.take(i));
        lemma_all_prefix(dirs.drop_last(), filter, i);
        let a = all_contributions(dirs.take(i), filter);
        let b = all_contributions(dirs.drop_last(), filter);
        let full = all_contributions(dirs, filter);
        assert(full.take(b.len() as int) == b);
        assert(full.take(a.len() as int) == b.take(a.len() as int));
    } else {
        assert(dirs.take(i) == dirs);
    }
}

proof fn lemma_group_dom(cs: Seq<Contribution>, p: Seq<char>)
    requires
        group_contributions(cs).dom().contains(p),
    ensures
        exists|k: int| 0 <= k < cs.len() && #[trigger] cs[k].project == p,
    decreases cs.len(),
{
    if cs.last().project != p {
        lemma_group_dom(cs.drop_last(), p);
        let k = choose|k: int| 0 <= k < cs.drop_last().len() && #[trigger] cs.drop_last()[k].project == p;
        assert(cs[k] == cs.drop_last()[k]);
    } else {
        assert(cs[cs.len() - 1].project == p);
    }
}

proof fn lemma_files_project(project: Seq<char>, files: Seq<LogFile>)
    ensures
        forall|k: int| 0 <= k < files_contributions(project, files).len()
            ==> (#[trigger] files_contributions(project, files)[k]).project == project,
    decreases files.len(),
{
    if files.len() > 0 {
        lemma_files_project(project, files.drop_last());
    }
}

/// Every listed project is the project of a directory that the filter keeps.
pub proof fn law_projects_from_kept_dirs(dirs: Seq<ProjectDir>, filter: Option<Seq<char>>, p: Seq<char>)
    requires
        group_contributions(all_contributions(dirs, filter)).dom().contains(p),
    ensures
        exists|d: int|
            0 <= d < dirs.len() && selected(#[trigger] dirs[d].dir_name@, filter)
                && spec_project_name(dirs[d].dir_name@) == p,
    decreases dirs.len(),
{
    let cs = all_contributions(dirs, filter);
    lemma_group_dom(cs, p);
    let k = choose|k: int| 0 <= k < cs.len() && #[trigger] cs[k].project == p;
    let rest = all_contributions(dirs.drop_last(), filter);
    let last = dirs.last();
    if k < rest.len() && selected(last.dir_name@, filter) {
        assert(cs[k] == rest[k]);
        lemma_group_covers(rest, k);
        law_projects_from_kept_dirs(dirs.drop_last(), filter, p);
        let d = choose|d: int| 0 <= d < dirs.drop_last().len() && selected(#[trigger] dirs.drop_last()[d].dir_name@, filter)
            && spec_project_name(dirs.drop_last()[d].dir_name@) == p;
        assert(dirs[d] == dirs.drop_last()[d]);
    } else if !selected(last.dir_name@, filter) {
        assert(cs == rest);
        lemma_group_covers(rest, k);
        law_projects_from_kept_dirs(dirs.drop_last(), filter, p);
        let d = choose|d: int| 0 <= d < dirs.drop_last().len() && selected(#[trigger] dirs.drop_last()[d].dir_name@, filter)
            && spec_project_name(dirs.drop_last()[d].dir_name@) == p;
        assert(dirs[d] == dirs.drop_last()[d]);
    } else {
        let fc = files_contributions(spec_project_name(last.dir_name@), last.files@);
        lemma_files_project(spec_project_name(last.dir_name@), last.files@);
        assert(cs[k] == fc[k - rest.len()]);
        assert(dirs[dirs.len() - 1] == last);
    }
}

/// The summaries that belong to session `sid` of project `p`, in order.
pub open spec fn of_session(cs: Seq<Contribution>, p: Seq<char>, sid: Seq<char>) -> Seq<Contribution> {
    cs.filter(|c: Contribution| c.project == p && c.sid == sid)
}

/// The lines of all these summaries together.
pub open spec fn contributions_total(cs: Seq<Contribution>) -> LineCounts
    decreases cs.len(),
{
    if cs.len() == 0 {
        no_counts()
    } else {
        add_counts(contributions_total(cs.drop_last()), cs.last().stats)
    }
}

/// The first title that any of these summaries gives, in order.
pub open spec fn first_given_title(cs: Seq<Contribution>) -> Option<Seq<char>>
    decreases cs.len(),
{
    if cs.len() == 0 {
        None
    } else {
        match first_given_title(cs.drop_last()) {
            Some(t) => Some(t),
            None => cs.last().title,
        }
    }
}

/// What a grouped session holds: the lines of all its summaries, their first
/// title, and a timestamp that is one of theirs and that no non-empty
/// timestamp of theirs sorts before.
pub open spec fn session_summarises(a: SessionAcc, sc: Seq<Contribution>) -> bool {
    &&& a.stats == contributions_total(sc)
    &&& a.title == first_given_title(sc)
    &&& exists|i: int| 0 <= i < sc.len() && (#[trigger] sc[i]).ts == a.ts
    &&& forall|i: int| 0 <= i < sc.len() && (#[trigger] sc[i]).ts.len() > 0
        ==> a.ts.len() > 0 && !seq_less(sc[i].ts, a.ts)
}

proof fn lemma_group_session(cs: Seq<Contribution>, p: Seq<char>, sid: Seq<char>)
    ensures
        (group_contributions(cs).dom().contains(p) && group_contributions(cs)[p].sessions.dom().contains(sid))
            == (of_session(cs, p, sid).len() > 0),
        of_session(cs, p, sid).len() > 0
            ==> session_summarises(group_contributions(cs)[p].sessions[sid], of_session(cs, p, sid)),
    decreases cs.len(),
{
    reveal(Seq::filter);
    if cs.len() > 0 {
        let pre = cs.drop_last();
        let c = cs.last();
        lemma_group_session(pre, p, sid);
        let m0 = group_contributions(pre);
        let m = group_contributions(cs);
        let sc0 = of_session(pre, p, sid);
        let sc = of_session(cs, p, sid);
        if c.project == p && c.sid == sid {
            assert(sc == sc0.push(c));
            assert(sc.drop_last() == sc0);
            let a = m[p].sessions[sid];
            assert(sc.last() == c);
            assert(contributions_total(sc) == add_counts(contributions_total(sc0), c.stats));
            if sc0.len() > 0 {
                let a0 = m0[p].sessions[sid];
                assert(a == merge_session(Some(a0), c));
                let i0 = choose|i: int| 0 <= i < sc0.len() && (#[trigger] sc0[i]).ts == a0.ts;
                assert(sc[i0] == sc0[i0]);
                if a.ts == c.ts {
                    assert(sc[sc0.len() as int].ts == a.ts);
                }
                assert forall|i: int| 0 <= i < sc.len() && (#[trigger] sc[i]).ts.len() > 0
                    implies a.ts.len() > 0 && !seq_less(sc[i].ts, a.ts) by {
                    if i < sc0.len() {
                        assert(sc[i] == sc0[i]);
                        if a.ts == c.ts && a.ts != a0.ts {
                            // c.ts sorts before a0.ts, and sc[i].ts does not
                            if seq_less(sc[i].ts, c.ts) {
                                lemma_less_transitive(sc[i].ts, c.ts, a0.ts);
                            }
                        }
                    } else {
                        lemma_less_irreflexive(a.ts);
                        if a.ts != c.ts {
                            lemma_less_total(c.ts, a.ts);
                        }
                    }
                }
            } else {
                assert(!(m0.dom().contains(p) && m0[p].sessions.dom().contains(sid)));
                assert(a == merge_session(None, c));
                assert(contributions_total(sc0) == no_counts());
                assert(sc[0] == c);
                assert(a.ts == c.ts);
                assert forall|i: int| 0 <= i < sc.len() && (#[trigger] sc[i]).ts.len() > 0
                    implies a.ts.len() > 0 && !seq_less(sc[i].ts, a.ts) by {
                    lemma_less_irreflexive(a.ts);
                }
            }
        } else {
            assert(sc == sc0);
            if sc0.len() > 0 {
                assert(m[p].sessions[sid] == m0[p].sessions[sid]);
            }
        }
    } else {
        assert(of_session(cs, p, sid).len() == 0);
    }
}

/// A grouped session holds exactly what the log files of that session in
/// that project give, however many files it is spread over and in whatever
/// order they come: the session exists exactly when some file gives it, its
/// lines are the sum of theirs, its title is the first one they give, and
/// its timestamp is the earliest non-empty one among theirs (one of their
/// timestamps, and none of theirs sorts before it).
pub proof fn law_session_merges_files(cs: Seq<Contribution>, p: Seq<char>, sid: Seq<char>)
    ensures
        (group_contributions(cs).dom().contains(p) && group_contributions(cs)[p].sessions.dom().contains(sid))
            == (of_session(cs, p, sid).len() > 0),
        of_session(cs, p, sid).len() > 0
            ==> session_summarises(group_contributions(cs)[p].sessions[sid], of_session(cs, p, sid)),
{
    lemma_group_session(cs, p, sid);
}

/// The summaries that belong to project `p`, in order.
pub open spec fn of_project(cs: Seq<Contribution>, p: Seq<char>) -> Seq<Contribution> {
    cs.filter(|c: Contribution| c.project == p)
}

/// A project is grouped exactly when some log file gives it, and its lines
/// are the sum of the lines of all its files, whatever sessions they belong
/// to.
pub proof fn law_project_sums_files(cs: Seq<Contribution>, p: Seq<char>)
    ensures
        group_contributions(cs).dom().contains(p) == (of_project(cs, p).len() > 0),
        of_project(cs, p).len() > 0 ==> group_contributions(cs)[p].stats == contributions_total(of_project(cs, p)),
    decreases cs.len(),
{
    reveal(Seq::filter);
    if cs.len() > 0 {
        let pre = cs.drop_last();
        let c = cs.last();
        law_project_sums_files(pre, p);
        let sc0 = of_project(pre, p);
        let sc = of_project(cs, p);
        if c.project == p {
            assert(sc == sc0.push(c));
            assert(sc.drop_last() == sc0);
            assert(sc.last() == c);
            assert(contributions_total(sc) == add_counts(contributions_total(sc0), c.stats));
            if sc0.len() == 0 {
                assert(contributions_total(sc0) == no_counts());
            }
        } else {
            assert(sc == sc0);
        }
    } else {
        assert(of_project(cs, p).len() == 0);
    }
}

/// A file whose summary overflows makes the whole collection overflow.
proof fn lemma_overflow_file(
    dirs: Seq<ProjectDir>,
    filter: Option<Seq<char>>,
    i: int,
    j: int,
    done: Seq<Contribution>,
)
    requires
        0 <= i < dirs.len(),
        selected(dirs[i].dir_name@, filter),
        0 <= j < dirs[i].files@.len(),
        done == all_contributions(dirs.take(i), filter)
            + files_contributions(spec_project_name(dirs[i].dir_name@), dirs[i].files@.take(j)),
        file_contribution(spec_project_name(dirs[i].dir_name@), dirs[i].files@[j]) is Some,
        total_of(file_contribution(spec_project_name(dirs[i].dir_name@), dirs[i].files@[j])->0.stats)
            > usize::MAX,
    ensures
        !groups_fit(group_contributions(all_contributions(dirs, filter))),
{
    let p = spec_project_name(dirs[i].dir_name@);
    let files = dirs[i].files@;
    let c = file_contribution(p, files[j])->0;
    assert(files.take(j + 1).drop_last() == files.take(j));
    assert(files.take(j + 1).last() == files[j]);
    let fj1 = files_contributions(p, files.take(j + 1));
    assert(fj1 == files_contributions(p, files.take(j)).push(c));
    lemma_files_prefix(p, files, j + 1);
    let fall = files_contributions(p, files);
    assert(dirs.take(i + 1).drop_last() == dirs.take(i));
    assert(dirs.take(i + 1).last() == dirs[i]);
    let a1 = all_contributions(dirs.take(i + 1), filter);
    assert(a1 == all_contributions(dirs.take(i), filter) + fall);
    lemma_all_prefix(dirs, filter, i + 1);
    let all = all_contributions(dirs, filter);
    let k = done.len() as int;
    assert(fj1[fj1.len() - 1] == c);
    assert(fall.take(fj1.len() as int)[fj1.len() - 1] == fall[fj1.len() - 1]);
    assert(fall[fj1.len() - 1] == c);
    assert(a1[k] == c);
    assert(all[k] == a1[k]);
    lemma_group_covers(all, k);
    let m = group_contributions(all);
    assert(m.dom().contains(c.project));
}

// ---------------------------------------------------------------------------
// Executable grouping

/// The summary of one log file.
struct FileSummary {
    project: String,
    sid: String,
    stats: Stats,
    ts: String,
    title: Option<String>,
}

impl View for FileSummary {
    type V = Contribution;

    closed spec fn view(&self) -> Contribution {
        Contribution {
            project: self.project@,
            sid: self.sid@,
            stats: self.stats@,
            ts: self.ts@,
            title: opt_view(self.title),
        }
    }
}

struct SessionGroup {
    sid: String,
    stats: Stats,
    ts: String,
    title: Option<String>,
}

struct ProjectGroup {
    name: String,
    stats: Stats,
    sessions: Vec<SessionGroup>,
}

spec fn session_pairs(ss: Seq<SessionGroup>) -> Seq<(Seq<char>, SessionAcc)> {
    ss.map_values(|s: SessionGroup| (s.sid@, SessionAcc { stats: s.stats@, ts: s.ts@, title: opt_view(s.title) }))
}

spec fn group_acc(g: ProjectGroup) -> ProjectAcc {
    ProjectAcc { stats: g.stats@, sessions: to_map(session_pairs(g.sessions@)) }
}

spec fn group_pairs(gs: Seq<ProjectGroup>) -> Seq<(Seq<char>, ProjectAcc)> {
    gs.map_values(|g: ProjectGroup| (g.name@, group_acc(g)))
}

/// Ids in ascending order, and no session with more lines than its project.
spec fn session_stats_seq(ss: Seq<SessionGroup>) -> Seq<LineCounts> {
    ss.map_values(|s: SessionGroup| s.stats@)
}

spec fn group_ok(g: ProjectGroup) -> bool {
    &&& strictly_ascending(keys_of(session_pairs(g.sessions@)))
    &&& g.stats@ == counts_total(session_stats_seq(g.sessions@))
    &&& forall|j: int| 0 <= j < g.sessions@.len() ==> counts_le(#[trigger] g.sessions@[j].stats@, g.stats@)
    &&& total_of(g.stats@) <= usize::MAX
}

spec fn groups_ok(gs: Seq<ProjectGroup>) -> bool {
    &&& strictly_ascending(keys_of(group_pairs(gs)))
    &&& forall|i: int| 0 <= i < gs.len() ==> group_ok(#[trigger] gs[i])
}

fn clone_title(t: &Option<String>) -> (r: Option<String>)
    ensures
        opt_view(r) == opt_view(*t),
{
    match t {
        Some(s) => Some(s.clone()),
        None => None,
    }
}

fn clone_stats(s: &Stats) -> (r: Stats)
    ensures
        r@ == s@,
{
    Stats { write_lines: s.write_lines, edit_lines: s.edit_lines, text_lines: s.text_lines }
}

/// `merge_session` on a kept session.
fn merge_into(s: &mut SessionGroup, c: &FileSummary)
    requires
        add_counts(old(s).stats@, c@.stats).write <= usize::MAX,
        add_counts(old(s).stats@, c@.stats).edit <= usize::MAX,
        add_counts(old(s).stats@, c@.stats).text <= usize::MAX,
    ensures
        final(s).sid@ == old(s).sid@,
        (SessionAcc { stats: final(s).stats@, ts: final(s).ts@, title: opt_view(final(s).title) })
            == merge_session(Some(SessionAcc { stats: old(s).stats@, ts: old(s).ts@, title: opt_view(old(s).title) }), c@),
{
    s.stats.add(&c.stats);
    if c.ts.as_str().unicode_len() > 0 && (s.ts.as_str().unicode_len() == 0 || str_less(c.ts.as_str(), s.ts.as_str())) {
        s.ts = c.ts.clone();
    }
    if s.title.is_none() {
        s.title = clone_title(&c.title);
    }
}

/// Adds the summary `c` to the sessions of a project whose lines, with `c`
/// added, are `bound`.
fn add_to_sessions(ss: &mut Vec<SessionGroup>, c: &FileSummary, Ghost(before): Ghost<LineCounts>)
    requires
        strictly_ascending(keys_of(session_pairs(old(ss)@))),
        forall|j: int| 0 <= j < old(ss)@.len() ==> counts_le(#[trigger] old(ss)@[j].stats@, before),
        add_counts(before, c@.stats).write <= usize::MAX,
        add_counts(before, c@.stats).edit <= usize::MAX,
        add_counts(before, c@.stats).text <= usize::MAX,
    ensures
        strictly_ascending(keys_of(session_pairs(final(ss)@))),
        forall|j: int| 0 <= j < final(ss)@.len() ==> counts_le(#[trigger] final(ss)@[j].stats@, add_counts(before, c@.stats)),
        counts_total(session_stats_seq(final(ss)@)) == add_counts(counts_total(session_stats_seq(old(ss)@)), c@.stats),
        ({
            let m = to_map(session_pairs(old(ss)@));
            let prev = if m.dom().contains(c@.sid) { Some(m[c@.sid]) } else { None };
            to_map(session_pairs(final(ss)@)) == m.insert(c@.sid, merge_session(prev, c@))
        }),
{
    let ghost old_ss = ss@;
    let ghost pairs = session_pairs(ss@);
    let ghost m = to_map(pairs);
    proof {
        lemma_ascending_distinct(pairs);
        lemma_to_map_dom(pairs);
    }
    let mut i: usize = 0;
    while i < ss.len() && str_less(ss[i].sid.as_str(), c.sid.as_str())
        invariant
            i <= ss@.len(),
            ss@ == old_ss,
            pairs == session_pairs(ss@),
            forall|j: int| 0 <= j < i ==> seq_less(#[trigger] keys_of(pairs)[j], c@.sid),
        decreases ss.len() - i,
    {
        assert(keys_of(pairs)[i as int] == ss@[i as int].sid@);
        i = i + 1;
    }
    if i < ss.len() && str_eq(ss[i].sid.as_str(), c.sid.as_str()) {
        let mut s = ss.remove(i);
        proof {
            lemma_to_map_value(pairs, i as int);
            assert(keys_of(pairs)[i as int] == c@.sid);
            assert(counts_le(s.stats@, before));
        }
        merge_into(&mut s, c);
        let ghost sv = (s.sid@, SessionAcc { stats: s.stats@, ts: s.ts@, title: opt_view(s.title) });
        ss.insert(i, s);
        proof {
            lemma_to_map_update(pairs, i as int, sv.1);
            old_ss.remove_ensures(i as int);
            assert(session_pairs(ss@) =~= pairs.update(i as int, (pairs[i as int].0, sv.1)));
            let st = session_stats_seq(old_ss);
            assert(session_stats_seq(ss@) =~= st.update(i as int, sv.1.stats));
            lemma_counts_total_update(st, i as int, sv.1.stats);
            assert forall|j: int| 0 <= j < ss@.len() implies counts_le(#[trigger] ss@[j].stats@, add_counts(before, c@.stats)) by {
                if j != i {
                    assert(ss@[j] == old_ss[j]);
                }
            }
        }
    } else {
        proof {
            assert forall|j: int| 0 <= j < keys_of(pairs).len() implies #[trigger] keys_of(pairs)[j] != c@.sid by {
                if j < i {
                    lemma_less_irreflexive(c@.sid);
                } else {
                    assert(keys_of(pairs)[i as int] == ss@[i as int].sid@);
                    lemma_less_total(keys_of(pairs)[i as int], c@.sid);
                    if j > i {
                        lemma_less_transitive(c@.sid, keys_of(pairs)[i as int], keys_of(pairs)[j]);
                        lemma_less_irreflexive(c@.sid);
                    }
                }
            }
            assert(!keys_of(pairs).contains(c@.sid));
            assert(!m.dom().contains(c@.sid));
            if i < ss@.len() {
                assert(keys_of(pairs)[i as int] == ss@[i as int].sid@);
                lemma_less_total(keys_of(pairs)[i as int], c@.sid);
            }
            lemma_ascending_insert(keys_of(pairs), i as int, c@.sid);
            lemma_less_irreflexive(c@.ts);
        }
        let s = SessionGroup {
            sid: c.sid.clone(),
            stats: clone_stats(&c.stats),
            ts: c.ts.clone(),
            title: clone_title(&c.title),
        };
        let ghost sv = SessionAcc { stats: s.stats@, ts: s.ts@, title: opt_view(s.title) };
        assert(sv == merge_session(None, c@));
        ss.insert(i, s);
        proof {
            lemma_to_map_insert(pairs, i as int, c@.sid, sv);
            old_ss.insert_ensures(i as int, s);
            assert(session_pairs(ss@) =~= pairs.insert(i as int, (c@.sid, sv)));
            let st = session_stats_seq(old_ss);
            st.insert_ensures(i as int, sv.stats);
            assert(session_stats_seq(ss@) =~= st.insert(i as int, sv.stats));
            lemma_counts_total_insert(st, i as int, sv.stats);
            assert forall|j: int| 0 <= j < ss@.len() implies counts_le(#[trigger] ss@[j].stats@, add_counts(before, c@.stats)) by {
                if j < i {
                    assert(ss@[j] == old_ss[j]);
                } else if j > i {
                    let j1 = j - 1;
                    assert(ss@[j1 + 1] == old_ss[j1]);
                }
            }
        }
    }
}


/// `a + b`, unless the total of the sum exceeds `usize::MAX`.
fn checked_sum(a: &Stats, b: &Stats) -> (r: Option<Stats>)
    ensures
        match r {
            Some(x) => x@ == add_counts(a@, b@) && total_of(x@) <= usize::MAX,
            None => total_of(add_counts(a@, b@)) > usize::MAX,
        },
{
    let w = match a.write_lines.checked_add(b.write_lines) {
        Some(x) => x,
        None => {
            return None;
        },
    };
    let e = match a.edit_lines.checked_add(b.edit_lines) {
        Some(x) => x,
        None => {
            return None;
        },
    };
    let t = match a.text_lines.checked_add(b.text_lines) {
        Some(x) => x,
        None => {
            return None;
        },
    };
    match w.checked_add(e) {
        Some(we) => match we.checked_add(t) {
            Some(_) => Some(Stats { write_lines: w, edit_lines: e, text_lines: t }),
            None => None,
        },
        None => None,
    }
}

/// Adds the summary `c` to the projects; `false` where a project's total
/// would exceed `usize::MAX`.
fn add_to_groups(gs: &mut Vec<ProjectGroup>, c: &FileSummary) -> (ok: bool)
    requires
        groups_ok(old(gs)@),
    ensures
        ok ==> groups_ok(final(gs)@)
            && to_map(group_pairs(final(gs)@)) == add_contribution(to_map(group_pairs(old(gs)@)), c@),
        !ok ==> ({
            let m = to_map(group_pairs(old(gs)@));
            let g = if m.dom().contains(c@.project) { m[c@.project] } else { empty_project() };
            total_of(add_counts(g.stats, c@.stats)) > usize::MAX
        }),
{
    let ghost old_gs = gs@;
    let ghost pairs = group_pairs(gs@);
    let ghost m = to_map(pairs);
    proof {
        lemma_ascending_distinct(pairs);
        lemma_to_map_dom(pairs);
    }
    let mut i: usize = 0;
    while i < gs.len() && str_less(gs[i].name.as_str(), c.project.as_str())
        invariant
            i <= gs@.len(),
            gs@ == old_gs,
            pairs == group_pairs(gs@),
            forall|j: int| 0 <= j < i ==> seq_less(#[trigger] keys_of(pairs)[j], c@.project),
        decreases gs.len() - i,
    {
        assert(keys_of(pairs)[i as int] == gs@[i as int].name@);
        i = i + 1;
    }
    if i < gs.len() && str_eq(gs[i].name.as_str(), c.project.as_str()) {
        let mut g = gs.remove(i);
        proof {
            lemma_to_map_value(pairs, i as int);
            assert(keys_of(pairs)[i as int] == c@.project);
            assert(group_ok(old_gs[i as int]));
        }
        let new_stats = match checked_sum(&g.stats, &c.stats) {
            Some(x) => x,
            None => {
                return false;
            },
        };
        add_to_sessions(&mut g.sessions, c, Ghost(g.stats@));
        g.stats = new_stats;
        let ghost gv = group_acc(g);
        gs.insert(i, g);
        proof {
            lemma_to_map_update(pairs, i as int, gv);
            old_gs.remove_ensures(i as int);
            assert(group_pairs(gs@) =~= pairs.update(i as int, (pairs[i as int].0, gv)));
            assert forall|j: int| 0 <= j < gs@.len() implies group_ok(#[trigger] gs@[j]) by {
                if j != i {
                    assert(gs@[j] == old_gs[j]);
                }
            }
        }
        true
    } else {
        proof {
            assert forall|j: int| 0 <= j < keys_of(pairs).len() implies #[trigger] keys_of(pairs)[j] != c@.project by {
                if j < i {
                    lemma_less_irreflexive(c@.project);
                } else {
                    assert(keys_of(pairs)[i as int] == gs@[i as int].name@);
                    lemma_less_total(keys_of(pairs)[i as int], c@.project);
                    if j > i {
                        lemma_less_transitive(c@.project, keys_of(pairs)[i as int], keys_of(pairs)[j]);
                        lemma_less_irreflexive(c@.project);
                    }
                }
            }
            assert(!keys_of(pairs).contains(c@.project));
            assert(!m.dom().contains(c@.project));
            if i < gs@.len() {
                assert(keys_of(pairs)[i as int] == gs@[i as int].name@);
                lemma_less_total(keys_of(pairs)[i as int], c@.project);
            }
            lemma_ascending_insert(keys_of(pairs), i as int, c@.project);
        }
        let zero = Stats { write_lines: 0, edit_lines: 0, text_lines: 0 };
        let new_stats = match checked_sum(&zero, &c.stats) {
            Some(x) => x,
            None => {
                return false;
            },
        };
        let mut sessions: Vec<SessionGroup> = Vec::new();
        proof {
            assert(session_stats_seq(sessions@) =~= Seq::<LineCounts>::empty());
            assert(keys_of(session_pairs(sessions@)) =~= Seq::<Seq<char>>::empty());
            assert(to_map(session_pairs(sessions@)) =~= Map::<Seq<char>, SessionAcc>::empty());
        }
        add_to_sessions(&mut sessions, c, Ghost(zero@));
        let g = ProjectGroup { name: c.project.clone(), stats: new_stats, sessions };
        let ghost gv = group_acc(g);
        assert(gv == (ProjectAcc {
            stats: add_counts(empty_project().stats, c@.stats),
            sessions: empty_project().sessions.insert(c@.sid, merge_session(None, c@)),
        }));
        gs.insert(i, g);
        proof {
            lemma_to_map_insert(pairs, i as int, c@.project, gv);
            old_gs.insert_ensures(i as int, g);
            assert(group_pairs(gs@) =~= pairs.insert(i as int, (c@.project, gv)));
            assert forall|j: int| 0 <= j < gs@.len() implies group_ok(#[trigger] gs@[j]) by {
                if j < i {
                    assert(gs@[j] == old_gs[j]);
                } else if j > i {
                    let j1 = j - 1;
                    assert(gs@[j1 + 1] == old_gs[j1]);
                }
            }
        }
        true
    }
}


/// Whether the total of all lines counted by `entries` fits in a `usize`.
fn entries_total_fits(entries: &Vec<SessionEntry>) -> (r: bool)
    ensures
        r == (total_of(sum_entries(entries_view(entries@))) <= usize::MAX),
{
    let ghost es = entries_view(entries@);
    let mut total: usize = 0;
    let mut i: usize = 0;
    while i < entries.len()
        invariant
            i <= entries@.len(),
            es == entries_view(entries@),
            total == total_of(sum_entries(es.take(i as int))),
        decreases entries.len() - i,
    {
        assert(es.take(i + 1).drop_last() == es.take(i as int));
        assert(es.take(i + 1).last() == entries@[i as int]@);
        proof { lemma_sum_entries_prefix(es, i + 1); }
        let e = &entries[i];
        let t1 = match total.checked_add(e.write_lines) {
            Some(x) => x,
            None => {
                return false;
            },
        };
        let t2 = match t1.checked_add(e.edit_lines) {
            Some(x) => x,
            None => {
                return false;
            },
        };
        total = match t2.checked_add(e.text_lines) {
            Some(x) => x,
            None => {
                return false;
            },
        };
        i = i + 1;
    }
    assert(es.take(entries@.len() as int) == es);
    true
}

/// The summary of the log file `f` of `project`: `Some(None)` where the
/// file adds nothing, `None` where its total exceeds `usize::MAX`.
fn summarize_file(project: &String, f: &LogFile) -> (r: Option<Option<FileSummary>>)
    ensures
        match r {
            None => file_contribution(project@, *f) is Some
                && total_of(file_contribution(project@, *f)->0.stats) > usize::MAX,
            Some(None) => file_contribution(project@, *f) is None,
            Some(Some(x)) => file_contribution(project@, *f) == Some(x@) && total_of(x@.stats) <= usize::MAX,
        },
{
    let ghost es = spec_entries(line_records(f.lines@));
    let entries = match parse_jsonl_file(&f.lines) {
        Some(v) => v,
        None => {
            proof {
                let k = choose|k: int| 0 <= k < es.len() && !({
                    &&& es[k].write_lines <= usize::MAX
                    &&& es[k].edit_lines <= usize::MAX
                    &&& es[k].text_lines <= usize::MAX
                });
                lemma_sum_entries_each(es, k);
            }
            return None;
        },
    };
    if entries.len() == 0 {
        return Some(None);
    }
    if !entries_total_fits(&entries) {
        return None;
    }
    let slice = entries.as_slice();
    let (stats, ts, sid, title) = aggregate_entries(slice);
    if stats.total() == 0 {
        return Some(None);
    }
    let sid = if sid.as_str().unicode_len() == 0 { f.stem.clone() } else { sid };
    Some(Some(FileSummary { project: project.clone(), sid, stats, ts, title }))
}

spec fn summaries_view(v: Seq<FileSummary>) -> Seq<Contribution> {
    v.map_values(|s: FileSummary| s@)
}

/// A session of a project as displayed.
fn build_session(s: &SessionGroup) -> (r: SessionStats)
    ensures
        r@ == session_view(s.sid@, SessionAcc { stats: s.stats@, ts: s.ts@, title: opt_view(s.title) }),
{
    let title = match &s.title {
        Some(t) => t.clone(),
        None => short_session_id(s.sid.as_str()),
    };
    SessionStats { date: extract_date(s.ts.as_str()), title, stats: clone_stats(&s.stats) }
}

/// A project as displayed, with its sessions newest first.
fn build_project(g: &ProjectGroup) -> (r: ProjectStats)
    requires
        group_ok(*g),
    ensures
        r@ == project_view(g.name@, group_acc(*g)),
        total_of(r@.stats) <= usize::MAX,
        r@.stats == sessions_total(r@.sessions),
        newest_first(r@.sessions),
{
    let ghost pairs = session_pairs(g.sessions@);
    let ghost acc = group_acc(*g);
    let ghost listed = listed_sessions(acc);
    proof {
        lemma_ascending_distinct(pairs);
        lemma_to_map_dom(pairs);
        assert forall|k: Seq<char>| acc.sessions.dom().contains(k) <==> keys_of(pairs).contains(k) by {}
        lemma_sorted_keys(acc.sessions.dom(), keys_of(pairs));
    }
    let mut sessions: Vec<SessionStats> = Vec::new();
    let mut j: usize = 0;
    while j < g.sessions.len()
        invariant
            j <= g.sessions@.len(),
            pairs == session_pairs(g.sessions@),
            acc == group_acc(*g),
            listed == listed_sessions(acc),
            distinct_keys(pairs),
            sorted_keys(acc.sessions.dom()) == keys_of(pairs),
            sessions_view(sessions@) == sort_by_date(listed.take(j as int)),
        decreases g.sessions.len() - j,
    {
        proof {
            lemma_to_map_value(pairs, j as int);
            assert(keys_of(pairs)[j as int] == g.sessions@[j as int].sid@);
            assert(listed[j as int] == session_view(keys_of(pairs)[j as int], acc.sessions[keys_of(pairs)[j as int]]));
            assert(listed.take(j + 1).drop_last() == listed.take(j as int));
            assert(listed.take(j + 1).last() == listed[j as int]);
        }
        let s = build_session(&g.sessions[j]);
        insert_session(&mut sessions, s);
        j = j + 1;
    }
    assert(listed.take(g.sessions@.len() as int) == listed);
    proof {
        law_sort_by_date(listed);
        assert forall|j: int| 0 <= j < listed.len() implies #[trigger] listed[j].stats == g.sessions@[j].stats@ by {
            lemma_to_map_value(pairs, j);
            assert(keys_of(pairs)[j] == g.sessions@[j].sid@);
        }
        assert(listed.map_values(|x: SessionStatsView| x.stats) =~= session_stats_seq(g.sessions@));
    }
    ProjectStats { name: g.name.clone(), stats: clone_stats(&g.stats), sessions }
}

/// Statistics of every kept project directory, busiest project first, each
/// with its sessions newest first. A directory is kept when
/// `project_filter` is `None` or occurs in its project name or its name.
/// `None` where a project's total number of lines exceeds `usize::MAX`.
pub fn collect_stats(dirs: &Vec<ProjectDir>, project_filter: Option<&str>) -> (r: Option<Vec<ProjectStats>>)
    ensures
        ({
            let groups = group_contributions(all_contributions(dirs@, filter_view(project_filter)));
            match r {
                Some(ps) => {
                    &&& groups_fit(groups)
                    &&& projects_view(ps@) == spec_collect_stats(dirs@, filter_view(project_filter))
                    &&& busiest_first(projects_view(ps@))
                    &&& forall|i: int| 0 <= i < ps@.len() ==> well_grouped(groups, #[trigger] projects_view(ps@)[i])
                    &&& forall|p: Seq<char>| #[trigger] groups.dom().contains(p)
                        ==> exists|i: int| 0 <= i < ps@.len() && projects_view(ps@)[i].name == p
                    &&& forall|i: int, j: int| 0 <= i < j < ps@.len()
                        ==> #[trigger] projects_view(ps@)[i].name != #[trigger] projects_view(ps@)[j].name
                },
                None => !groups_fit(groups),
            }
        }),
{
    let ghost fv = filter_view(project_filter);
    let ghost all = all_contributions(dirs@, fv);
    let mut summaries: Vec<FileSummary> = Vec::new();
    let mut i: usize = 0;
    while i < dirs.len()
        invariant
            i <= dirs@.len(),
            fv == filter_view(project_filter),
            all == all_contributions(dirs@, fv),
            summaries_view(summaries@) == all_contributions(dirs@.take(i as int), fv),
        decreases dirs.len() - i,
    {
        let d = &dirs[i];
        assert(dirs@.take(i + 1).drop_last() == dirs@.take(i as int));
        assert(dirs@.take(i + 1).last() == d);
        let name = extract_project_name(d.dir_name.as_str());
        if dir_selected(d.dir_name.as_str(), project_filter) {
            let ghost before = summaries_view(summaries@);
            let mut j: usize = 0;
            while j < d.files.len()
                invariant
                    i < dirs@.len(),
                    d == dirs@[i as int],
                    j <= d.files@.len(),
                    fv == filter_view(project_filter),
                    all == all_contributions(dirs@, fv),
                    selected(d.dir_name@, fv),
                    name@ == spec_project_name(d.dir_name@),
                    before == all_contributions(dirs@.take(i as int), fv),
                    summaries_view(summaries@) == before + files_contributions(name@, d.files@.take(j as int)),
                decreases d.files.len() - j,
            {
                assert(d.files@.take(j + 1).drop_last() == d.files@.take(j as int));
                assert(d.files@.take(j + 1).last() == d.files@[j as int]);
                match summarize_file(&name, &d.files[j]) {
                    None => {
                        proof {
                            lemma_overflow_file(dirs@, fv, i as int, j as int, summaries_view(summaries@));
                        }
                        return None;
                    },
                    Some(None) => {},
                    Some(Some(x)) => {
                        let ghost xv = x@;
                        let ghost prev = summaries_view(summaries@);
                        let ghost fcj = files_contributions(name@, d.files@.take(j as int));
                        summaries.push(x);
                        assert(summaries_view(summaries@) =~= prev.push(xv));
                        assert(files_contributions(name@, d.files@.take(j + 1)) == fcj.push(xv));
                        assert((before + fcj).push(xv) =~= before + fcj.push(xv));
                    },
                }
                j = j + 1;
            }
            assert(d.files@.take(d.files@.len() as int) == d.files@);
        }
        i = i + 1;
    }
    assert(dirs@.take(dirs@.len() as int) == dirs@);
    let mut groups: Vec<ProjectGroup> = Vec::new();
    proof {
        assert(keys_of(group_pairs(groups@)) =~= Seq::<Seq<char>>::empty());
        assert(to_map(group_pairs(groups@)) =~= Map::<Seq<char>, ProjectAcc>::empty());
        assert(all.take(0) =~= Seq::<Contribution>::empty());
    }
    let mut k: usize = 0;
    while k < summaries.len()
        invariant
            k <= summaries@.len(),
            all == summaries_view(summaries@),
            all == all_contributions(dirs@, filter_view(project_filter)),
            groups_ok(groups@),
            to_map(group_pairs(groups@)) == group_contributions(all.take(k as int)),
        decreases summaries.len() - k,
    {
        assert(all.take(k + 1).drop_last() == all.take(k as int));
        assert(all.take(k + 1).last() == summaries@[k as int]@);
        let ghost g0 = to_map(group_pairs(groups@));
        if !add_to_groups(&mut groups, &summaries[k]) {
            proof {
                let c = all[k as int];
                assert(c == summaries@[k as int]@);
                let m1 = group_contributions(all.take(k + 1));
                assert(m1 == add_contribution(g0, c));
                assert(m1.dom().contains(c.project));
                let g = if g0.dom().contains(c.project) { g0[c.project] } else { empty_project() };
                assert(m1[c.project].stats == add_counts(g.stats, c.stats));
                lemma_group_prefix(all, k + 1, c.project);
                let big = group_contributions(all);
                assert(big.dom().contains(c.project));
                assert(total_of(big[c.project].stats) > usize::MAX);
            }
            return None;
        }
        k = k + 1;
    }
    assert(all.take(all.len() as int) == all);
    let ghost gpairs = group_pairs(groups@);
    let ghost m = to_map(gpairs);
    let ghost listed = listed_projects(m);
    proof {
        lemma_ascending_distinct(gpairs);
        lemma_to_map_dom(gpairs);
        assert forall|p: Seq<char>| m.dom().contains(p) <==> keys_of(gpairs).contains(p) by {}
        lemma_sorted_keys(m.dom(), keys_of(gpairs));
        assert forall|p: Seq<char>| #[trigger] m.dom().contains(p) implies total_of(m[p].stats) <= usize::MAX by {
            let x = choose|x: int| 0 <= x < keys_of(gpairs).len() && keys_of(gpairs)[x] == p;
            lemma_to_map_value(gpairs, x);
            assert(group_ok(groups@[x]));
        }
    }
    let mut result: Vec<ProjectStats> = Vec::new();
    let mut i: usize = 0;
    while i < groups.len()
        invariant
            i <= groups@.len(),
            all == all_contributions(dirs@, filter_view(project_filter)),
            m == group_contributions(all),
            groups_fit(m),
            gpairs == group_pairs(groups@),
            groups_ok(groups@),
            m == to_map(gpairs),
            listed == listed_projects(m),
            distinct_keys(gpairs),
            sorted_keys(m.dom()) == keys_of(gpairs),
            projects_view(result@) == sort_by_total(listed.take(i as int)),
            forall|x: int| 0 <= x < result@.len() ==> total_of(result@[x]@.stats) <= usize::MAX,
            listed.len() == groups@.len(),
            forall|x: int| 0 <= x < i ==> well_grouped(m, #[trigger] listed[x]),
        decreases groups.len() - i,
    {
        proof {
            lemma_to_map_value(gpairs, i as int);
            assert(keys_of(gpairs)[i as int] == groups@[i as int].name@);
            assert(listed[i as int] == project_view(keys_of(gpairs)[i as int], m[keys_of(gpairs)[i as int]]));
            assert(listed.take(i + 1).drop_last() == listed.take(i as int));
            assert(listed.take(i + 1).last() == listed[i as int]);
            assert(group_ok(groups@[i as int]));
        }
        let p = build_project(&groups[i]);
        assert(listed[i as int] == p@);
        assert(well_grouped(m, listed[i as int]));
        insert_project(&mut result, p);
        i = i + 1;
    }
    assert(listed.take(groups@.len() as int) == listed);
    proof {
        broadcast use vstd::seq_lib::group_to_multiset_ensures;
        let rv = projects_view(result@);
        law_sort_by_total(listed);
        assert forall|x: int| 0 <= x < result@.len() implies well_grouped(m, #[trigger] projects_view(result@)[x]) by {
            assert(rv.contains(rv[x]));
            assert(rv.to_multiset().count(rv[x]) > 0);
            assert(listed.contains(rv[x]));
            let y = choose|y: int| 0 <= y < listed.len() && listed[y] == rv[x];
            assert(well_grouped(m, listed[y]));
        }
        assert forall|p: Seq<char>| #[trigger] m.dom().contains(p)
            implies exists|x: int| 0 <= x < result@.len() && projects_view(result@)[x].name == p by {
            let k = choose|k: int| 0 <= k < keys_of(gpairs).len() && keys_of(gpairs)[k] == p;
            assert(listed[k].name == p);
            assert(listed.contains(listed[k]));
            assert(listed.to_multiset().count(listed[k]) > 0);
            assert(rv.contains(listed[k]));
        }
        assert forall|x: int, y: int| 0 <= x < y < result@.len()
            implies #[trigger] projects_view(result@)[x].name != #[trigger] projects_view(result@)[y].name by {
            if rv[x].name == rv[y].name {
                assert(well_grouped(m, rv[x]) && well_grouped(m, rv[y]));
                let e = rv[x];
                assert(rv[y] == e);
                assert(rv.remove(x)[y - 1] == e);
                assert(rv.remove(x).contains(e));
                assert(rv.remove(x).to_multiset().count(e) > 0);
                assert(rv.to_multiset().count(e) >= 2);
                assert(listed.contains(e)) by {
                    assert(rv.contains(e));
                    assert(rv.to_multiset().count(e) > 0);
                }
                let k = choose|k: int| 0 <= k < listed.len() && listed[k] == e;
                assert forall|z: int| 0 <= z < listed.remove(k).len() implies #[trigger] listed.remove(k)[z] != e by {
                    let zz = if z < k { z } else { z + 1 };
                    assert(listed.remove(k)[z] == listed[zz]);
                    assert(keys_of(gpairs)[zz] != keys_of(gpairs)[k]);
                    assert(listed[zz].name == keys_of(gpairs)[zz]);
                    assert(listed[k].name == keys_of(gpairs)[k]);
                }
                assert(!listed.remove(k).contains(e));
                assert(listed.remove(k).to_multiset().count(e) == 0);
                assert(listed.to_multiset().count(e) == 1);
            }
        }
    }
    Some(result)
}


/// Whether a directory with this name is kept under the filter.
pub fn dir_selected(dir_name: &str, project_filter: Option<&str>) -> (r: bool)
    ensures
        r == selected(dir_name@, filter_view(project_filter)),
{
    match project_filter {
        Some(f) => {
            let name = extract_project_name(dir_name);
            str_contains(name.as_str(), f) || str_contains(dir_name, f)
        },
        None => true,
    }
}

/// A file name whose extension is `jsonl`: it ends with `".jsonl"` after at
/// least one other character (as `Path::extension` reads names).
pub open spec fn has_jsonl_extension(name: Seq<char>) -> bool {
    name.len() > 6 && name.skip(name.len() - 6) == seq!['.', 'j', 's', 'o', 'n', 'l']
}

/// Whether a file with this name is a session log.
pub fn is_jsonl_file_name(name: &str) -> (r: bool)
    ensures
        r == has_jsonl_extension(name@),
{
    let cs = chars_of(name);
    let n = cs.len();
    if n <= 6 {
        return false;
    }
    let r = cs[n - 6] == '.' && cs[n - 5] == 'j' && cs[n - 4] == 's' && cs[n - 3] == 'o' && cs[n - 2] == 'n'
        && cs[n - 1] == 'l';
    proof {
        let t = cs@.skip(n - 6);
        if r {
            assert(t =~= seq!['.', 'j', 's', 'o', 'n', 'l']);
        } else if t == seq!['.', 'j', 's', 'o', 'n', 'l'] {
            assert(t[0] == cs@[n - 6] && t[1] == cs@[n - 5] && t[2] == cs@[n - 4]);
            assert(t[3] == cs@[n - 3] && t[4] == cs@[n - 2] && t[5] == cs@[n - 1]);
        }
    }
    r
}

} // verus!
