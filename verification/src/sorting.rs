//! Stable orderings of sessions (newest date first) and projects (most
//! lines first).
use vstd::prelude::*;
use crate::parser::LineCounts;
use crate::stats::{ProjectStats, ProjectStatsView, SessionStats, SessionStatsView, counts_total, lemma_counts_total_front, total_of};
use crate::text::{lemma_less_transitive, seq_less, str_less};

verus! {

pub open spec fn sessions_view(v: Seq<SessionStats>) -> Seq<SessionStatsView> {
    v.map_values(|s: SessionStats| s@)
}

pub open spec fn projects_view(v: Seq<ProjectStats>) -> Seq<ProjectStatsView> {
    v.map_values(|p: ProjectStats| p@)
}

/// `x` placed into `s` after every session whose date is not older than its
/// own.
pub open spec fn insert_by_date(s: Seq<SessionStatsView>, x: SessionStatsView) -> Seq<SessionStatsView>
    decreases s.len(),
{
    if s.len() == 0 {
        seq![x]
    } else if seq_less(s[0].date, x.date) {
        seq![x] + s
    } else {
        seq![s[0]] + insert_by_date(s.drop_first(), x)
    }
}

/// The sessions ordered by date, newest first; sessions of the same date
/// keep their order (a stable sort).
pub open spec fn sort_by_date(s: Seq<SessionStatsView>) -> Seq<SessionStatsView>
    decreases s.len(),
{
    if s.len() == 0 {
        s
    } else {
        insert_by_date(sort_by_date(s.drop_last()), s.last())
    }
}

/// `x` placed into `s` after every project with at least as many lines.
pub open spec fn insert_by_total(s: Seq<ProjectStatsView>, x: ProjectStatsView) -> Seq<ProjectStatsView>
    decreases s.len(),
{
    if s.len() == 0 {
        seq![x]
    } else if total_of(s[0].stats) < total_of(x.stats) {
        seq![x] + s
    } else {
        seq![s[0]] + insert_by_total(s.drop_first(), x)
    }
}

/// The projects ordered by their total lines, most first; projects with the
/// same total keep their order (a stable sort).
pub open spec fn sort_by_total(s: Seq<ProjectStatsView>) -> Seq<ProjectStatsView>
    decreases s.len(),
{
    if s.len() == 0 {
        s
    } else {
        insert_by_total(sort_by_total(s.drop_last()), s.last())
    }
}

proof fn lemma_insert_by_date_at(s: Seq<SessionStatsView>, x: SessionStatsView, j: int)
    requires
        0 <= j <= s.len(),
        forall|k: int| 0 <= k < j ==> !seq_less(#[trigger] s[k].date, x.date),
        j < s.len() ==> seq_less(s[j].date, x.date),
    ensures
        insert_by_date(s, x) == s.insert(j, x),
    decreases j,
{
    s.insert_ensures(j, x);
    if j == 0 {
        assert(s.insert(0, x) =~= seq![x] + s);
        if s.len() == 0 {
            assert(s.insert(0, x) =~= seq![x]);
        }
    } else {
        let t = s.drop_first();
        assert forall|k: int| 0 <= k < j - 1 implies !seq_less(#[trigger] t[k].date, x.date) by {
            assert(t[k] == s[k + 1]);
        }
        lemma_insert_by_date_at(t, x, j - 1);
        t.insert_ensures(j - 1, x);
        assert(s.insert(j, x) =~= seq![s[0]] + t.insert(j - 1, x));
    }
}

proof fn lemma_insert_by_total_at(s: Seq<ProjectStatsView>, x: ProjectStatsView, j: int)
    requires
        0 <= j <= s.len(),
        forall|k: int| 0 <= k < j ==> !(total_of(#[trigger] s[k].stats) < total_of(x.stats)),
        j < s.len() ==> total_of(s[j].stats) < total_of(x.stats),
    ensures
        insert_by_total(s, x) == s.insert(j, x),
    decreases j,
{
    s.insert_ensures(j, x);
    if j == 0 {
        assert(s.insert(0, x) =~= seq![x] + s);
        if s.len() == 0 {
            assert(s.insert(0, x) =~= seq![x]);
        }
    } else {
        let t = s.drop_first();
        assert forall|k: int| 0 <= k < j - 1 implies !(total_of(#[trigger] t[k].stats) < total_of(x.stats)) by {
            assert(t[k] == s[k + 1]);
        }
        lemma_insert_by_total_at(t, x, j - 1);
        t.insert_ensures(j - 1, x);
        assert(s.insert(j, x) =~= seq![s[0]] + t.insert(j - 1, x));
    }
}

/// Places `x` among sessions ordered newest first, after those of the same
/// or a newer date.
pub fn insert_session(v: &mut Vec<SessionStats>, x: SessionStats)
    ensures
        sessions_view(final(v)@) == insert_by_date(sessions_view(old(v)@), x@),
{
    let ghost sv = sessions_view(v@);
    let mut j: usize = 0;
    while j < v.len() && !str_less(v[j].date.as_str(), x.date.as_str())
        invariant
            j <= v@.len(),
            sv == sessions_view(v@),
            forall|k: int| 0 <= k < j ==> !seq_less(#[trigger] sv[k].date, x@.date),
        decreases v.len() - j,
    {
        j = j + 1;
    }
    proof {
        lemma_insert_by_date_at(sv, x@, j as int);
    }
    let ghost xv = x@;
    v.insert(j, x);
    proof {
        v@.insert_ensures(j as int, x);
        sv.insert_ensures(j as int, xv);
        assert(sessions_view(v@) =~= sv.insert(j as int, xv));
    }
}

/// Places `x` among projects ordered by total lines, most first, after those
/// with as many or more lines.
pub fn insert_project(v: &mut Vec<ProjectStats>, x: ProjectStats)
    requires
        total_of(x@.stats) <= usize::MAX,
        forall|k: int| 0 <= k < old(v)@.len() ==> total_of(old(v)@[k]@.stats) <= usize::MAX,
    ensures
        projects_view(final(v)@) == insert_by_total(projects_view(old(v)@), x@),
        forall|k: int| 0 <= k < final(v)@.len() ==> total_of(final(v)@[k]@.stats) <= usize::MAX,
{
    let ghost pv = projects_view(v@);
    let ghost old_v = v@;
    let xt = x.stats.total();
    let mut j: usize = 0;
    while j < v.len() && !(v[j].stats.total() < xt)
        invariant
            j <= v@.len(),
            pv == projects_view(v@),
            v@ == old_v,
            xt == total_of(x@.stats),
            forall|k: int| 0 <= k < v@.len() ==> total_of(v@[k]@.stats) <= usize::MAX,
            forall|k: int| 0 <= k < j ==> !(total_of(#[trigger] pv[k].stats) < total_of(x@.stats)),
        decreases v.len() - j,
    {
        j = j + 1;
    }
    proof {
        lemma_insert_by_total_at(pv, x@, j as int);
    }
    let ghost xv = x@;
    v.insert(j, x);
    proof {
        old_v.insert_ensures(j as int, x);
        pv.insert_ensures(j as int, xv);
        assert(projects_view(v@) =~= pv.insert(j as int, xv));
        assert forall|k: int| 0 <= k < v@.len() implies total_of(v@[k]@.stats) <= usize::MAX by {
            if k < j {
                assert(v@[k] == old_v[k]);
            } else if k > j {
                let k1 = k - 1;
                assert(v@[k1 + 1] == old_v[k1]);
            }
        }
    }
}


// ---------------------------------------------------------------------------
// Laws of the orderings

/// No session comes before a session with a later date.
pub open spec fn newest_first(s: Seq<SessionStatsView>) -> bool {
    forall|i: int, j: int| 0 <= i < j < s.len() ==> !seq_less(#[trigger] s[i].date, #[trigger] s[j].date)
}

/// No project comes before a project with more lines.
pub open spec fn busiest_first(s: Seq<ProjectStatsView>) -> bool {
    forall|i: int, j: int| 0 <= i < j < s.len() ==> total_of(#[trigger] s[j].stats) <= total_of(#[trigger] s[i].stats)
}

proof fn lemma_insert_by_date(s: Seq<SessionStatsView>, x: SessionStatsView)
    ensures
        insert_by_date(s, x).len() == s.len() + 1,
        insert_by_date(s, x).to_multiset() == s.to_multiset().insert(x),
        forall|k: int| 0 <= k < insert_by_date(s, x).len() ==> #[trigger] insert_by_date(s, x)[k] == x
            || s.contains(insert_by_date(s, x)[k]),
        newest_first(s) ==> newest_first(insert_by_date(s, x)),
    decreases s.len(),
{
    broadcast use vstd::seq_lib::group_to_multiset_ensures, vstd::multiset::group_multiset_axioms;
    let r = insert_by_date(s, x);
    if s.len() == 0 {
        assert(r.drop_first() =~= Seq::<SessionStatsView>::empty());
        assert(r.to_multiset() =~= s.to_multiset().insert(x));
    } else if seq_less(s[0].date, x.date) {
        assert(r.drop_first() == s);
        assert(r =~= s.insert(0, x));
        assert(r.to_multiset() == s.insert(0, x).to_multiset());
        assert forall|k: int| 0 <= k < r.len() implies #[trigger] r[k] == x || s.contains(r[k]) by {
            if k > 0 {
                assert(r[k] == s[k - 1]);
            }
        }
        if newest_first(s) {
            assert forall|i: int, j: int| 0 <= i < j < r.len() implies !seq_less(#[trigger] r[i].date, #[trigger] r[j].date) by {
                assert(r[j] == s[j - 1]);
                if i == 0 {
                    if j - 1 > 0 {
                        assert(!seq_less(s[0].date, s[j - 1].date));
                    }
                    if seq_less(x.date, s[j - 1].date) {
                        lemma_less_transitive(s[0].date, x.date, s[j - 1].date);
                        if j - 1 > 0 {
                        } else {
                            crate::text::lemma_less_irreflexive(s[0].date);
                        }
                    }
                } else {
                    assert(r[i] == s[i - 1]);
                }
            }
        }
    } else {
        let t = s.drop_first();
        lemma_insert_by_date(t, x);
        let rt = insert_by_date(t, x);
        assert(r == seq![s[0]] + rt);
        assert(r.drop_first() == rt);
        assert(s =~= t.insert(0, s[0]));
        assert(s.to_multiset() == t.insert(0, s[0]).to_multiset());
        assert(r =~= rt.insert(0, s[0]));
        assert(r.to_multiset() == rt.insert(0, s[0]).to_multiset());
        assert(r.to_multiset() =~= s.to_multiset().insert(x));
        assert forall|k: int| 0 <= k < r.len() implies #[trigger] r[k] == x || s.contains(r[k]) by {
            if k == 0 {
                assert(s[0] == r[0]);
            } else {
                assert(r[k] == rt[k - 1]);
                if rt[k - 1] != x {
                    let m = choose|m: int| 0 <= m < t.len() && t[m] == rt[k - 1];
                    assert(s[m + 1] == r[k]);
                }
            }
        }
        if newest_first(s) {
            assert(newest_first(t)) by {
                assert forall|i: int, j: int| 0 <= i < j < t.len() implies !seq_less(#[trigger] t[i].date, #[trigger] t[j].date) by {
                    assert(t[i] == s[i + 1] && t[j] == s[j + 1]);
                }
            }
            assert forall|i: int, j: int| 0 <= i < j < r.len() implies !seq_less(#[trigger] r[i].date, #[trigger] r[j].date) by {
                assert(r[j] == rt[j - 1]);
                if i == 0 {
                    if rt[j - 1] != x {
                        let m = choose|m: int| 0 <= m < t.len() && t[m] == rt[j - 1];
                        assert(s[m + 1] == r[j]);
                    }
                } else {
                    assert(r[i] == rt[i - 1]);
                }
            }
        }
    }
}

/// The lines of all these sessions together.
pub open spec fn sessions_total(s: Seq<SessionStatsView>) -> LineCounts {
    counts_total(s.map_values(|x: SessionStatsView| x.stats))
}

proof fn lemma_insert_by_date_total(s: Seq<SessionStatsView>, x: SessionStatsView)
    ensures
        sessions_total(insert_by_date(s, x)) == crate::parser::add_counts(sessions_total(s), x.stats),
    decreases s.len(),
{
    let r = insert_by_date(s, x);
    let f = |y: SessionStatsView| y.stats;
    if s.len() == 0 {
        assert(r.map_values(f) =~= seq![x.stats] + s.map_values(f));
        lemma_counts_total_front(x.stats, s.map_values(f));
    } else if seq_less(s[0].date, x.date) {
        assert(r.map_values(f) =~= seq![x.stats] + s.map_values(f));
        lemma_counts_total_front(x.stats, s.map_values(f));
    } else {
        let t = s.drop_first();
        lemma_insert_by_date_total(t, x);
        assert(r.map_values(f) =~= seq![s[0].stats] + insert_by_date(t, x).map_values(f));
        assert(s.map_values(f) =~= seq![s[0].stats] + t.map_values(f));
        lemma_counts_total_front(s[0].stats, insert_by_date(t, x).map_values(f));
        lemma_counts_total_front(s[0].stats, t.map_values(f));
    }
}

/// Sorting sessions puts them newest first and keeps every session, each
/// as often as it occurred; their lines add up to the same total.
pub proof fn law_sort_by_date(s: Seq<SessionStatsView>)
    ensures
        newest_first(sort_by_date(s)),
        sort_by_date(s).to_multiset() == s.to_multiset(),
        sort_by_date(s).len() == s.len(),
        sessions_total(sort_by_date(s)) == sessions_total(s),
    decreases s.len(),
{
    broadcast use vstd::seq_lib::group_to_multiset_ensures;
    if s.len() > 0 {
        law_sort_by_date(s.drop_last());
        lemma_insert_by_date(sort_by_date(s.drop_last()), s.last());
        lemma_insert_by_date_total(sort_by_date(s.drop_last()), s.last());
        assert(s.drop_last().push(s.last()) == s);
        let f = |y: SessionStatsView| y.stats;
        assert(s.map_values(f).drop_last() =~= s.drop_last().map_values(f));
    }
}

proof fn lemma_insert_by_total(s: Seq<ProjectStatsView>, x: ProjectStatsView)
    ensures
        insert_by_total(s, x).len() == s.len() + 1,
        insert_by_total(s, x).to_multiset() == s.to_multiset().insert(x),
        forall|k: int| 0 <= k < insert_by_total(s, x).len() ==> #[trigger] insert_by_total(s, x)[k] == x
            || s.contains(insert_by_total(s, x)[k]),
        busiest_first(s) ==> busiest_first(insert_by_total(s, x)),
    decreases s.len(),
{
    broadcast use vstd::seq_lib::group_to_multiset_ensures, vstd::multiset::group_multiset_axioms;
    let r = insert_by_total(s, x);
    if s.len() == 0 {
        assert(r.drop_first() =~= Seq::<ProjectStatsView>::empty());
        assert(r.to_multiset() =~= s.to_multiset().insert(x));
    } else if total_of(s[0].stats) < total_of(x.stats) {
        assert(r.drop_first() == s);
        assert(r =~= s.insert(0, x));
        assert(r.to_multiset() == s.insert(0, x).to_multiset());
        assert forall|k: int| 0 <= k < r.len() implies #[trigger] r[k] == x || s.contains(r[k]) by {
            if k > 0 {
                assert(r[k] == s[k - 1]);
            }
        }
        if busiest_first(s) {
            assert forall|i: int, j: int| 0 <= i < j < r.len() implies total_of(#[trigger] r[j].stats) <= total_of(#[trigger] r[i].stats) by {
                assert(r[j] == s[j - 1]);
                if i == 0 {
                    if j - 1 > 0 {
                        assert(total_of(s[j - 1].stats) <= total_of(s[0].stats));
                    }
                } else {
                    assert(r[i] == s[i - 1]);
                }
            }
        }
    } else {
        let t = s.drop_first();
        lemma_insert_by_total(t, x);
        let rt = insert_by_total(t, x);
        assert(r == seq![s[0]] + rt);
        assert(r.drop_first() == rt);
        assert(s =~= t.insert(0, s[0]));
        assert(s.to_multiset() == t.insert(0, s[0]).to_multiset());
        assert(r =~= rt.insert(0, s[0]));
        assert(r.to_multiset() == rt.insert(0, s[0]).to_multiset());
        assert(r.to_multiset() =~= s.to_multiset().insert(x));
        assert forall|k: int| 0 <= k < r.len() implies #[trigger] r[k] == x || s.contains(r[k]) by {
            if k == 0 {
                assert(s[0] == r[0]);
            } else {
                assert(r[k] == rt[k - 1]);
                if rt[k - 1] != x {
                    let m = choose|m: int| 0 <= m < t.len() && t[m] == rt[k - 1];
                    assert(s[m + 1] == r[k]);
                }
            }
        }
        if busiest_first(s) {
            assert(busiest_first(t)) by {
                assert forall|i: int, j: int| 0 <= i < j < t.len() implies total_of(#[trigger] t[j].stats) <= total_of(#[trigger] t[i].stats) by {
                    assert(t[i] == s[i + 1] && t[j] == s[j + 1]);
                }
            }
            assert forall|i: int, j: int| 0 <= i < j < r.len() implies total_of(#[trigger] r[j].stats) <= total_of(#[trigger] r[i].stats) by {
                assert(r[j] == rt[j - 1]);
                if i == 0 {
                    if rt[j - 1] != x {
                        let m = choose|m: int| 0 <= m < t.len() && t[m] == rt[j - 1];
                        assert(s[m + 1] == r[j]);
                    }
                } else {
                    assert(r[i] == rt[i - 1]);
                }
            }
        }
    }
}

/// Sorting projects puts them busiest first and keeps every project, each
/// as often as it occurred.
pub proof fn law_sort_by_total(s: Seq<ProjectStatsView>)
    ensures
        busiest_first(sort_by_total(s)),
        sort_by_total(s).to_multiset() == s.to_multiset(),
        sort_by_total(s).len() == s.len(),
    decreases s.len(),
{
    broadcast use vstd::seq_lib::group_to_multiset_ensures;
    if s.len() > 0 {
        law_sort_by_total(s.drop_last());
        lemma_insert_by_total(sort_by_total(s.drop_last()), s.last());
        assert(s.drop_last().push(s.last()) == s);
    }
}

} // verus!
