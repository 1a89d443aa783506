//! Co-occurrence analysis over parsed install events.
//!
//! Two pure queries: the packages that came in the same transaction as a
//! name (its siblings), and the packages installed by other events on the
//! same calendar day (its same-day neighbours), which by construction
//! never repeat a sibling.

use vstd::prelude::*;
use vstd::string::StrSliceExecFns;

use crate::history::EventModel;
use crate::history::HistoryEntry;
use crate::pkgset::insert_sorted_unique;
use crate::pkgset::spec_sorted_unique;
use crate::text::first_token;
use crate::text::spec_first_token;
use crate::text::str_eq;
use crate::text::vec_contains_str;

verus! {

/// The packages of one event other than `name`, in original order.
pub open spec fn spec_siblings(installed: Seq<Seq<char>>, name: Seq<char>) -> Seq<Seq<char>> {
    installed.filter(|p: Seq<char>| p != name)
}

proof fn lemma_siblings_push(installed: Seq<Seq<char>>, e: Seq<char>, name: Seq<char>)
    ensures
        spec_siblings(installed.push(e), name) == if e != name {
            spec_siblings(installed, name).push(e)
        } else {
            spec_siblings(installed, name)
        },
{
    reveal(Seq::filter);
    assert(installed.push(e).drop_last() =~= installed);
    assert(installed.push(e).last() == e);
}

/// Siblings never include the name itself and are always drawn from the
/// event's own install list.
pub proof fn lemma_siblings_sound(installed: Seq<Seq<char>>, name: Seq<char>)
    ensures
        forall|k: int| 0 <= k < spec_siblings(installed, name).len() ==> #[trigger] spec_siblings(
            installed,
            name,
        )[k] != name,
        forall|k: int| 0 <= k < spec_siblings(installed, name).len() ==> installed.contains(
            #[trigger] spec_siblings(installed, name)[k],
        ),
    decreases installed.len(),
{
    reveal(Seq::filter);
    if installed.len() > 0 {
        let front = installed.drop_last();
        let e = installed.last();
        lemma_siblings_sound(front, name);
        let s = spec_siblings(installed, name);
        let sf = spec_siblings(front, name);
        assert forall|k: int| 0 <= k < s.len() implies s[k] != name && installed.contains(
            s[k],
        ) by {
            if e != name && k == s.len() - 1 {
                assert(s[k] == e);
                assert(installed[installed.len() - 1] == e);
            } else {
                assert(s[k] == sf[k]);
                assert(front.contains(sf[k]));
                let w = choose|w: int| 0 <= w < front.len() && front[w] == sf[k];
                assert(installed[w] == sf[k]);
            }
        }
    }
}

/// Every package installed by the same transaction as `name`, other than
/// `name` itself, in original order.
pub fn siblings(entry: &HistoryEntry, name: &str) -> (r: Vec<String>)
    ensures
        r.deep_view() == spec_siblings(entry.deep_view().installed, name@),
        forall|k: int| 0 <= k < r.deep_view().len() ==> #[trigger] r.deep_view()[k] != name@,
        forall|k: int| 0 <= k < r.deep_view().len() ==> entry.deep_view().installed.contains(
            #[trigger] r.deep_view()[k],
        ),
{
    let mut out: Vec<String> = Vec::new();
    let mut k: usize = 0;
    proof {
        assert(out.deep_view() =~= Seq::<Seq<char>>::empty());
        assert(entry.installed.deep_view().take(0) =~= Seq::<Seq<char>>::empty());
        assert(spec_siblings(Seq::<Seq<char>>::empty(), name@) =~= Seq::<Seq<char>>::empty()) by {
            reveal(Seq::filter);
        }
    }
    while k < entry.installed.len()
        invariant
            0 <= k <= entry.installed.len(),
            out.deep_view() == spec_siblings(entry.installed.deep_view().take(k as int), name@),
        decreases entry.installed.len() - k,
    {
        let ghost prev = out.deep_view();
        let ghost inst = entry.installed.deep_view();
        proof {
            assert(inst[k as int] == entry.installed[k as int]@);
            assert(inst.take(k + 1) =~= inst.take(k as int).push(inst[k as int]));
            lemma_siblings_push(inst.take(k as int), inst[k as int], name@);
        }
        if !str_eq(entry.installed[k].as_str(), name) {
            out.push(entry.installed[k].clone());
            proof {
                assert(out.deep_view() =~= prev.push(inst[k as int]));
            }
        }
        k += 1;
    }
    proof {
        assert(entry.installed.deep_view().take(entry.installed.len() as int)
            =~= entry.installed.deep_view());
        lemma_siblings_sound(entry.installed.deep_view(), name@);
    }
    out
}

/// The calendar-day portion of a timestamp: its first whitespace token.
pub open spec fn spec_day(date: Seq<char>) -> Seq<char> {
    spec_first_token(date)
}

/// Two events count as distinct when they differ in timestamp text or in
/// command line; reference identity is never used.
pub open spec fn spec_other_event(e: EventModel, ev: EventModel) -> bool {
    !(e.date == ev.date && e.commandline == ev.commandline)
}

/// `p` qualifies as a same-day neighbour of `ev` for package `name`,
/// given the sibling set `sibs`: it is neither the name nor a sibling,
/// and some other event of the same calendar day installed it.
pub open spec fn spec_neighbor(
    events: Seq<EventModel>,
    ev: EventModel,
    name: Seq<char>,
    sibs: Seq<Seq<char>>,
    p: Seq<char>,
) -> bool {
    p != name && !sibs.contains(p) && exists|j: int|
        0 <= j < events.len() && spec_day((#[trigger] events[j]).date) == spec_day(ev.date)
            && spec_other_event(events[j], ev) && events[j].installed.contains(p)
}

/// The deduplicated, lexicographically sorted set of packages installed
/// by other events on the same calendar day as `entry`, excluding `name`
/// and everything in `sibling_set`.
#[verifier::rlimit(30)]
pub fn same_day_neighbors(
    entries: &Vec<HistoryEntry>,
    entry: &HistoryEntry,
    name: &str,
    sibling_set: &Vec<String>,
) -> (r: Vec<String>)
    ensures
        spec_sorted_unique(r.deep_view()),
        forall|p: Seq<char>| r.deep_view().contains(p) <==> spec_neighbor(
            entries.deep_view(),
            entry.deep_view(),
            name@,
            sibling_set.deep_view(),
            p,
        ),
{
    let ghost ed = entries.deep_view();
    let ghost ev = entry.deep_view();
    let ghost sibs = sibling_set.deep_view();
    let day = first_token(entry.date.as_str());
    let mut out: Vec<String> = Vec::new();
    let mut j: usize = 0;
    proof {
        assert(out.deep_view() =~= Seq::<Seq<char>>::empty());
    }
    while j < entries.len()
        invariant
            0 <= j <= entries.len(),
            ed == entries.deep_view(),
            ev == entry.deep_view(),
            sibs == sibling_set.deep_view(),
            day@ == spec_day(ev.date),
            spec_sorted_unique(out.deep_view()),
            forall|p: Seq<char>| #[trigger] out.deep_view().contains(p) <==> spec_neighbor(
                ed.take(j as int),
                ev,
                name@,
                sibs,
                p,
            ),
        decreases entries.len() - j,
    {
        let ghost outer_prev = out.deep_view();
        let e = &entries[j];
        proof {
            assert(ed[j as int] == e.deep_view());
        }
        let eday = first_token(e.date.as_str());
        let same_day = str_eq(eday.as_str(), day.as_str());
        let same_pair = str_eq(e.date.as_str(), entry.date.as_str()) && str_eq(
            e.commandline.as_str(),
            entry.commandline.as_str(),
        );
        if same_day && !same_pair {
            let mut t: usize = 0;
            proof {
                assert(e.deep_view().installed.take(0) =~= Seq::<Seq<char>>::empty());
            }
            while t < e.installed.len()
                invariant
                    0 <= t <= e.installed.len(),
                    ed == entries.deep_view(),
                    ev == entry.deep_view(),
                    sibs == sibling_set.deep_view(),
                    0 <= j < entries.len(),
                    ed[j as int] == e.deep_view(),
                    spec_day(e.deep_view().date) == spec_day(ev.date),
                    spec_other_event(e.deep_view(), ev),
                    spec_sorted_unique(out.deep_view()),
                    forall|p: Seq<char>| #[trigger] out.deep_view().contains(p) <==> (spec_neighbor(
                        ed.take(j as int),
                        ev,
                        name@,
                        sibs,
                        p,
                    ) || (p != name@ && !sibs.contains(p)
                        && e.deep_view().installed.take(t as int).contains(p))),
                decreases e.installed.len() - t,
            {
                let ghost prev = out.deep_view();
                let ghost inst = e.deep_view().installed;
                let pk = &e.installed[t];
                proof {
                    assert(inst[t as int] == pk@);
                    assert(inst.take(t + 1) =~= inst.take(t as int).push(pk@));
                }
                if !str_eq(pk.as_str(), name) && !vec_contains_str(sibling_set, pk.as_str()) {
                    insert_sorted_unique(&mut out, pk.clone());
                    proof {
                        assert(pk@ != name@ && !sibs.contains(pk@));
                        assert(forall|p: Seq<char>|
                            out.deep_view().contains(p) <==> (prev.contains(p) || p == pk@));
                        assert(forall|p: Seq<char>|
                            prev.contains(p) <==> (spec_neighbor(ed.take(j as int), ev, name@, sibs, p)
                                || (p != name@ && !sibs.contains(p) && inst.take(t as int).contains(p))));
                        assert forall|p: Seq<char>|
                            out.deep_view().contains(p) <==> (spec_neighbor(
                                ed.take(j as int),
                                ev,
                                name@,
                                sibs,
                                p,
                            ) || (p != name@ && !sibs.contains(p) && inst.take(t + 1).contains(
                                p,
                            ))) by {
                            if out.deep_view().contains(p) {
                                if prev.contains(p) {
                                    if p != name@ && !sibs.contains(p) && inst.take(
                                        t as int,
                                    ).contains(p) {
                                        let w = choose|w: int|
                                            0 <= w < t && #[trigger] inst.take(t as int)[w] == p;
                                        assert(inst.take(t + 1)[w] == p);
                                    }
                                } else {
                                    assert(p == pk@);
                                    assert(inst.take(t + 1)[t as int] == p);
                                }
                            }
                            if p != name@ && !sibs.contains(p) && inst.take(t + 1).contains(p) {
                                let w = choose|w: int|
                                    0 <= w < t + 1 && #[trigger] inst.take(t + 1)[w] == p;
                                if w < t {
                                    assert(inst.take(t as int)[w] == p);
                                    assert(inst.take(t as int).contains(p));
                                    assert(prev.contains(p));
                                } else {
                                    assert(p == pk@);
                                }
                            }
                            if spec_neighbor(ed.take(j as int), ev, name@, sibs, p) {
                                assert(prev.contains(p));
                            }
                        }
                    }
                } else {
                    proof {
                        assert forall|p: Seq<char>|
                            out.deep_view().contains(p) <==> (spec_neighbor(
                                ed.take(j as int),
                                ev,
                                name@,
                                sibs,
                                p,
                            ) || (p != name@ && !sibs.contains(p) && inst.take(t + 1).contains(
                                p,
                            ))) by {
                            if p != name@ && !sibs.contains(p) && inst.take(t + 1).contains(p) {
                                let w = choose|w: int|
                                    0 <= w < t + 1 && #[trigger] inst.take(t + 1)[w] == p;
                                if w < t {
                                    assert(inst.take(t as int)[w] == p);
                                    assert(inst.take(t as int).contains(p));
                                } else {
                                    assert(p == pk@);
                                    assert(false);
                                }
                            }
                            if p != name@ && !sibs.contains(p) && inst.take(t as int).contains(p) {
                                let w = choose|w: int|
                                    0 <= w < t && #[trigger] inst.take(t as int)[w] == p;
                                assert(inst.take(t + 1)[w] == p);
                            }
                        }
                    }
                }
                t += 1;
            }
            proof {
                assert(e.deep_view().installed.take(e.installed.len() as int)
                    =~= e.deep_view().installed);
                assert forall|p: Seq<char>|
                    out.deep_view().contains(p) <==> spec_neighbor(
                        ed.take(j + 1),
                        ev,
                        name@,
                        sibs,
                        p,
                    ) by {
                    if spec_neighbor(ed.take(j as int), ev, name@, sibs, p) {
                        let w = choose|w: int|
                            0 <= w < j && spec_day((#[trigger] ed.take(j as int)[w]).date)
                                == spec_day(ev.date) && spec_other_event(ed.take(j as int)[w], ev)
                                && ed.take(j as int)[w].installed.contains(p);
                        assert(spec_day((ed.take(j + 1)[w]).date) == spec_day(ev.date));
                    }
                    if p != name@ && !sibs.contains(p) && e.deep_view().installed.contains(p) {
                        assert(spec_day((ed.take(j + 1)[j as int]).date) == spec_day(ev.date));
                    }
                    if spec_neighbor(ed.take(j + 1), ev, name@, sibs, p) {
                        let w = choose|w: int|
                            0 <= w < j + 1 && spec_day((#[trigger] ed.take(j + 1)[w]).date)
                                == spec_day(ev.date) && spec_other_event(ed.take(j + 1)[w], ev)
                                && ed.take(j + 1)[w].installed.contains(p);
                        if w < j {
                            assert(spec_day((ed.take(j as int)[w]).date) == spec_day(ev.date));
                        } else {
                            assert(ed.take(j + 1)[w] == e.deep_view());
                        }
                    }
                }
            }
        } else {
            proof {
                assert forall|p: Seq<char>|
                    out.deep_view().contains(p) <==> spec_neighbor(
                        ed.take(j + 1),
                        ev,
                        name@,
                        sibs,
                        p,
                    ) by {
                    if spec_neighbor(ed.take(j as int), ev, name@, sibs, p) {
                        let w = choose|w: int|
                            0 <= w < j && spec_day((#[trigger] ed.take(j as int)[w]).date)
                                == spec_day(ev.date) && spec_other_event(ed.take(j as int)[w], ev)
                                && ed.take(j as int)[w].installed.contains(p);
                        assert(spec_day((ed.take(j + 1)[w]).date) == spec_day(ev.date));
                    }
                    if spec_neighbor(ed.take(j + 1), ev, name@, sibs, p) {
                        let w = choose|w: int|
                            0 <= w < j + 1 && spec_day((#[trigger] ed.take(j + 1)[w]).date)
                                == spec_day(ev.date) && spec_other_event(ed.take(j + 1)[w], ev)
                                && ed.take(j + 1)[w].installed.contains(p);
                        if w < j {
                            assert(spec_day((ed.take(j as int)[w]).date) == spec_day(ev.date));
                        } else {
                            assert(ed.take(j + 1)[w] == e.deep_view());
                        }
                    }
                }
            }
        }
        j += 1;
    }
    proof {
        assert(ed.take(entries.len() as int) =~= ed);
    }
    out
}

} // verus!
