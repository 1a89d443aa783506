//! Transaction-log parsing.
//!
//! The package manager's history log is a sequence of labelled lines
//! between `Start-Date:` and `End-Date:` markers.  The parser folds a
//! small in-progress record over the lines and emits an event at each end
//! marker whose install list is non-empty after filtering automatically
//! pulled-in packages.

use vstd::prelude::*;
use vstd::string::StrSliceExecFns;

use crate::text::contains_sub;
use crate::text::dup_str_vec;
use crate::text::find_char_from;
use crate::text::lemma_find_char_witness;
use crate::text::spec_contains;
use crate::text::spec_find_char;
use crate::text::spec_lines;
use crate::text::spec_split;
use crate::text::spec_starts_with;
use crate::text::spec_trim;
use crate::text::split_lines;
use crate::text::split_on;
use crate::text::starts_with;
use crate::text::substr_string;
use crate::text::trim_str;

verus! {

/// Mathematical view of one completed install transaction.
pub ghost struct EventModel {
    /// The log's literal two-field date/time text.
    pub date: Seq<char>,
    /// The literal invoking command line.
    pub commandline: Seq<char>,
    /// The optional requester identity text.
    pub requested_by: Option<Seq<char>>,
    /// The explicitly installed package names, in log order.
    pub installed: Seq<Seq<char>>,
}

/// One completed package-manager transaction that installed at least one
/// explicitly requested package.
pub struct HistoryEntry {
    /// The log's literal two-field date/time text.
    pub date: String,
    /// The literal invoking command line.
    pub commandline: String,
    /// The optional requester identity text.
    pub requested_by: Option<String>,
    /// The explicitly installed package names, in log order.
    pub installed: Vec<String>,
}

impl View for HistoryEntry {
    type V = EventModel;

    open spec fn view(&self) -> EventModel {
        EventModel {
            date: self.date@,
            commandline: self.commandline@,
            requested_by: self.requested_by.deep_view(),
            installed: self.installed.deep_view(),
        }
    }
}

impl DeepView for HistoryEntry {
    type V = EventModel;

    open spec fn deep_view(&self) -> EventModel {
        self.view()
    }
}

/// The package name of one install-list entry: the text before the first
/// colon, or the whole entry when it has none.
pub open spec fn spec_entry_name(entry: Seq<char>) -> Seq<char> {
    let i = spec_find_char(entry, ':');
    if i < 0 {
        entry
    } else {
        entry.take(i)
    }
}

/// An entry is kept when its name is non-empty and it is not annotated as
/// automatically pulled in.
pub open spec fn spec_keep_entry(entry: Seq<char>) -> bool {
    spec_entry_name(entry).len() > 0 && !spec_contains(entry, "automatic"@)
}

/// The kept names of a sequence of install-list entries.
pub open spec fn spec_install_entries(pieces: Seq<Seq<char>>) -> Seq<Seq<char>> {
    pieces.filter(|e: Seq<char>| spec_keep_entry(e)).map_values(
        |e: Seq<char>| spec_entry_name(e),
    )
}

/// The package names taken from the text after an `Install:` label.
/// Entries are separated by `"), "`, never by a bare comma, because
/// version strings carry commas inside their parentheses.
pub open spec fn spec_install_list(rest: Seq<char>) -> Seq<Seq<char>> {
    spec_install_entries(spec_split(rest, "), "@))
}

/// Appending one entry extends the kept names by at most that entry's
/// name.
proof fn lemma_install_entries_push(pieces: Seq<Seq<char>>, e: Seq<char>)
    ensures
        spec_install_entries(pieces.push(e)) == if spec_keep_entry(e) {
            spec_install_entries(pieces).push(spec_entry_name(e))
        } else {
            spec_install_entries(pieces)
        },
{
    reveal(Seq::filter);
    let keep = |x: Seq<char>| spec_keep_entry(x);
    let name = |x: Seq<char>| spec_entry_name(x);
    assert(pieces.push(e).drop_last() =~= pieces);
    assert(pieces.push(e).last() == e);
    if spec_keep_entry(e) {
        assert(pieces.push(e).filter(keep) =~= pieces.filter(keep).push(e));
        assert(pieces.filter(keep).push(e).map_values(name) =~= pieces.filter(keep).map_values(
            name,
        ).push(spec_entry_name(e)));
    }
}

/// `p` is the name of some kept (non-automatic, non-empty) entry.
pub open spec fn spec_name_of_kept(pieces: Seq<Seq<char>>, p: Seq<char>) -> bool {
    exists|j: int|
        0 <= j < pieces.len() && spec_keep_entry(#[trigger] pieces[j]) && spec_entry_name(
            pieces[j],
        ) == p
}

/// Entries marked automatic, and entries with an empty name, are always
/// excluded: every kept name stems from an entry that is kept.
pub proof fn lemma_install_entries_sound(pieces: Seq<Seq<char>>)
    ensures
        forall|k: int| 0 <= k < spec_install_entries(pieces).len() ==> spec_name_of_kept(
            pieces,
            #[trigger] spec_install_entries(pieces)[k],
        ),
    decreases pieces.len(),
{
    if pieces.len() == 0 {
        reveal(Seq::filter);
    } else {
        let front = pieces.drop_last();
        let e = pieces.last();
        lemma_install_entries_sound(front);
        assert(front.push(e) =~= pieces);
        lemma_install_entries_push(front, e);
        let full = spec_install_entries(pieces);
        let fr = spec_install_entries(front);
        assert forall|k: int| 0 <= k < full.len() implies spec_name_of_kept(pieces, full[k]) by {
            if spec_keep_entry(e) && k == fr.len() {
                assert(pieces[pieces.len() - 1] == e);
                assert(spec_name_of_kept(pieces, full[k]));
            } else {
                assert(full[k] == fr[k]);
                assert(spec_name_of_kept(front, fr[k]));
                let j = choose|j: int|
                    0 <= j < front.len() && spec_keep_entry(#[trigger] front[j]) && spec_entry_name(
                        front[j],
                    ) == fr[k];
                assert(pieces[j] == front[j]);
                assert(spec_name_of_kept(pieces, full[k]));
            }
        }
    }
}

/// The explicitly installed package names on an `Install:` line.
pub fn parse_history_packages(pkgs_line: &str) -> (r: Vec<String>)
    ensures
        r.deep_view() == spec_install_list(pkgs_line@),
{
    proof {
        reveal_strlit("), ");
    }
    let entries = split_on(pkgs_line, "), ");
    let mut out: Vec<String> = Vec::new();
    let mut k: usize = 0;
    proof {
        assert(entries.deep_view().take(0) =~= Seq::<Seq<char>>::empty());
        assert(spec_install_entries(Seq::<Seq<char>>::empty()) =~= Seq::<Seq<char>>::empty());
    }
    while k < entries.len()
        invariant
            0 <= k <= entries.len(),
            entries.deep_view() == spec_split(pkgs_line@, "), "@),
            out.deep_view() == spec_install_entries(entries.deep_view().take(k as int)),
        decreases entries.len() - k,
    {
        let ghost prev = out.deep_view();
        let entry = &entries[k];
        let n = entry.as_str().unicode_len();
        let ci = find_char_from(entry.as_str(), 0, ':');
        proof {
            lemma_find_char_witness(entry@, ':', ci as int);
            if ci == n {
                assert(entry@.subrange(0, ci as int) =~= entry@);
            }
            assert(entries.deep_view()[k as int] == entry@);
            assert(entries.deep_view().take(k + 1) =~= entries.deep_view().take(k as int).push(
                entry@,
            ));
            lemma_install_entries_push(entries.deep_view().take(k as int), entry@);
        }
        if ci > 0 && !contains_sub(entry.as_str(), "automatic") {
            let name = substr_string(entry.as_str(), 0, ci);
            out.push(name);
            proof {
                assert(out.deep_view() =~= prev.push(spec_entry_name(entry@)));
            }
        }
        k += 1;
    }
    proof {
        assert(entries.deep_view().take(entries.len() as int) =~= entries.deep_view());
    }
    out
}

/// The in-progress record while folding over log lines.
pub ghost struct ParseState {
    pub date: Seq<char>,
    pub commandline: Seq<char>,
    pub requested_by: Option<Seq<char>>,
    pub installed: Seq<Seq<char>>,
}

pub open spec fn spec_init_state() -> ParseState {
    ParseState {
        date: Seq::empty(),
        commandline: Seq::empty(),
        requested_by: None,
        installed: Seq::empty(),
    }
}

/// How one log line changes the in-progress record.  A start marker
/// resets every field; labelled lines overwrite their field; any other
/// line, end markers included, leaves the record unchanged.
pub open spec fn spec_step(st: ParseState, line: Seq<char>) -> ParseState {
    if spec_starts_with(line, "Start-Date: "@) {
        ParseState {
            date: spec_trim(line.skip("Start-Date: "@.len() as int)),
            commandline: Seq::empty(),
            requested_by: None,
            installed: Seq::empty(),
        }
    } else if spec_starts_with(line, "Commandline: "@) {
        ParseState {
            date: st.date,
            commandline: spec_trim(line.skip("Commandline: "@.len() as int)),
            requested_by: st.requested_by,
            installed: st.installed,
        }
    } else if spec_starts_with(line, "Requested-By: "@) {
        ParseState {
            date: st.date,
            commandline: st.commandline,
            requested_by: Some(spec_trim(line.skip("Requested-By: "@.len() as int))),
            installed: st.installed,
        }
    } else if spec_starts_with(line, "Install: "@) {
        ParseState {
            date: st.date,
            commandline: st.commandline,
            requested_by: st.requested_by,
            installed: spec_install_list(line.skip("Install: "@.len() as int)),
        }
    } else {
        st
    }
}

/// An end marker emits the in-progress record, but only when its install
/// list is non-empty: pure upgrades and removals yield no event.
pub open spec fn spec_emits(st: ParseState, line: Seq<char>) -> Option<EventModel> {
    if spec_starts_with(line, "End-Date: "@) && st.installed.len() > 0 {
        Some(
            EventModel {
                date: st.date,
                commandline: st.commandline,
                requested_by: st.requested_by,
                installed: st.installed,
            },
        )
    } else {
        None
    }
}

/// The events emitted by folding the parser over `lines` from state `st`.
pub open spec fn spec_run(lines: Seq<Seq<char>>, st: ParseState) -> Seq<EventModel>
    decreases lines.len(),
{
    if lines.len() == 0 {
        Seq::empty()
    } else {
        let rest = spec_run(lines.drop_first(), spec_step(st, lines[0]));
        match spec_emits(st, lines[0]) {
            Some(e) => seq![e] + rest,
            None => rest,
        }
    }
}

/// The events parsed from raw transaction-log text.
pub open spec fn spec_parse_history(log: Seq<char>) -> Seq<EventModel> {
    spec_run(spec_lines(log), spec_init_state())
}

/// Every emitted event has a non-empty install list.
pub proof fn lemma_run_events_nonempty(lines: Seq<Seq<char>>, st: ParseState)
    ensures
        forall|k: int| 0 <= k < spec_run(lines, st).len() ==> #[trigger] spec_run(
            lines,
            st,
        )[k].installed.len() > 0,
    decreases lines.len(),
{
    if lines.len() > 0 {
        lemma_run_events_nonempty(lines.drop_first(), spec_step(st, lines[0]));
    }
}

/// If the text starts with `label`, the trimmed remainder of the line.
fn label_value(line: &String, label: &str) -> (r: Option<String>)
    ensures
        match r {
            Some(v) => spec_starts_with(line@, label@) && v@ == spec_trim(
                line@.skip(label@.len() as int),
            ),
            None => !spec_starts_with(line@, label@),
        },
{
    if starts_with(line.as_str(), label) {
        let n = line.as_str().unicode_len();
        let p = label.unicode_len();
        let rest = substr_string(line.as_str(), p, n);
        proof {
            assert(line@.subrange(p as int, n as int) =~= line@.skip(p as int));
        }
        Some(trim_str(rest.as_str()))
    } else {
        None
    }
}

/// A copy of an optional string.
fn dup_opt_string(o: &Option<String>) -> (r: Option<String>)
    ensures
        r.deep_view() == o.deep_view(),
{
    match o {
        Some(s) => Some(s.clone()),
        None => None,
    }
}

/// Parses concatenated transaction-log text (oldest segment first) into
/// the ordered sequence of install events.  Malformed or truncated input
/// never fails: it only yields fewer events.  The same text always yields
/// the same events, and every event's install list is non-empty.
pub fn parse_history(log: &str) -> (r: Vec<HistoryEntry>)
    ensures
        r.deep_view() == spec_parse_history(log@),
        forall|k: int| 0 <= k < r.deep_view().len() ==> #[trigger] r.deep_view()[
            k
        ].installed.len() > 0,
{
    let lines = split_lines(log);
    let mut date = String::new();
    let mut commandline = String::new();
    let mut requested: Option<String> = None;
    let mut installed: Vec<String> = Vec::new();
    let mut out: Vec<HistoryEntry> = Vec::new();
    let mut i: usize = 0;
    proof {
        assert(lines.deep_view().skip(0) =~= lines.deep_view());
        assert(installed.deep_view() =~= Seq::<Seq<char>>::empty());
        assert(out.deep_view() =~= Seq::<EventModel>::empty());
        assert(Seq::<EventModel>::empty() + spec_run(lines.deep_view(), spec_init_state())
            =~= spec_run(lines.deep_view(), spec_init_state()));
    }
    while i < lines.len()
        invariant
            0 <= i <= lines.len(),
            lines.deep_view() == spec_lines(log@),
            out.deep_view() + spec_run(
                lines.deep_view().skip(i as int),
                (ParseState {
                    date: date@,
                    commandline: commandline@,
                    requested_by: requested.deep_view(),
                    installed: installed.deep_view(),
                }),
            ) == spec_parse_history(log@),
        decreases lines.len() - i,
    {
        let ghost st = ParseState {
            date: date@,
            commandline: commandline@,
            requested_by: requested.deep_view(),
            installed: installed.deep_view(),
        };
        let ghost ld = lines.deep_view();
        let ghost prev = out.deep_view();
        let line = &lines[i];
        proof {
            assert(ld.skip(i as int)[0] == ld[i as int]);
            assert(ld[i as int] == line@);
            assert(ld.skip(i as int).drop_first() =~= ld.skip(i + 1));
        }
        if starts_with(line.as_str(), "End-Date: ") && installed.len() > 0 {
            let entry = HistoryEntry {
                date: date.clone(),
                commandline: commandline.clone(),
                requested_by: dup_opt_string(&requested),
                installed: dup_str_vec(&installed),
            };
            out.push(entry);
            proof {
                assert(out.deep_view() =~= prev.push(
                    EventModel {
                        date: st.date,
                        commandline: st.commandline,
                        requested_by: st.requested_by,
                        installed: st.installed,
                    },
                ));
            }
        }
        if let Some(v) = label_value(line, "Start-Date: ") {
            date = v;
            commandline = String::new();
            requested = None;
            installed = Vec::new();
            proof {
                assert(installed.deep_view() =~= Seq::<Seq<char>>::empty());
            }
        } else if let Some(v) = label_value(line, "Commandline: ") {
            commandline = v;
        } else if let Some(v) = label_value(line, "Requested-By: ") {
            requested = Some(v);
        } else if starts_with(line.as_str(), "Install: ") {
            let n = line.as_str().unicode_len();
            let p = "Install: ".unicode_len();
            let rest = substr_string(line.as_str(), p, n);
            proof {
                assert(line@.subrange(p as int, n as int) =~= line@.skip(p as int));
            }
            installed = parse_history_packages(rest.as_str());
        }
        proof {
            let st2 = ParseState {
                date: date@,
                commandline: commandline@,
                requested_by: requested.deep_view(),
                installed: installed.deep_view(),
            };
            assert(st2 == spec_step(st, line@));
            match spec_emits(st, line@) {
                Some(e) => {
                    assert(out.deep_view() =~= prev.push(e));
                    assert(prev.push(e) + spec_run(ld.skip(i + 1), st2) =~= prev + (seq![e]
                        + spec_run(ld.skip(i + 1), st2)));
                },
                None => {
                    assert(out.deep_view() == prev);
                },
            }
        }
        i += 1;
    }
    proof {
        assert(lines.deep_view().skip(lines.len() as int).len() == 0);
        assert(out.deep_view() + Seq::<EventModel>::empty() =~= out.deep_view());
        lemma_run_events_nonempty(spec_lines(log@), spec_init_state());
    }
    out
}

/// The events whose install list contains `pkg`, in log order.
pub open spec fn spec_matching_events(events: Seq<EventModel>, pkg: Seq<char>) -> Seq<EventModel> {
    events.filter(|e: EventModel| e.installed.contains(pkg))
}

proof fn lemma_matching_push(events: Seq<EventModel>, e: EventModel, pkg: Seq<char>)
    ensures
        spec_matching_events(events.push(e), pkg) == if e.installed.contains(pkg) {
            spec_matching_events(events, pkg).push(e)
        } else {
            spec_matching_events(events, pkg)
        },
{
    reveal(Seq::filter);
    assert(events.push(e).drop_last() =~= events);
    assert(events.push(e).last() == e);
}

/// A field-wise copy of an entry.
fn entry_dup(e: &HistoryEntry) -> (r: HistoryEntry)
    ensures
        r.deep_view() == e.deep_view(),
{
    HistoryEntry {
        date: e.date.clone(),
        commandline: e.commandline.clone(),
        requested_by: dup_opt_string(&e.requested_by),
        installed: dup_str_vec(&e.installed),
    }
}

/// All events that installed `pkg`, in chronological (log) order.  The
/// result is empty exactly when the package has no install history.
pub fn find_install_history(entries: &Vec<HistoryEntry>, pkg: &str) -> (r: Vec<HistoryEntry>)
    ensures
        r.deep_view() == spec_matching_events(entries.deep_view(), pkg@),
{
    let mut out: Vec<HistoryEntry> = Vec::new();
    let mut k: usize = 0;
    proof {
        assert(out.deep_view() =~= Seq::<EventModel>::empty());
        assert(entries.deep_view().take(0) =~= Seq::<EventModel>::empty());
        assert(spec_matching_events(Seq::<EventModel>::empty(), pkg@) =~= Seq::<
            EventModel,
        >::empty()) by {
            reveal(Seq::filter);
        }
    }
    while k < entries.len()
        invariant
            0 <= k <= entries.len(),
            out.deep_view() == spec_matching_events(entries.deep_view().take(k as int), pkg@),
        decreases entries.len() - k,
    {
        let ghost prev = out.deep_view();
        let e = &entries[k];
        proof {
            assert(entries.deep_view()[k as int] == e.deep_view());
            assert(entries.deep_view().take(k + 1) =~= entries.deep_view().take(k as int).push(
                e.deep_view(),
            ));
            lemma_matching_push(entries.deep_view().take(k as int), e.deep_view(), pkg@);
        }
        if crate::text::vec_contains_str(&e.installed, pkg) {
            out.push(entry_dup(e));
            proof {
                assert(out.deep_view() =~= prev.push(e.deep_view()));
            }
        }
        k += 1;
    }
    proof {
        assert(entries.deep_view().take(entries.len() as int) =~= entries.deep_view());
    }
    out
}

} // verus!
