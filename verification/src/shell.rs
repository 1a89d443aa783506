//! Shell-history parsing and temporal correlation.
//!
//! Only history lines that carry an epoch timestamp are usable: the
//! accepted shape is `": <epoch>[:<extra>];<command>"`.  Lines of any
//! other shape, untimestamped dialects included, are skipped without
//! error.  `find_nearby_commands` then selects, orders and caps the
//! commands closest in time to a target epoch.

use vstd::prelude::*;
use vstd::string::StrSliceExecFns;

use crate::text::find_char_from;
use crate::text::first_token;
use crate::text::lemma_find_char_witness;
use crate::text::parse_i64_str;
use crate::text::spec_find_char;
use crate::text::spec_first_token;
use crate::text::spec_lines;
use crate::text::spec_parse_i64;
use crate::text::spec_starts_with;
use crate::text::split_lines;
use crate::text::starts_with;
use crate::text::str_eq;
use crate::text::substr_string;

verus! {

/// Mathematical view of one timestamped shell command.
pub ghost struct RecordModel {
    /// Unix time of the command, in seconds.
    pub timestamp: int,
    /// The literal command text.
    pub command: Seq<char>,
}

/// One interactive command with its epoch timestamp.
pub struct ShellHistoryEntry {
    /// Unix time of the command, in seconds.
    pub timestamp: i64,
    /// The literal command text.
    pub command: String,
}

impl View for ShellHistoryEntry {
    type V = RecordModel;

    open spec fn view(&self) -> RecordModel {
        RecordModel { timestamp: self.timestamp as int, command: self.command@ }
    }
}

impl DeepView for ShellHistoryEntry {
    type V = RecordModel;

    open spec fn deep_view(&self) -> RecordModel {
        self.view()
    }
}

/// The record encoded by one history line, if it has the accepted
/// timestamped shape: `": "`, then an epoch (up to an optional `:`),
/// then `";"` and the command.
pub open spec fn spec_shell_line(line: Seq<char>) -> Option<RecordModel> {
    if spec_starts_with(line, ": "@) {
        let rest = line.skip(": "@.len() as int);
        let i = spec_find_char(rest, ';');
        if i < 0 {
            None
        } else {
            let epoch_part = rest.take(i);
            let cmd = rest.skip(i + 1);
            let j = spec_find_char(epoch_part, ':');
            let es = if j < 0 {
                epoch_part
            } else {
                epoch_part.take(j)
            };
            match spec_parse_i64(es) {
                Some(v) => Some(RecordModel { timestamp: v, command: cmd }),
                None => None,
            }
        }
    } else {
        None
    }
}

/// The records of the accepted lines, in order.
pub open spec fn spec_shell_records(lines: Seq<Seq<char>>) -> Seq<RecordModel>
    decreases lines.len(),
{
    if lines.len() == 0 {
        Seq::empty()
    } else {
        let rest = spec_shell_records(lines.drop_first());
        match spec_shell_line(lines[0]) {
            Some(r) => seq![r] + rest,
            None => rest,
        }
    }
}

/// The records parsed from raw history text.
pub open spec fn spec_parse_shell_history(contents: Seq<char>) -> Seq<RecordModel> {
    spec_shell_records(spec_lines(contents))
}

/// Parses timestamped shell-history text.  Lines without the accepted
/// shape yield no record; text in an unsupported dialect yields zero
/// records, never an error.
pub fn parse_shell_history(contents: &str) -> (r: Vec<ShellHistoryEntry>)
    ensures
        r.deep_view() == spec_parse_shell_history(contents@),
{
    let lines = split_lines(contents);
    let mut out: Vec<ShellHistoryEntry> = Vec::new();
    let mut k: usize = 0;
    proof {
        assert(out.deep_view() =~= Seq::<RecordModel>::empty());
        assert(lines.deep_view().skip(0) =~= lines.deep_view());
        assert(Seq::<RecordModel>::empty() + spec_shell_records(lines.deep_view())
            =~= spec_shell_records(lines.deep_view()));
    }
    while k < lines.len()
        invariant
            0 <= k <= lines.len(),
            lines.deep_view() == spec_lines(contents@),
            out.deep_view() + spec_shell_records(lines.deep_view().skip(k as int))
                == spec_parse_shell_history(contents@),
        decreases lines.len() - k,
    {
        let ghost ld = lines.deep_view();
        let ghost prev = out.deep_view();
        let line = &lines[k];
        proof {
            assert(ld.skip(k as int)[0] == ld[k as int]);
            assert(ld[k as int] == line@);
            assert(ld.skip(k as int).drop_first() =~= ld.skip(k + 1));
        }
        if starts_with(line.as_str(), ": ") {
            let n = line.as_str().unicode_len();
            let p = ": ".unicode_len();
            let rest = substr_string(line.as_str(), p, n);
            proof {
                assert(rest@ =~= line@.skip(p as int));
            }
            let rn = rest.as_str().unicode_len();
            let si = find_char_from(rest.as_str(), 0, ';');
            proof {
                lemma_find_char_witness(rest@, ';', si as int);
            }
            if si < rn {
                let epoch_part = substr_string(rest.as_str(), 0, si);
                let cmd = substr_string(rest.as_str(), si + 1, rn);
                proof {
                    assert(epoch_part@ =~= rest@.take(si as int));
                    assert(cmd@ =~= rest@.skip(si + 1));
                }
                let en = epoch_part.as_str().unicode_len();
                let ci = find_char_from(epoch_part.as_str(), 0, ':');
                proof {
                    lemma_find_char_witness(epoch_part@, ':', ci as int);
                }
                let es = substr_string(epoch_part.as_str(), 0, ci);
                proof {
                    if ci == en {
                        assert(es@ =~= epoch_part@);
                    } else {
                        assert(es@ =~= epoch_part@.take(ci as int));
                    }
                }
                match parse_i64_str(es.as_str()) {
                    Some(ts) => {
                        out.push(ShellHistoryEntry { timestamp: ts, command: cmd });
                        proof {
                            let rec = spec_shell_line(line@).unwrap();
                            assert(out.deep_view() =~= prev.push(rec));
                            assert(prev.push(rec) + spec_shell_records(ld.skip(k + 1)) =~= prev + (
                            seq![rec] + spec_shell_records(ld.skip(k + 1))));
                        }
                    },
                    None => {},
                }
            }
        }
        k += 1;
    }
    proof {
        assert(spec_shell_records(lines.deep_view().skip(lines.len() as int)) =~= Seq::<
            RecordModel,
        >::empty());
        assert(out.deep_view() + Seq::<RecordModel>::empty() =~= out.deep_view());
    }
    out
}

/// A command is trivial when its first whitespace token is one of a
/// fixed set of commands that carry no causal information, or when it
/// has no token at all.
pub open spec fn spec_trivial_token(t: Seq<char>) -> bool {
    ||| t == "ls"@
    ||| t == "clear"@
    ||| t == "exit"@
    ||| t == "pwd"@
    ||| t == "echo"@
    ||| t == "cat"@
    ||| t == "true"@
    ||| t == "history"@
    ||| t.len() == 0
}

pub open spec fn spec_is_interesting(cmd: Seq<char>) -> bool {
    !spec_trivial_token(spec_first_token(cmd))
}

/// Does the command carry causal information?  Directory listings,
/// screen clearing and the like do not.
pub fn is_interesting_command(cmd: &str) -> (r: bool)
    ensures
        r == spec_is_interesting(cmd@),
{
    let t = first_token(cmd);
    let trivial = str_eq(t.as_str(), "ls") || str_eq(t.as_str(), "clear") || str_eq(
        t.as_str(),
        "exit",
    ) || str_eq(t.as_str(), "pwd") || str_eq(t.as_str(), "echo") || str_eq(t.as_str(), "cat")
        || str_eq(t.as_str(), "true") || str_eq(t.as_str(), "history") || t.as_str().unicode_len()
        == 0;
    !trivial
}

/// Absolute distance between a record's time and the target epoch.
pub open spec fn spec_delta(ts: int, target: int) -> int {
    if ts >= target {
        ts - target
    } else {
        target - ts
    }
}

/// A record survives selection when it lies within the window, is not
/// itself an install command, and, unless everything is wanted, is
/// interesting.
pub open spec fn spec_selectable(rec: RecordModel, target: int, window: int, show_all: bool) -> bool {
    &&& spec_delta(rec.timestamp, target) <= window
    &&& !crate::text::spec_contains(rec.command, "apt-get install"@)
    &&& !crate::text::spec_contains(rec.command, "apt install"@)
    &&& (show_all || spec_is_interesting(rec.command))
}

/// Candidates are ordered by distance first, original position second;
/// positions are unique, so this order is total and the sorted sequence
/// is unique.
pub open spec fn spec_pair_le() -> spec_fn((int, int), (int, int)) -> bool {
    |a: (int, int), b: (int, int)| a.0 < b.0 || (a.0 == b.0 && a.1 <= b.1)
}

proof fn lemma_pair_le_total()
    ensures
        vstd::relations::total_ordering(spec_pair_le()),
{
    let leq = spec_pair_le();
    assert forall|a: (int, int), b: (int, int)| #[trigger] leq(a, b) && #[trigger] leq(b, a)
        implies a == b by {
        assert(a.0 == b.0 && a.1 == b.1);
    }
    assert forall|a: (int, int), b: (int, int)| #[trigger] leq(a, b) || #[trigger] leq(b, a) by {
        if !(a.0 < b.0 || (a.0 == b.0 && a.1 <= b.1)) {
            assert(leq(b, a));
        }
    }
}

/// The `(distance, position)` pairs of the selected records among the
/// first `i` records, in position order.
pub open spec fn spec_selected_upto(
    h: Seq<RecordModel>,
    target: int,
    window: int,
    show_all: bool,
    i: int,
) -> Seq<(int, int)>
    recommends
        0 <= i <= h.len(),
{
    Seq::new(i as nat, |t: int| (spec_delta(h[t].timestamp, target), t)).filter(
        |pr: (int, int)| 0 <= pr.1 < h.len() && spec_selectable(h[pr.1], target, window, show_all),
    )
}

proof fn lemma_selected_push(h: Seq<RecordModel>, target: int, window: int, show_all: bool, i: int)
    requires
        0 <= i < h.len(),
    ensures
        spec_selected_upto(h, target, window, show_all, i + 1) == if spec_selectable(
            h[i],
            target,
            window,
            show_all,
        ) {
            spec_selected_upto(h, target, window, show_all, i).push(
                (spec_delta(h[i].timestamp, target), i),
            )
        } else {
            spec_selected_upto(h, target, window, show_all, i)
        },
{
    reveal(Seq::filter);
    let ann1 = Seq::new((i + 1) as nat, |t: int| (spec_delta(h[t].timestamp, target), t));
    let ann0 = Seq::new(i as nat, |t: int| (spec_delta(h[t].timestamp, target), t));
    assert(ann1.drop_last() =~= ann0);
    assert(ann1.last() == (spec_delta(h[i].timestamp, target), i));
}

/// Every selected pair records a real position, its distance, and a
/// record that passed selection.
proof fn lemma_selected_member(
    h: Seq<RecordModel>,
    target: int,
    window: int,
    show_all: bool,
    i: int,
    pr: (int, int),
)
    requires
        0 <= i <= h.len(),
        spec_selected_upto(h, target, window, show_all, i).contains(pr),
    ensures
        0 <= pr.1 < i,
        pr.0 == spec_delta(h[pr.1].timestamp, target),
        spec_selectable(h[pr.1], target, window, show_all),
    decreases i,
{
    if i == 0 {
        reveal(Seq::filter);
        assert(Seq::new(0, |t: int| (spec_delta(h[t].timestamp, target), t)).len() == 0);
    } else {
        lemma_selected_push(h, target, window, show_all, i - 1);
        let prevsel = spec_selected_upto(h, target, window, show_all, i - 1);
        let cur = spec_selected_upto(h, target, window, show_all, i);
        let w = choose|w: int| 0 <= w < cur.len() && cur[w] == pr;
        if spec_selectable(h[i - 1], target, window, show_all) && w == cur.len() - 1 {
            assert(pr == (spec_delta(h[i - 1].timestamp, target), i - 1));
        } else {
            assert(prevsel[w] == pr);
            assert(prevsel.contains(pr));
            lemma_selected_member(h, target, window, show_all, i - 1, pr);
        }
    }
}

/// All selected candidates, ordered by increasing distance to the
/// target; candidates at equal distance keep their original order.
pub open spec fn spec_nearby_pairs(
    h: Seq<RecordModel>,
    target: int,
    window: int,
    show_all: bool,
) -> Seq<(int, int)> {
    spec_selected_upto(h, target, window, show_all, h.len() as int).sort_by(spec_pair_le())
}

/// At most the first five survivors are reported.
pub open spec fn spec_cap5(s: Seq<(int, int)>) -> Seq<(int, int)> {
    if s.len() <= 5 {
        s
    } else {
        s.take(5)
    }
}

/// The commands named by a sequence of `(distance, position)` pairs.
pub open spec fn spec_cmds_of(h: Seq<RecordModel>, ps: Seq<(int, int)>) -> Seq<Seq<char>> {
    ps.map_values(|pr: (int, int)| h[pr.1].command)
}

/// The nearby commands reported for one target epoch: selected, ordered
/// by distance, capped at five.
pub open spec fn spec_find_nearby(
    h: Seq<RecordModel>,
    target: int,
    window: int,
    show_all: bool,
) -> Seq<Seq<char>> {
    spec_cmds_of(h, spec_cap5(spec_nearby_pairs(h, target, window, show_all)))
}

/// `c` is the command of some record within `window` of the target.
pub open spec fn spec_from_window(
    h: Seq<RecordModel>,
    target: int,
    window: int,
    c: Seq<char>,
) -> bool {
    exists|t: int|
        0 <= t < h.len() && (#[trigger] h[t]).command == c && spec_delta(h[t].timestamp, target)
            <= window
}

/// The candidate order is by increasing distance to the target.
pub proof fn lemma_nearby_ordered(h: Seq<RecordModel>, target: int, window: int, show_all: bool)
    ensures
        forall|a: int, b: int|
            0 <= a <= b < spec_nearby_pairs(h, target, window, show_all).len() ==> (
            #[trigger] spec_nearby_pairs(h, target, window, show_all)[a]).0 <= (
            #[trigger] spec_nearby_pairs(h, target, window, show_all)[b]).0,
{
    lemma_pair_le_total();
    let full = spec_selected_upto(h, target, window, show_all, h.len() as int);
    full.lemma_sort_by_ensures(spec_pair_le());
    let s = spec_nearby_pairs(h, target, window, show_all);
    assert forall|a: int, b: int| 0 <= a <= b < s.len() implies (#[trigger] s[a]).0 <= (
    #[trigger] s[b]).0 by {
        if a < b {
            assert(spec_pair_le()(s[a], s[b]));
        }
    }
}

/// The mathematical pairs behind an executable candidate vector.
pub open spec fn pairs_view(s: Seq<(i128, usize)>) -> Seq<(int, int)> {
    Seq::new(s.len(), |k: int| (s[k].0 as int, s[k].1 as int))
}

/// Distance-then-position order on executable candidate pairs.
fn pair_le(a: (i128, usize), b: (i128, usize)) -> (r: bool)
    ensures
        r == spec_pair_le()((a.0 as int, a.1 as int), (b.0 as int, b.1 as int)),
{
    a.0 < b.0 || (a.0 == b.0 && a.1 <= b.1)
}

/// The commands within `window_secs` of the target epoch, ordered by
/// increasing distance (ties keep original order), excluding install
/// commands themselves, excluding trivial commands unless `show_all`,
/// and capped at five entries.
#[verifier::rlimit(40)]
pub fn find_nearby_commands(
    history: &Vec<ShellHistoryEntry>,
    target_epoch: i64,
    window_secs: i64,
    show_all: bool,
) -> (r: Vec<String>)
    ensures
        r.deep_view() == spec_find_nearby(
            history.deep_view(),
            target_epoch as int,
            window_secs as int,
            show_all,
        ),
        r.deep_view().len() <= 5,
        forall|k: int| 0 <= k < r.deep_view().len() ==> !crate::text::spec_contains(
            #[trigger] r.deep_view()[k],
            "apt-get install"@,
        ) && !crate::text::spec_contains(r.deep_view()[k], "apt install"@) && (show_all
            || spec_is_interesting(r.deep_view()[k])),
        forall|k: int| 0 <= k < r.deep_view().len() ==> spec_from_window(
            history.deep_view(),
            target_epoch as int,
            window_secs as int,
            #[trigger] r.deep_view()[k],
        ),
{
    let ghost hd = history.deep_view();
    let ghost tg = target_epoch as int;
    let ghost wd = window_secs as int;
    let mut sel: Vec<(i128, usize)> = Vec::new();
    let mut i: usize = 0;
    proof {
        assert(pairs_view(sel@) =~= spec_selected_upto(hd, tg, wd, show_all, 0)) by {
            reveal(Seq::filter);
            assert(Seq::new(0, |t: int| (spec_delta(hd[t].timestamp, tg), t)).len() == 0);
        }
    }
    while i < history.len()
        invariant
            0 <= i <= history.len(),
            hd == history.deep_view(),
            tg == target_epoch as int,
            wd == window_secs as int,
            pairs_view(sel@) == spec_selected_upto(hd, tg, wd, show_all, i as int),
        decreases history.len() - i,
    {
        let ghost prevp = pairs_view(sel@);
        let e = &history[i];
        proof {
            assert(hd[i as int] == e.deep_view());
        }
        let d: i128 = e.timestamp as i128 - target_epoch as i128;
        let ad: i128 = if d < 0 {
            -d
        } else {
            d
        };
        proof {
            assert(ad as int == spec_delta(hd[i as int].timestamp, tg));
            lemma_selected_push(hd, tg, wd, show_all, i as int);
        }
        let keep = ad <= window_secs as i128 && !crate::text::contains_sub(
            e.command.as_str(),
            "apt-get install",
        ) && !crate::text::contains_sub(e.command.as_str(), "apt install") && (show_all
            || is_interesting_command(e.command.as_str()));
        if keep {
            sel.push((ad, i));
            proof {
                assert(pairs_view(sel@) =~= prevp.push((ad as int, i as int)));
            }
        }
        i += 1;
    }
    let ghost full = spec_selected_upto(hd, tg, wd, show_all, hd.len() as int);
    let mut sorted: Vec<(i128, usize)> = Vec::new();
    let mut m: usize = 0;
    proof {
        broadcast use vstd::seq_lib::group_to_multiset_ensures;
        broadcast use vstd::multiset::group_multiset_axioms;

        assert(pairs_view(sorted@) =~= Seq::<(int, int)>::empty());
        assert(pairs_view(sel@).take(0) =~= Seq::<(int, int)>::empty());
        assert(Seq::<(int, int)>::empty().to_multiset() =~= Seq::<(int, int)>::empty().to_multiset());
    }
    while m < sel.len()
        invariant
            0 <= m <= sel.len(),
            pairs_view(sel@) == full,
            vstd::relations::sorted_by(pairs_view(sorted@), spec_pair_le()),
            pairs_view(sorted@).to_multiset() == pairs_view(sel@).take(m as int).to_multiset(),
        decreases sel.len() - m,
    {
        broadcast use vstd::seq_lib::group_to_multiset_ensures;
        broadcast use vstd::multiset::group_multiset_axioms;

        let cand = sel[m];
        let ghost cv = (cand.0 as int, cand.1 as int);
        proof {
            assert(pairs_view(sel@)[m as int] == cv);
        }
        let mut q: usize = 0;
        while q < sorted.len() && pair_le(sorted[q], cand)
            invariant
                0 <= q <= sorted.len(),
                cv == (cand.0 as int, cand.1 as int),
                forall|k: int| 0 <= k < q ==> #[trigger] spec_pair_le()(pairs_view(sorted@)[k], cv),
            decreases sorted.len() - q,
        {
            proof {
                assert(pairs_view(sorted@)[q as int] == (sorted@[q as int].0 as int, sorted@[
                    q as int
                ].1 as int));
            }
            q += 1;
        }
        let ghost oldp = pairs_view(sorted@);
        proof {
            if q < sorted.len() {
                assert(pairs_view(sorted@)[q as int] == (sorted@[q as int].0 as int, sorted@[
                    q as int
                ].1 as int));
                assert(!spec_pair_le()(oldp[q as int], cv));
                assert(spec_pair_le()(cv, oldp[q as int]));
            }
        }
        let ghost presorted = sorted@;
        sorted.insert(q, cand);
        proof {
            presorted.insert_ensures(q as int, cand);
            let newp = pairs_view(sorted@);
            assert(newp.len() == oldp.len() + 1);
            assert forall|k: int| 0 <= k < q implies newp[k] == oldp[k] by {
                assert(sorted@[k] == presorted[k]);
            }
            assert(newp[q as int] == cv);
            assert forall|k: int| q < k < newp.len() implies newp[k] == oldp[k - 1] by {
                assert(sorted@[k] == presorted[k - 1]);
            }
            assert forall|a: int, b: int| 0 <= a < b < newp.len() implies #[trigger] spec_pair_le()(
                newp[a],
                newp[b],
            ) by {
                if a == q {
                    if b == q + 1 {
                        assert(spec_pair_le()(cv, oldp[q as int]));
                    } else {
                        assert(spec_pair_le()(cv, oldp[q as int]));
                        assert(spec_pair_le()(oldp[q as int], oldp[b - 1]));
                    }
                } else if b == q {
                    assert(spec_pair_le()(oldp[a], cv));
                } else if a < q && b > q {
                    assert(spec_pair_le()(oldp[a], oldp[b - 1]));
                } else if a > q {
                    assert(spec_pair_le()(oldp[a - 1], oldp[b - 1]));
                } else {
                    assert(spec_pair_le()(oldp[a], oldp[b]));
                }
            }
            assert(newp.remove(q as int) =~= oldp);
            assert(newp.remove(q as int).to_multiset() =~= newp.to_multiset().remove(cv));
            assert(newp.contains(newp[q as int]));
            assert(newp.to_multiset().count(cv) > 0);
            assert(newp.to_multiset() =~= oldp.to_multiset().insert(cv));
            assert(pairs_view(sel@).take(m + 1) =~= pairs_view(sel@).take(m as int).push(cv));
            assert(pairs_view(sel@).take(m + 1).to_multiset() =~= pairs_view(sel@).take(
                m as int,
            ).to_multiset().insert(cv));
        }
        m += 1;
    }
    proof {
        lemma_pair_le_total();
        full.lemma_sort_by_ensures(spec_pair_le());
        assert(pairs_view(sel@).take(sel@.len() as int) =~= pairs_view(sel@));
        vstd::seq_lib::lemma_sorted_unique(
            pairs_view(sorted@),
            full.sort_by(spec_pair_le()),
            spec_pair_le(),
        );
        assert(pairs_view(sorted@) == spec_nearby_pairs(hd, tg, wd, show_all));
    }
    let ghost pairs = spec_nearby_pairs(hd, tg, wd, show_all);
    let mut out: Vec<String> = Vec::new();
    let mut t: usize = 0;
    proof {
        assert(out.deep_view() =~= spec_cmds_of(hd, pairs.take(0)));
    }
    while t < sorted.len() && t < 5
        invariant
            0 <= t <= sorted.len(),
            t <= 5,
            hd == history.deep_view(),
            tg == target_epoch as int,
            wd == window_secs as int,
            pairs == spec_nearby_pairs(hd, tg, wd, show_all),
            pairs_view(sorted@) == pairs,
            full == spec_selected_upto(hd, tg, wd, show_all, hd.len() as int),
            out.deep_view() == spec_cmds_of(hd, pairs.take(t as int)),
        decreases sorted.len() - t,
    {
        let ghost prevc = out.deep_view();
        let pr = sorted[t];
        proof {
            assert(pairs[t as int] == (pr.0 as int, pr.1 as int));
            assert(pairs.contains(pairs[t as int]));
            lemma_pair_le_total();
            full.lemma_sort_by_ensures(spec_pair_le());
            if !full.contains(pairs[t as int]) {
                assert(!full.sort_by(spec_pair_le()).contains(pairs[t as int]));
            }
            lemma_selected_member(hd, tg, wd, show_all, hd.len() as int, pairs[t as int]);
            assert(hd[pr.1 as int] == history[pr.1 as int].deep_view());
        }
        let idx = pr.1;
        out.push(history[idx].command.clone());
        proof {
            assert(pairs.take(t + 1) =~= pairs.take(t as int).push(pairs[t as int]));
            assert(out.deep_view() =~= prevc.push(hd[pr.1 as int].command));
            assert(spec_cmds_of(hd, pairs.take(t + 1)) =~= spec_cmds_of(hd, pairs.take(t as int)).push(
                hd[pr.1 as int].command,
            ));
        }
        t += 1;
    }
    proof {
        assert(pairs.take(t as int) =~= spec_cap5(pairs));
        assert forall|k: int| 0 <= k < out.deep_view().len() implies !crate::text::spec_contains(
            #[trigger] out.deep_view()[k],
            "apt-get install"@,
        ) && !crate::text::spec_contains(out.deep_view()[k], "apt install"@) && (show_all
            || spec_is_interesting(out.deep_view()[k])) by {
            let cp = spec_cap5(pairs);
            assert(out.deep_view()[k] == hd[cp[k].1].command);
            assert(pairs.contains(pairs[k]));
            lemma_pair_le_total();
            full.lemma_sort_by_ensures(spec_pair_le());
            if !full.contains(pairs[k]) {
                assert(!full.sort_by(spec_pair_le()).contains(pairs[k]));
            }
            lemma_selected_member(hd, tg, wd, show_all, hd.len() as int, pairs[k]);
        }
        assert forall|k: int| 0 <= k < out.deep_view().len() implies spec_from_window(
            history.deep_view(),
            target_epoch as int,
            window_secs as int,
            #[trigger] out.deep_view()[k],
        ) by {
            let cp = spec_cap5(pairs);
            assert(cp[k] == pairs[k]);
            assert(out.deep_view()[k] == hd[cp[k].1].command);
            assert(pairs.contains(pairs[k]));
            lemma_pair_le_total();
            full.lemma_sort_by_ensures(spec_pair_le());
            if !full.contains(pairs[k]) {
                assert(!full.sort_by(spec_pair_le()).contains(pairs[k]));
            }
            lemma_selected_member(hd, tg, wd, show_all, hd.len() as int, pairs[k]);
            let u = pairs[k].1;
            assert(0 <= u < history.deep_view().len());
            assert(history.deep_view()[u].command == out.deep_view()[k]);
            assert(spec_delta(history.deep_view()[u].timestamp, target_epoch as int)
                <= window_secs as int);
        }
    }
    out
}

} // verus!
