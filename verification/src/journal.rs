//! Audit-trail correlation.
//!
//! Given audit/journal text windowed around an install event, recover at
//! most one working-directory string: the `PWD=` value of the first line
//! whose `COMMAND=` value mentions the package manager and one of the
//! candidate package tokens of the event's command line.  A path under
//! the home directory is displayed with a `~` prefix.

use vstd::prelude::*;
use vstd::string::StrSliceExecFns;
use vstd::string::StringExecFns;

use crate::text::contains_sub;
use crate::text::find_sub_from;
use crate::text::lemma_find_sub_witness;
use crate::text::lemma_match_shift;
use crate::text::spec_contains;
use crate::text::spec_find_sub;
use crate::text::spec_lines;
use crate::text::spec_match_at;
use crate::text::spec_starts_with;
use crate::text::spec_tokens;
use crate::text::split_lines;
use crate::text::starts_with;
use crate::text::substr_string;
use crate::text::tokens;

verus! {

/// Tokens skipped at the front of the command line: flags and the
/// package-manager or subcommand words themselves.
pub open spec fn spec_skippable_token(t: Seq<char>) -> bool {
    (t.len() > 0 && t[0] == '-') || t == "apt-get"@ || t == "apt"@ || t == "install"@
}

/// The tokens left once the leading skippable run is dropped.
pub open spec fn spec_after_skip(toks: Seq<Seq<char>>) -> Seq<Seq<char>>
    decreases toks.len(),
{
    if toks.len() == 0 {
        toks
    } else if spec_skippable_token(toks[0]) {
        spec_after_skip(toks.drop_first())
    } else {
        toks
    }
}

proof fn lemma_after_skip(toks: Seq<Seq<char>>, i: int)
    requires
        0 <= i <= toks.len(),
        forall|k: int| 0 <= k < i ==> spec_skippable_token(#[trigger] toks[k]),
        i < toks.len() ==> !spec_skippable_token(toks[i]),
    ensures
        spec_after_skip(toks) == toks.skip(i),
    decreases i,
{
    if i == 0 {
        assert(toks.skip(0) =~= toks);
    } else {
        assert(spec_skippable_token(toks[0]));
        lemma_after_skip(toks.drop_first(), i - 1);
        assert(toks.drop_first().skip(i - 1) =~= toks.skip(i));
    }
}

/// The remaining non-flag tokens: the candidate package names.
pub open spec fn spec_cands_of(toks: Seq<Seq<char>>) -> Seq<Seq<char>> {
    toks.filter(|t: Seq<char>| !(t.len() > 0 && t[0] == '-'))
}

proof fn lemma_cands_push(toks: Seq<Seq<char>>, t: Seq<char>)
    ensures
        spec_cands_of(toks.push(t)) == if !(t.len() > 0 && t[0] == '-') {
            spec_cands_of(toks).push(t)
        } else {
            spec_cands_of(toks)
        },
{
    reveal(Seq::filter);
    assert(toks.push(t).drop_last() =~= toks);
    assert(toks.push(t).last() == t);
}

/// The candidate package tokens of a command line.
pub open spec fn spec_candidates(cmdline: Seq<char>) -> Seq<Seq<char>> {
    spec_cands_of(spec_after_skip(spec_tokens(cmdline)))
}

/// The `PWD=` value of a line: from after the first `PWD=` up to the
/// next `" ;"`, or to the end of the line.
pub open spec fn spec_pwd_of(line: Seq<char>) -> Seq<char> {
    let after = line.skip(spec_find_sub(line, "PWD="@) + "PWD="@.len());
    let e = spec_find_sub(after, " ;"@);
    if e == -1 {
        after
    } else {
        after.take(e)
    }
}

/// The `COMMAND=` value of a line: from after the first `COMMAND=` to
/// the end of the line.
pub open spec fn spec_cmd_of(line: Seq<char>) -> Seq<char> {
    line.skip(spec_find_sub(line, "COMMAND="@) + "COMMAND="@.len())
}

/// A line is accepted when it carries both keys and its command value
/// mentions the package manager and one candidate token.
pub open spec fn spec_line_matches(line: Seq<char>, cands: Seq<Seq<char>>) -> bool {
    &&& spec_contains(line, "PWD="@)
    &&& spec_contains(line, "COMMAND="@)
    &&& spec_contains(spec_cmd_of(line), "apt"@)
    &&& exists|i: int| 0 <= i < cands.len() && spec_contains(spec_cmd_of(line), #[trigger] cands[i])
}

/// A path under the home directory is shown with `~` for the home
/// prefix; any other path is shown verbatim.
pub open spec fn spec_display_path(p: Seq<char>, home: Seq<char>) -> Seq<char> {
    if spec_starts_with(p, home) {
        "~"@ + p.skip(home.len() as int)
    } else {
        p
    }
}

/// The first accepted line wins; there is no scoring.
pub open spec fn spec_scan(lines: Seq<Seq<char>>, cands: Seq<Seq<char>>, home: Seq<char>) -> Option<
    Seq<char>,
>
    decreases lines.len(),
{
    if lines.len() == 0 {
        None
    } else if spec_line_matches(lines[0], cands) {
        Some(spec_display_path(spec_pwd_of(lines[0]), home))
    } else {
        spec_scan(lines.drop_first(), cands, home)
    }
}

/// The working directory recovered from the journal text, if any.  With
/// no candidate package token, correlation is impossible.
pub open spec fn spec_journal_pwd(
    journal: Seq<char>,
    cmdline: Seq<char>,
    home: Seq<char>,
) -> Option<Seq<char>> {
    if spec_candidates(cmdline).len() == 0 {
        None
    } else {
        spec_scan(spec_lines(journal), spec_candidates(cmdline), home)
    }
}

/// Does the command value contain one of the candidate tokens?
fn contains_any(s: &str, cands: &Vec<String>) -> (r: bool)
    ensures
        r == exists|i: int|
            0 <= i < cands.deep_view().len() && spec_contains(s@, #[trigger] cands.deep_view()[i]),
{
    let mut i: usize = 0;
    while i < cands.len()
        invariant
            0 <= i <= cands.len(),
            forall|k: int| 0 <= k < i ==> !spec_contains(s@, #[trigger] cands.deep_view()[k]),
        decreases cands.len() - i,
    {
        if contains_sub(s, cands[i].as_str()) {
            proof {
                assert(spec_contains(s@, cands.deep_view()[i as int]));
            }
            return true;
        }
        i += 1;
    }
    false
}

/// The candidate package tokens of the invoking command line, as owned
/// strings: leading flags and package-manager words dropped, remaining
/// flags filtered out.
fn candidate_tokens(commandline: &str) -> (r: Vec<String>)
    ensures
        r.deep_view() == spec_candidates(commandline@),
{
    let toks = tokens(commandline);
    let mut i: usize = 0;
    let mut stop = false;
    while i < toks.len() && !stop
        invariant
            0 <= i <= toks.len(),
            toks.deep_view() == spec_tokens(commandline@),
            forall|k: int| 0 <= k < i ==> spec_skippable_token(#[trigger] toks.deep_view()[k]),
            stop ==> i < toks.len() && !spec_skippable_token(toks.deep_view()[i as int]),
        decreases toks.len() - i + (if stop {
            0int
        } else {
            1int
        }),
    {
        let t = &toks[i];
        let n = t.as_str().unicode_len();
        let skip_it = (n > 0 && t.as_str().get_char(0) == '-') || crate::text::str_eq(
            t.as_str(),
            "apt-get",
        ) || crate::text::str_eq(t.as_str(), "apt") || crate::text::str_eq(t.as_str(), "install");
        proof {
            assert(toks.deep_view()[i as int] == t@);
        }
        if skip_it {
            i += 1;
        } else {
            stop = true;
        }
    }
    proof {
        lemma_after_skip(toks.deep_view(), i as int);
    }
    let mut out: Vec<String> = Vec::new();
    let mut k = i;
    proof {
        assert(out.deep_view() =~= Seq::<Seq<char>>::empty());
        assert(toks.deep_view().skip(i as int).take(0) =~= Seq::<Seq<char>>::empty());
        assert(spec_cands_of(Seq::<Seq<char>>::empty()) =~= Seq::<Seq<char>>::empty()) by {
            reveal(Seq::filter);
        }
    }
    while k < toks.len()
        invariant
            i <= k <= toks.len(),
            toks.deep_view() == spec_tokens(commandline@),
            spec_after_skip(toks.deep_view()) == toks.deep_view().skip(i as int),
            out.deep_view() == spec_cands_of(toks.deep_view().skip(i as int).take(k - i)),
        decreases toks.len() - k,
    {
        let ghost prev = out.deep_view();
        let ghost rest = toks.deep_view().skip(i as int);
        let t = &toks[k];
        proof {
            assert(rest[k - i] == toks.deep_view()[k as int]);
            assert(toks.deep_view()[k as int] == t@);
            assert(rest.take(k - i + 1) =~= rest.take(k - i).push(t@));
            lemma_cands_push(rest.take(k - i), t@);
        }
        let n = t.as_str().unicode_len();
        if !(n > 0 && t.as_str().get_char(0) == '-') {
            out.push(t.clone());
            proof {
                assert(out.deep_view() =~= prev.push(t@));
            }
        }
        k += 1;
    }
    proof {
        assert(toks.deep_view().skip(i as int).take(toks.len() - i) =~= toks.deep_view().skip(
            i as int,
        ));
    }
    out
}

/// Recovers a working directory from audit/journal text for one event.
///
/// `commandline` is the event's invoking command line, `home` the
/// user's home directory for `~` substitution.  The first journal line
/// carrying `PWD=` and `COMMAND=` whose command value mentions the
/// package manager and one candidate token yields its `PWD=` value;
/// when none does, or when the command line has no candidate token, the
/// result is absent.
pub fn parse_journal_pwd(journal_output: &str, commandline: &str, home: &str) -> (r: Option<
    String,
>)
    ensures
        r.deep_view() == spec_journal_pwd(journal_output@, commandline@, home@),
{
    let cands = candidate_tokens(commandline);
    if cands.len() == 0 {
        return None;
    }
    let ghost cd = cands.deep_view();
    let lines = split_lines(journal_output);
    let mut k: usize = 0;
    proof {
        assert(lines.deep_view().skip(0) =~= lines.deep_view());
    }
    while k < lines.len()
        invariant
            0 <= k <= lines.len(),
            cd == cands.deep_view(),
            cd == spec_candidates(commandline@),
            cd.len() > 0,
            lines.deep_view() == spec_lines(journal_output@),
            spec_scan(lines.deep_view().skip(k as int), cd, home@) == spec_scan(
                lines.deep_view(),
                cd,
                home@,
            ),
        decreases lines.len() - k,
    {
        let ghost ld = lines.deep_view();
        let line = &lines[k];
        proof {
            assert(ld.skip(k as int)[0] == ld[k as int]);
            assert(ld[k as int] == line@);
            assert(ld.skip(k as int).drop_first() =~= ld.skip(k + 1));
        }
        let n = line.as_str().unicode_len();
        let pwd_at = find_sub_from(line.as_str(), 0, "PWD=");
        let cmd_at = find_sub_from(line.as_str(), 0, "COMMAND=");
        proof {
            reveal_strlit("PWD=");
            reveal_strlit("COMMAND=");
            match pwd_at {
                Some(p) => {
                    lemma_find_sub_witness(line@, "PWD="@, p as int);
                },
                None => {
                    lemma_find_sub_witness(line@, "PWD="@, n as int);
                },
            }
            match cmd_at {
                Some(q) => {
                    lemma_find_sub_witness(line@, "COMMAND="@, q as int);
                },
                None => {
                    lemma_find_sub_witness(line@, "COMMAND="@, n as int);
                },
            }
        }
        if let (Some(p), Some(q)) = (pwd_at, cmd_at) {
            let plen = "PWD=".unicode_len();
            let qlen = "COMMAND=".unicode_len();
            let cmd = substr_string(line.as_str(), q + qlen, n);
            proof {
                assert(cmd@ =~= line@.skip(q + qlen));
                assert(cmd@ == spec_cmd_of(line@));
            }
            if contains_sub(cmd.as_str(), "apt") && contains_any(cmd.as_str(), &cands) {
                let after_start = p + plen;
                let semi = find_sub_from(line.as_str(), after_start, " ;");
                proof {
                    reveal_strlit(" ;");
                    let after = line@.skip(after_start as int);
                    match semi {
                        Some(e) => {
                            assert forall|t: int| 0 <= t < e - after_start
                                implies !spec_match_at(after, t, " ;"@) by {
                                lemma_match_shift(line@, after_start as int, t, " ;"@);
                            }
                            lemma_match_shift(line@, after_start as int, e - after_start, " ;"@);
                            lemma_find_sub_witness(after, " ;"@, e - after_start);
                        },
                        None => {
                            assert forall|t: int| 0 <= t < after.len() implies !spec_match_at(
                                after,
                                t,
                                " ;"@,
                            ) by {
                                lemma_match_shift(line@, after_start as int, t, " ;"@);
                            }
                            lemma_find_sub_witness(after, " ;"@, after.len() as int);
                        },
                    }
                }
                let pwd_end = match semi {
                    Some(e) => e,
                    None => n,
                };
                let pwd = substr_string(line.as_str(), after_start, pwd_end);
                proof {
                    assert(pwd@ =~= line@.skip(after_start as int).take(pwd_end - after_start));
                    if semi is None {
                        assert(line@.skip(after_start as int).take(pwd_end - after_start)
                            =~= line@.skip(after_start as int));
                    }
                    assert(pwd@ == spec_pwd_of(line@));
                }
                let hlen = home.unicode_len();
                let display = if starts_with(pwd.as_str(), home) {
                    let pn = pwd.as_str().unicode_len();
                    let rem = substr_string(pwd.as_str(), hlen, pn);
                    let mut s = String::from_str("~");
                    s.append(rem.as_str());
                    proof {
                        assert(rem@ =~= pwd@.skip(hlen as int));
                        assert(s@ == spec_display_path(pwd@, home@));
                    }
                    s
                } else {
                    pwd
                };
                proof {
                    assert(spec_line_matches(line@, cd));
                }
                return Some(display);
            } else {
                proof {
                    assert(!spec_line_matches(line@, cd));
                }
            }
        } else {
            proof {
                assert(!spec_line_matches(line@, cd));
            }
        }
        k += 1;
    }
    proof {
        assert(spec_scan(lines.deep_view().skip(lines.len() as int), cd, home@) is None);
    }
    None
}

} // verus!
