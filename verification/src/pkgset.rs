//! Package-name sets, modelled as strictly sorted vectors.
//!
//! The curated list and the installed set are sets of names; this module
//! keeps them as vectors in strictly increasing lexicographic order, so
//! that membership, insertion, removal and difference all have exact
//! set-level contracts.

use vstd::prelude::*;
use vstd::string::StrSliceExecFns;
use vstd::string::StringExecFns;

use crate::text::contains_sub;
use crate::text::find_char_from;
use crate::text::lemma_find_char_witness;
use crate::text::lemma_lex_trichotomy;
use crate::text::spec_contains;
use crate::text::spec_find_char;
use crate::text::spec_lex_lt;
use crate::text::spec_lines;
use crate::text::spec_trim;
use crate::text::split_lines;
use crate::text::str_eq;
use crate::text::str_lt;
use crate::text::substr_string;
use crate::text::trim_str;
use crate::text::vec_contains_str;

verus! {

/// Strictly increasing in lexicographic order: sorted, no duplicates.
pub open spec fn spec_sorted_unique(l: Seq<Seq<char>>) -> bool {
    forall|i: int, j: int| 0 <= i < j < l.len() ==> spec_lex_lt(#[trigger] l[i], #[trigger] l[j])
}

/// Inserts `x` into a sorted vector, keeping order and uniqueness; a
/// value already present is not duplicated.
pub fn insert_sorted_unique(v: &mut Vec<String>, x: String)
    requires
        spec_sorted_unique(old(v).deep_view()),
    ensures
        spec_sorted_unique(final(v).deep_view()),
        forall|p: Seq<char>| final(v).deep_view().contains(p) <==> (old(
            v,
        ).deep_view().contains(p) || p == x@),
{
    let ghost oldd = v.deep_view();
    let mut j: usize = 0;
    while j < v.len() && str_lt(v[j].as_str(), x.as_str())
        invariant
            0 <= j <= v.len(),
            v.deep_view() == oldd,
            forall|k: int| 0 <= k < j ==> spec_lex_lt(#[trigger] oldd[k], x@),
        decreases v.len() - j,
    {
        proof {
            assert(oldd[j as int] == v.deep_view()[j as int]);
        }
        j += 1;
    }
    if j < v.len() && str_eq(v[j].as_str(), x.as_str()) {
        proof {
            assert(oldd[j as int] == x@);
            assert forall|p: Seq<char>|
                v.deep_view().contains(p) <==> (oldd.contains(p) || p == x@) by {
                if p == x@ {
                    assert(oldd[j as int] == p);
                    assert(oldd.contains(p));
                }
            }
        }
    } else {
        proof {
            if j < v.len() {
                lemma_lex_trichotomy(oldd[j as int], x@);
                assert(spec_lex_lt(x@, oldd[j as int]));
            }
        }
        let ghost pre = v@;
        v.insert(j, x);
        proof {
            pre.insert_ensures(j as int, x);
            let newd = v.deep_view();
            assert(newd.len() == oldd.len() + 1);
            assert forall|k: int| 0 <= k < j implies newd[k] == oldd[k] by {
                assert(v@[k] == pre[k]);
            }
            assert(newd[j as int] == x@);
            assert forall|k: int| j < k < newd.len() implies newd[k] == oldd[k - 1] by {
                assert(v@[k] == pre[k - 1]);
            }
            assert forall|a: int, b: int| 0 <= a < b < newd.len() implies spec_lex_lt(
                #[trigger] newd[a],
                #[trigger] newd[b],
            ) by {
                if a == j {
                    assert(spec_lex_lt(x@, oldd[j as int]));
                    if b > j + 1 {
                        assert(spec_lex_lt(oldd[j as int], oldd[b - 1]));
                        crate::text::lemma_lex_trans(x@, oldd[j as int], oldd[b - 1]);
                    }
                } else if b == j {
                    assert(spec_lex_lt(oldd[a], x@));
                } else if a < j && b > j {
                    assert(spec_lex_lt(oldd[a], oldd[b - 1]));
                }
            }
            assert forall|p: Seq<char>|
                newd.contains(p) <==> (oldd.contains(p) || p == x@) by {
                if newd.contains(p) {
                    let k = choose|k: int| 0 <= k < newd.len() && newd[k] == p;
                    if k < j {
                        assert(oldd[k] == p);
                    } else if k == j {
                    } else {
                        assert(oldd[k - 1] == p);
                    }
                }
                if oldd.contains(p) {
                    let k = choose|k: int| 0 <= k < oldd.len() && oldd[k] == p;
                    if k < j {
                        assert(newd[k] == p);
                    } else {
                        assert(newd[k + 1] == p);
                    }
                }
                if p == x@ {
                    assert(newd[j as int] == p);
                }
            }
        }
    }
}

/// The names in `a` that are not in `b`, in `a`'s (sorted) order.
pub fn diff_sorted(a: &Vec<String>, b: &Vec<String>) -> (r: Vec<String>)
    requires
        spec_sorted_unique(a.deep_view()),
    ensures
        spec_sorted_unique(r.deep_view()),
        forall|p: Seq<char>| r.deep_view().contains(p) <==> (a.deep_view().contains(p)
            && !b.deep_view().contains(p)),
{
    let mut out: Vec<String> = Vec::new();
    let mut k: usize = 0;
    proof {
        assert(out.deep_view() =~= Seq::<Seq<char>>::empty());
    }
    while k < a.len()
        invariant
            0 <= k <= a.len(),
            spec_sorted_unique(a.deep_view()),
            spec_sorted_unique(out.deep_view()),
            forall|p: Seq<char>| out.deep_view().contains(p) <==> (a.deep_view().take(
                k as int,
            ).contains(p) && !b.deep_view().contains(p)),
        decreases a.len() - k,
    {
        let ghost prev = out.deep_view();
        let ghost ad = a.deep_view();
        if !vec_contains_str(b, a[k].as_str()) {
            proof {
                assert(ad[k as int] == a.deep_view()[k as int]);
            }
            out.push(a[k].clone());
            proof {
                assert(out.deep_view() =~= prev.push(ad[k as int]));
                assert forall|i: int| 0 <= i < prev.len() implies spec_lex_lt(
                    prev[i],
                    ad[k as int],
                ) by {
                    assert(prev.contains(prev[i]));
                    let t = choose|t: int| 0 <= t < k && #[trigger] ad.take(k as int)[t] == prev[i];
                    assert(ad[t] == prev[i]);
                }
                let newd = out.deep_view();
                assert forall|x: int, y: int| 0 <= x < y < newd.len() implies spec_lex_lt(
                    #[trigger] newd[x],
                    #[trigger] newd[y],
                ) by {
                    if y < prev.len() {
                        assert(spec_lex_lt(prev[x], prev[y]));
                    } else {
                        assert(newd[y] == ad[k as int]);
                        assert(spec_lex_lt(prev[x], ad[k as int]));
                    }
                }
                assert forall|p: Seq<char>|
                    newd.contains(p) <==> (ad.take(k + 1).contains(p)
                        && !b.deep_view().contains(p)) by {
                    if newd.contains(p) {
                        let t = choose|t: int| 0 <= t < newd.len() && newd[t] == p;
                        if t < prev.len() {
                            assert(prev[t] == p);
                            assert(prev.contains(p));
                            let u = choose|u: int|
                                0 <= u < k && #[trigger] ad.take(k as int)[u] == p;
                            assert(ad.take(k + 1)[u] == p);
                        } else {
                            assert(p == ad[k as int]);
                            assert(ad.take(k + 1)[k as int] == p);
                        }
                    }
                    if ad.take(k + 1).contains(p) && !b.deep_view().contains(p) {
                        let t = choose|t: int| 0 <= t < k + 1 && #[trigger] ad.take(k + 1)[t] == p;
                        if t < k {
                            assert(ad.take(k as int)[t] == p);
                            assert(ad.take(k as int).contains(p));
                            assert(prev.contains(p));
                            let u = choose|u: int| 0 <= u < prev.len() && prev[u] == p;
                            assert(newd[u] == p);
                        } else {
                            assert(p == ad[k as int]);
                            assert(newd[prev.len() as int] == p);
                        }
                    }
                }
            }
        } else {
            proof {
                assert(ad[k as int] == a.deep_view()[k as int]);
                assert forall|p: Seq<char>|
                    out.deep_view().contains(p) <==> (ad.take(k + 1).contains(p)
                        && !b.deep_view().contains(p)) by {
                    if prev.contains(p) {
                        let u = choose|u: int| 0 <= u < k && #[trigger] ad.take(k as int)[u] == p;
                        assert(ad.take(k + 1)[u] == p);
                    }
                    if ad.take(k + 1).contains(p) && !b.deep_view().contains(p) {
                        let t = choose|t: int| 0 <= t < k + 1 && #[trigger] ad.take(k + 1)[t] == p;
                        if t < k {
                            assert(ad.take(k as int)[t] == p);
                            assert(ad.take(k as int).contains(p));
                        } else {
                            assert(p == ad[k as int]);
                        }
                    }
                }
            }
        }
        k += 1;
    }
    proof {
        assert(a.deep_view().take(a.len() as int) =~= a.deep_view());
    }
    out
}

/// Adds a name to a sorted set; reports whether it was new.
pub fn add_package(v: &mut Vec<String>, name: &str) -> (added: bool)
    requires
        spec_sorted_unique(old(v).deep_view()),
    ensures
        spec_sorted_unique(final(v).deep_view()),
        forall|p: Seq<char>| final(v).deep_view().contains(p) <==> (old(
            v,
        ).deep_view().contains(p) || p == name@),
        added == !old(v).deep_view().contains(name@),
{
    if vec_contains_str(v, name) {
        proof {
            assert forall|p: Seq<char>|
                v.deep_view().contains(p) <==> (v.deep_view().contains(p) || p == name@) by {
                if p == name@ {
                    assert(v.deep_view().contains(p));
                }
            }
        }
        false
    } else {
        insert_sorted_unique(v, String::from_str(name));
        true
    }
}

/// Removes a name from a sorted set; reports whether it was present.
pub fn remove_package(v: &mut Vec<String>, name: &str) -> (removed: bool)
    requires
        spec_sorted_unique(old(v).deep_view()),
    ensures
        spec_sorted_unique(final(v).deep_view()),
        forall|p: Seq<char>| final(v).deep_view().contains(p) <==> (old(
            v,
        ).deep_view().contains(p) && p != name@),
        removed == old(v).deep_view().contains(name@),
{
    let ghost oldd = v.deep_view();
    let mut j: usize = 0;
    while j < v.len()
        invariant
            0 <= j <= v.len(),
            v.deep_view() == oldd,
            oldd == old(v).deep_view(),
            spec_sorted_unique(oldd),
            forall|k: int| 0 <= k < j ==> #[trigger] oldd[k] != name@,
        decreases v.len() - j,
    {
        if str_eq(v[j].as_str(), name) {
            proof {
                assert(oldd[j as int] == name@);
            }
            let ghost pre = v@;
            v.remove(j);
            proof {
                pre.remove_ensures(j as int);
                assert(v@ =~= pre.remove(j as int));
                let newd = v.deep_view();
                assert(newd.len() == oldd.len() - 1);
                assert forall|k: int| 0 <= k < j implies newd[k] == oldd[k] by {
                    assert(v@[k] == pre[k]);
                }
                assert forall|k: int| j <= k < newd.len() implies newd[k] == oldd[k + 1] by {
                    assert(v@[k] == pre[k + 1]);
                }
                assert forall|a: int, b: int| 0 <= a < b < newd.len() implies spec_lex_lt(
                    #[trigger] newd[a],
                    #[trigger] newd[b],
                ) by {
                    if a < j && b >= j {
                        assert(spec_lex_lt(oldd[a], oldd[b + 1]));
                    }
                }
                assert forall|p: Seq<char>|
                    newd.contains(p) <==> (oldd.contains(p) && p != name@) by {
                    if newd.contains(p) {
                        let k = choose|k: int| 0 <= k < newd.len() && newd[k] == p;
                        if k < j {
                            assert(oldd[k] == p);
                            assert(spec_lex_lt(oldd[k], oldd[j as int]));
                            crate::text::lemma_lex_asym(oldd[k], oldd[j as int]);
                        } else {
                            assert(oldd[k + 1] == p);
                            assert(spec_lex_lt(oldd[j as int], oldd[k + 1]));
                            crate::text::lemma_lex_asym(oldd[j as int], oldd[k + 1]);
                        }
                    }
                    if oldd.contains(p) && p != name@ {
                        let k = choose|k: int| 0 <= k < oldd.len() && oldd[k] == p;
                        if k < j {
                            assert(newd[k] == p);
                        } else if k == j {
                        } else {
                            assert(newd[k - 1] == p);
                        }
                    }
                }
                assert(oldd.contains(name@)) by {
                    assert(oldd[j as int] == name@);
                }
            }
            return true;
        }
        j += 1;
    }
    proof {
        if v.deep_view().contains(name@) {
            let k = choose|k: int| 0 <= k < oldd.len() && oldd[k] == name@;
            assert(oldd[k] != name@);
        }
    }
    false
}

/// Is `p` one of the package names listed on the given lines?  A listed
/// name is a trimmed, non-empty line that is not a `#` comment.
pub open spec fn spec_listed_in(lines: Seq<Seq<char>>, p: Seq<char>) -> bool {
    exists|j: int|
        0 <= j < lines.len() && spec_trim(#[trigger] lines[j]) == p && p.len() > 0 && p[0] != '#'
}

/// Parses curated-list text: one package name per line, whitespace
/// trimmed; blank lines and `#` comments are ignored; duplicates
/// collapse; the result is sorted.
pub fn parse_packages(contents: &str) -> (r: Vec<String>)
    ensures
        spec_sorted_unique(r.deep_view()),
        forall|p: Seq<char>| r.deep_view().contains(p) <==> spec_listed_in(
            spec_lines(contents@),
            p,
        ),
{
    let lines = split_lines(contents);
    let mut out: Vec<String> = Vec::new();
    let mut j: usize = 0;
    while j < lines.len()
        invariant
            0 <= j <= lines.len(),
            lines.deep_view() == spec_lines(contents@),
            spec_sorted_unique(out.deep_view()),
            forall|p: Seq<char>| out.deep_view().contains(p) <==> spec_listed_in(
                lines.deep_view().take(j as int),
                p,
            ),
        decreases lines.len() - j,
    {
        let ghost ld = lines.deep_view();
        let ghost prev = out.deep_view();
        let line = &lines[j];
        proof {
            assert(ld[j as int] == line@);
        }
        let t = trim_str(line.as_str());
        let n = t.as_str().unicode_len();
        let keep = n > 0 && t.as_str().get_char(0) != '#';
        if keep {
            insert_sorted_unique(&mut out, t);
        }
        proof {
            assert forall|p: Seq<char>|
                out.deep_view().contains(p) <==> spec_listed_in(ld.take(j + 1), p) by {
                if out.deep_view().contains(p) {
                    if prev.contains(p) {
                        let w = choose|w: int|
                            0 <= w < j && spec_trim(#[trigger] ld.take(j as int)[w]) == p
                                && p.len() > 0 && p[0] != '#';
                        assert(spec_trim(ld.take(j + 1)[w]) == p);
                    } else {
                        assert(keep && p == spec_trim(ld[j as int]));
                        assert(spec_trim(ld.take(j + 1)[j as int]) == p);
                    }
                }
                if spec_listed_in(ld.take(j + 1), p) {
                    let w = choose|w: int|
                        0 <= w < j + 1 && spec_trim(#[trigger] ld.take(j + 1)[w]) == p && p.len()
                            > 0 && p[0] != '#';
                    if w < j {
                        assert(spec_trim(ld.take(j as int)[w]) == p);
                        assert(prev.contains(p));
                    } else {
                        assert(p == spec_trim(ld[j as int]));
                        assert(p == t@);
                    }
                }
            }
        }
        j += 1;
    }
    proof {
        assert(lines.deep_view().take(lines.len() as int) =~= lines.deep_view());
    }
    out
}

/// The package name reported installed on one status line, if any: the
/// text before the first tab, accepted when the text after the tab
/// carries the installed marker.
pub open spec fn spec_installed_name(line: Seq<char>) -> Option<Seq<char>> {
    let i = spec_find_char(line, '\t');
    if i < 0 {
        None
    } else if spec_contains(line.skip(i + 1), "install ok installed"@) {
        Some(line.take(i))
    } else {
        None
    }
}

/// Is `p` reported installed on one of the given lines?
pub open spec fn spec_reported_in(lines: Seq<Seq<char>>, p: Seq<char>) -> bool {
    exists|j: int| 0 <= j < lines.len() && spec_installed_name(#[trigger] lines[j]) == Some(p)
}

/// Parses package-database status output: one `name<TAB>status` line per
/// package, keeping the names whose status holds the installed marker.
/// Lines without a tab are skipped.  The result is a sorted set.
pub fn parse_installed(output: &str) -> (r: Vec<String>)
    ensures
        spec_sorted_unique(r.deep_view()),
        forall|p: Seq<char>| r.deep_view().contains(p) <==> spec_reported_in(
            spec_lines(output@),
            p,
        ),
{
    let lines = split_lines(output);
    let mut out: Vec<String> = Vec::new();
    let mut j: usize = 0;
    while j < lines.len()
        invariant
            0 <= j <= lines.len(),
            lines.deep_view() == spec_lines(output@),
            spec_sorted_unique(out.deep_view()),
            forall|p: Seq<char>| out.deep_view().contains(p) <==> spec_reported_in(
                lines.deep_view().take(j as int),
                p,
            ),
        decreases lines.len() - j,
    {
        let ghost ld = lines.deep_view();
        let ghost prev = out.deep_view();
        let line = &lines[j];
        proof {
            assert(ld[j as int] == line@);
        }
        let n = line.as_str().unicode_len();
        let ti = find_char_from(line.as_str(), 0, '\t');
        proof {
            lemma_find_char_witness(line@, '\t', ti as int);
        }
        if ti < n {
            let status = substr_string(line.as_str(), ti + 1, n);
            proof {
                assert(status@ =~= line@.skip(ti + 1));
            }
            if contains_sub(status.as_str(), "install ok installed") {
                let name = substr_string(line.as_str(), 0, ti);
                proof {
                    assert(name@ =~= line@.take(ti as int));
                }
                insert_sorted_unique(&mut out, name);
            }
        }
        proof {
            assert forall|p: Seq<char>|
                out.deep_view().contains(p) <==> spec_reported_in(ld.take(j + 1), p) by {
                if out.deep_view().contains(p) {
                    if prev.contains(p) {
                        let w = choose|w: int|
                            0 <= w < j && spec_installed_name(#[trigger] ld.take(j as int)[w])
                                == Some(p);
                        assert(spec_installed_name(ld.take(j + 1)[w]) == Some(p));
                    } else {
                        assert(spec_installed_name(ld.take(j + 1)[j as int]) == Some(p));
                    }
                }
                if spec_reported_in(ld.take(j + 1), p) {
                    let w = choose|w: int|
                        0 <= w < j + 1 && spec_installed_name(#[trigger] ld.take(j + 1)[w]) == Some(
                            p,
                        );
                    if w < j {
                        assert(spec_installed_name(ld.take(j as int)[w]) == Some(p));
                        assert(prev.contains(p));
                    } else {
                        assert(spec_installed_name(ld[j as int]) == Some(p));
                    }
                }
            }
        }
        j += 1;
    }
    proof {
        assert(lines.deep_view().take(lines.len() as int) =~= lines.deep_view());
    }
    out
}

} // verus!
