//! Report assembly helpers for the orchestrator.
//!
//! Package lists are displayed truncated; timestamps are normalised to
//! single-space form for the external date and journal tools, and the
//! epoch such a tool prints is parsed back here.

use vstd::prelude::*;
use vstd::string::StrSliceExecFns;
use vstd::string::StringExecFns;

use crate::text::dec_string;
use crate::text::join_with;
use crate::text::parse_i64_str;
use crate::text::spec_dec_digits;
use crate::text::spec_join;
use crate::text::spec_parse_i64;
use crate::text::spec_tokens;
use crate::text::spec_trim;
use crate::text::tokens;
use crate::text::trim_str;

verus! {

/// A displayed package list: up to ten names joined by `", "`; a longer
/// list is truncated to its first ten and suffixed with how many more
/// there are.
pub open spec fn spec_format_pkg_list(l: Seq<Seq<char>>) -> Seq<char> {
    if l.len() <= 10 {
        spec_join(l, ", "@)
    } else {
        spec_join(l.take(10), ", "@) + " + "@ + spec_dec_digits(l.len() - 10) + " more"@
    }
}

/// Formats a package list for display, truncating after ten entries.
pub fn format_pkg_list(pkgs: &Vec<String>) -> (r: String)
    ensures
        r@ == spec_format_pkg_list(pkgs.deep_view()),
{
    if pkgs.len() <= 10 {
        join_with(pkgs, ", ")
    } else {
        let mut head: Vec<String> = Vec::new();
        let mut k: usize = 0;
        proof {
            assert(head.deep_view() =~= pkgs.deep_view().take(0));
        }
        while k < 10
            invariant
                0 <= k <= 10,
                10 < pkgs.len(),
                head.deep_view() == pkgs.deep_view().take(k as int),
            decreases 10 - k,
        {
            let ghost prev = head.deep_view();
            head.push(pkgs[k].clone());
            proof {
                assert(head.deep_view() =~= prev.push(pkgs.deep_view()[k as int]));
                assert(prev.push(pkgs.deep_view()[k as int]) =~= pkgs.deep_view().take(k + 1));
            }
            k += 1;
        }
        let mut s = join_with(&head, ", ");
        s.append(" + ");
        let more = dec_string((pkgs.len() - 10) as u64);
        s.append(more.as_str());
        s.append(" more");
        proof {
            assert(s@ =~= spec_join(pkgs.deep_view().take(10), ", "@) + " + "@ + spec_dec_digits(
                pkgs.deep_view().len() - 10,
            ) + " more"@);
        }
        s
    }
}

/// A timestamp with its whitespace collapsed: the tokens joined by one
/// space, as the external date and journal tools expect.
pub fn normalize_timestamp(s: &str) -> (r: String)
    ensures
        r@ == spec_join(spec_tokens(s@), " "@),
{
    let t = tokens(s);
    join_with(&t, " ")
}

/// Parses the epoch printed by an external date tool: its trimmed
/// output as a signed decimal.
pub fn parse_epoch(s: &str) -> (r: Option<i64>)
    ensures
        match spec_parse_i64(spec_trim(s@)) {
            Some(v) => r == Some(v as i64),
            None => r is None,
        },
{
    let t = trim_str(s);
    parse_i64_str(t.as_str())
}

} // verus!
