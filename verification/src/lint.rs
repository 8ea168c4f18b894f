//! Lint-output compaction: issue markers set a current rule (the bracketed
//! code when one is present, otherwise the message), following `-->`
//! location lines are grouped under it in first-seen order, and the renderer
//! lists the groups by non-increasing occurrence count with a few example
//! locations each. Ties keep first-seen order: the sort is stable.

use crate::build_output::is_compiling_line;
use crate::build_output::is_error_marker;
use crate::build_output::is_progress_line;
use crate::build_output::is_warning_marker;
use crate::build_output::sep_nl;
use crate::strutil::dec_str;
use crate::strutil::contains_str;
use crate::strutil::dvs;
use crate::strutil::eq_str;
use crate::strutil::fmt_usize;
use crate::strutil::has_sub;
use crate::strutil::last_idx;
use crate::strutil::lemma_vec_deep_view;
use crate::strutil::rfind_char;
use crate::strutil::skip_spaces;
use crate::strutil::spec_lines;
use crate::strutil::split_lines;
use crate::strutil::starts_with_str;
use crate::strutil::trim_str;
use crate::strutil::trim_start_str;
use crate::strutil::trimmed;
use vstd::prelude::*;
use vstd::string::StrSliceExecFns;
use vstd::string::StringExecFns;

verus! {

broadcast use lemma_vec_deep_view;

/// Most rule groups a lint summary shows before it overflows.
pub const MAX_LINT_RULES: usize = 15;

/// Most example locations shown under one rule group.
pub const MAX_RULE_LOCATIONS: usize = 3;

/// One rule group: the rule's name and its locations in first-seen order.
pub type RuleGroup = (Seq<char>, Seq<Seq<char>>);

/// Classification state after some prefix of the raw lint output.
pub struct LintScan {
    pub errors: nat,
    pub warnings: nat,
    pub groups: Seq<RuleGroup>,
    pub cur_rule: Seq<char>,
}

/// A "Checking" progress line.
pub open spec fn is_checking_line(l: Seq<char>) -> bool {
    "Checking"@.is_prefix_of(skip_spaces(l))
}

/// Progress chatter the lint classifier drops.
pub open spec fn lint_noise(l: Seq<char>) -> bool {
    is_compiling_line(l) || is_checking_line(l) || is_progress_line(l)
}

/// An error or warning marker at the start of the line.
pub open spec fn is_lint_marker(l: Seq<char>) -> bool {
    is_warning_marker(l) || is_error_marker(l)
}

/// An aggregate summary line the classifier drops rather than counts.
pub open spec fn is_lint_summary(l: Seq<char>) -> bool {
    ||| has_sub(l, "generated"@) && has_sub(l, "warning"@)
    ||| has_sub(l, "aborting due to"@)
    ||| has_sub(l, "could not compile"@)
}

/// The rule a marker line names: the text of its last bracket pair when the
/// brackets are well formed, else the message after its severity prefix.
pub open spec fn marker_rule(l: Seq<char>) -> Seq<char> {
    let bs = last_idx(l, '[');
    let be = last_idx(l, ']');
    if bs >= 0 {
        if be >= 0 && bs + 1 <= be {
            l.subrange(bs + 1, be)
        } else {
            l
        }
    } else {
        let p = if "error"@.is_prefix_of(l) {
            "error: "@
        } else {
            "warning: "@
        };
        if p.is_prefix_of(l) {
            l.skip(p.len() as int)
        } else {
            l
        }
    }
}

/// The arrow prefix of a location line.
pub open spec fn arrow() -> Seq<char> {
    seq!['-', '-', '>', ' ']
}

/// `s` with every leading arrow prefix removed.
pub open spec fn strip_arrows(s: Seq<char>) -> Seq<char>
    decreases s.len(),
{
    if arrow().is_prefix_of(s) {
        strip_arrows(s.skip(4))
    } else {
        s
    }
}

/// A location line: an arrow after optional indentation.
pub open spec fn is_location_line(l: Seq<char>) -> bool {
    "--> "@.is_prefix_of(skip_spaces(l))
}

/// The location a location line carries.
pub open spec fn location_of(l: Seq<char>) -> Seq<char> {
    strip_arrows(skip_spaces(l))
}

/// Appends `loc` to the group of `rule`, keeping first-seen group order;
/// a first occurrence opens a new group at the end.
pub open spec fn add_loc(groups: Seq<RuleGroup>, rule: Seq<char>, loc: Seq<char>) -> Seq<RuleGroup>
    decreases groups.len(),
{
    if groups.len() == 0 {
        seq![(rule, seq![loc])]
    } else if groups[0].0 == rule {
        seq![(rule, groups[0].1.push(loc))] + groups.drop_first()
    } else {
        seq![groups[0]] + add_loc(groups.drop_first(), rule, loc)
    }
}

pub open spec fn lint_init() -> LintScan {
    LintScan { errors: 0, warnings: 0, groups: Seq::empty(), cur_rule: Seq::empty() }
}

/// One step of the lint classifier: how a single raw line changes the state.
pub open spec fn lint_step(st: LintScan, l: Seq<char>) -> LintScan {
    if lint_noise(l) {
        st
    } else if is_lint_marker(l) {
        if is_lint_summary(l) {
            st
        } else if "error"@.is_prefix_of(l) {
            LintScan { errors: st.errors + 1, cur_rule: marker_rule(l), ..st }
        } else {
            LintScan { warnings: st.warnings + 1, cur_rule: marker_rule(l), ..st }
        }
    } else if is_location_line(l) {
        if st.cur_rule.len() > 0 {
            LintScan { groups: add_loc(st.groups, st.cur_rule, location_of(l)), ..st }
        } else {
            st
        }
    } else {
        st
    }
}

/// The classifier folded over a sequence of raw lines.
pub open spec fn scan_lint(lines: Seq<Seq<char>>) -> LintScan
    decreases lines.len(),
{
    if lines.len() == 0 {
        lint_init()
    } else {
        lint_step(scan_lint(lines.drop_last()), lines.last())
    }
}

/// Inserts `g` before the first group with a strictly smaller count.
pub open spec fn insert_group(g: RuleGroup, s: Seq<RuleGroup>) -> Seq<RuleGroup>
    decreases s.len(),
{
    if s.len() == 0 {
        seq![g]
    } else if s[0].1.len() < g.1.len() {
        seq![g] + s
    } else {
        seq![s[0]] + insert_group(g, s.drop_first())
    }
}

/// Stable insertion sort by non-increasing location count.
pub open spec fn sort_groups(s: Seq<RuleGroup>) -> Seq<RuleGroup>
    decreases s.len(),
{
    if s.len() == 0 {
        Seq::empty()
    } else {
        insert_group(s.last(), sort_groups(s.drop_last()))
    }
}

/// The first `k` locations of a group, indented.
pub open spec fn locs_part(locs: Seq<Seq<char>>, k: int) -> Seq<char>
    decreases k,
{
    if k <= 0 {
        Seq::empty()
    } else {
        locs_part(locs, k - 1) + "    "@ + locs[k - 1] + "\n"@
    }
}

/// One rendered rule group: name, count and a few example locations.
pub open spec fn group_item(g: RuleGroup) -> Seq<char> {
    let cnt = g.1.len();
    let k = if cnt < MAX_RULE_LOCATIONS as int {
        cnt as int
    } else {
        MAX_RULE_LOCATIONS as int
    };
    "  "@ + g.0 + " ("@ + dec_str(cnt as nat) + "x)\n"@ + locs_part(g.1, k) + (if cnt
        > MAX_RULE_LOCATIONS as int {
        "    ... +"@ + dec_str((cnt - MAX_RULE_LOCATIONS) as nat) + " more\n"@
    } else {
        Seq::empty()
    })
}

/// The first `k` rendered rule groups.
pub open spec fn group_items(gs: Seq<RuleGroup>, k: int) -> Seq<char>
    decreases k,
{
    if k <= 0 {
        Seq::empty()
    } else {
        group_items(gs, k - 1) + group_item(gs[k - 1])
    }
}

/// The rendered lint summary for a finished scan.
pub open spec fn render_lint(st: LintScan) -> Seq<char> {
    if st.errors == 0 && st.warnings == 0 {
        "✓ cargo clippy: No issues found"@
    } else {
        let sorted = sort_groups(st.groups);
        let n = sorted.len() as int;
        let k = if n < MAX_LINT_RULES as int {
            n
        } else {
            MAX_LINT_RULES as int
        };
        trimmed(
            "cargo clippy: "@ + dec_str(st.errors) + " errors, "@ + dec_str(st.warnings)
                + " warnings\n"@ + sep_nl() + group_items(sorted, k) + (if n > MAX_LINT_RULES as int {
                "\n... +"@ + dec_str((n - MAX_LINT_RULES) as nat) + " more rules\n"@
            } else {
                Seq::empty()
            }),
        )
    }
}

/// The whole pipeline on raw lint output.
pub open spec fn spec_filter_lint(s: Seq<char>) -> Seq<char> {
    render_lint(scan_lint(spec_lines(s)))
}

proof fn lemma_add_loc_found(groups: Seq<RuleGroup>, rule: Seq<char>, loc: Seq<char>, j: int)
    requires
        0 <= j < groups.len(),
        groups[j].0 == rule,
        forall|k: int| 0 <= k < j ==> (#[trigger] groups[k]).0 != rule,
    ensures
        add_loc(groups, rule, loc) =~= groups.update(j, (rule, groups[j].1.push(loc))),
    decreases j,
{
    if j == 0 {
        assert(seq![(rule, groups[0].1.push(loc))] + groups.drop_first() =~= groups.update(
            0,
            (rule, groups[0].1.push(loc)),
        ));
    } else {
        assert(groups[0].0 != rule);
        lemma_add_loc_found(groups.drop_first(), rule, loc, j - 1);
        assert(groups.drop_first()[j - 1] == groups[j]);
        assert(seq![groups[0]] + groups.drop_first().update(j - 1, (rule, groups[j].1.push(loc)))
            =~= groups.update(j, (rule, groups[j].1.push(loc))));
    }
}

proof fn lemma_add_loc_new(groups: Seq<RuleGroup>, rule: Seq<char>, loc: Seq<char>)
    requires
        forall|k: int| 0 <= k < groups.len() ==> (#[trigger] groups[k]).0 != rule,
    ensures
        add_loc(groups, rule, loc) =~= groups.push((rule, seq![loc])),
    decreases groups.len(),
{
    if groups.len() == 0 {
    } else {
        lemma_add_loc_new(groups.drop_first(), rule, loc);
        assert(seq![groups[0]] + groups.drop_first().push((rule, seq![loc])) =~= groups.push(
            (rule, seq![loc]),
        ));
    }
}

fn marker_rule_str(line: &str) -> (r: String)
    ensures
        r@ == marker_rule(line@),
{
    let n = line.unicode_len();
    let bs = rfind_char(line, '[');
    let be = rfind_char(line, ']');
    match bs {
        Some(b) => {
            match be {
                Some(e) => {
                    if b + 1 <= e {
                        String::from_str(line.substring_char(b + 1, e))
                    } else {
                        String::from_str(line)
                    }
                },
                None => String::from_str(line),
            }
        },
        None => {
            let p = if starts_with_str(line, "error") {
                "error: "
            } else {
                "warning: "
            };
            if starts_with_str(line, p) {
                let plen = p.unicode_len();
                let rest = line.substring_char(plen, n);
                proof {
                    assert(rest@ =~= line@.skip(p@.len() as int));
                }
                String::from_str(rest)
            } else {
                String::from_str(line)
            }
        },
    }
}

fn strip_arrow_prefixes(s: &str) -> (r: String)
    ensures
        r@ == strip_arrows(s@),
    decreases s@.len(),
{
    proof {
        reveal_strlit("--> ");
        assert("--> "@ =~= arrow());
    }
    if starts_with_str(s, "--> ") {
        let n = s.unicode_len();
        let rest = s.substring_char(4, n);
        proof {
            assert(rest@ =~= s@.skip(4));
        }
        strip_arrow_prefixes(rest)
    } else {
        String::from_str(s)
    }
}

/// Compacts raw `cargo clippy` output: markers and their locations are
/// grouped by rule and listed by falling occurrence count.
#[verifier::rlimit(80)]
pub fn filter_cargo_clippy(output: &str) -> (r: String)
    ensures
        r@ == spec_filter_lint(output@),
{
    let lines = split_lines(output);
    let ghost lseq = dvs(lines@);
    let n = lines.len();
    let mut errors: usize = 0;
    let mut warnings: usize = 0;
    let mut groups: Vec<(String, Vec<String>)> = Vec::new();
    let mut cur_rule = String::new();
    proof {
        assert(dvs(groups@) =~= Seq::<RuleGroup>::empty());
        assert(lseq.take(0) =~= Seq::<Seq<char>>::empty());
    }
    let mut idx: usize = 0;
    while idx < n
        invariant
            n == lines@.len(),
            lseq == dvs(lines@),
            0 <= idx <= n,
            errors <= idx,
            warnings <= idx,
            scan_lint(lseq.take(idx as int)) == (LintScan {
                errors: errors as nat,
                warnings: warnings as nat,
                groups: dvs(groups@),
                cur_rule: cur_rule@,
            }),
        decreases n - idx,
    {
        let ghost st0 = scan_lint(lseq.take(idx as int));
        let lineref = &lines[idx];
        let line = lineref.as_str();
        proof {
            assert(line@ == lseq[idx as int]);
        }
        let tl = trim_start_str(line);
        if starts_with_str(tl, "Compiling") || starts_with_str(tl, "Checking") || starts_with_str(
            tl,
            "Downloading",
        ) || starts_with_str(tl, "Downloaded") || starts_with_str(tl, "Finished") {
        } else if starts_with_str(line, "warning:") || starts_with_str(line, "warning[")
            || starts_with_str(line, "error:") || starts_with_str(line, "error[") {
            if contains_str(line, "generated") && contains_str(line, "warning") {
            } else if contains_str(line, "aborting due to") || contains_str(
                line,
                "could not compile",
            ) {
            } else {
                if starts_with_str(line, "error") {
                    errors = errors + 1;
                } else {
                    warnings = warnings + 1;
                }
                cur_rule = marker_rule_str(line);
            }
        } else if starts_with_str(tl, "--> ") {
            if cur_rule.unicode_len() > 0 {
                let loc = strip_arrow_prefixes(tl);
                let ghost g0 = groups@;
                let ghost rdv = cur_rule@;
                let ghost ldv = loc@;
                let glen = groups.len();
                let mut j: usize = 0;
                while j < glen && !eq_str(groups[j].0.as_str(), cur_rule.as_str())
                    invariant
                        glen == groups@.len(),
                        g0 == groups@,
                        rdv == cur_rule@,
                        0 <= j <= glen,
                        forall|k: int| 0 <= k < j ==> (#[trigger] dvs(g0)[k]).0 != rdv,
                    decreases glen - j,
                {
                    proof {
                        assert(dvs(g0)[j as int].0 == g0[j as int].0@);
                    }
                    j = j + 1;
                }
                if j < glen {
                    proof {
                        assert(dvs(g0)[j as int].0 == g0[j as int].0@);
                        lemma_add_loc_found(dvs(g0), rdv, ldv, j as int);
                    }
                    let mut entry = groups.remove(j);
                    entry.1.push(loc);
                    let ghost entv = entry;
                    groups.insert(j, entry);
                    proof {
                        assert(groups@ =~= g0.update(j as int, entv));
                        assert(entv.deep_view() == (rdv, g0[j as int].1.deep_view().push(ldv)));
                        assert(dvs(groups@) =~= dvs(g0).update(
                            j as int,
                            (rdv, dvs(g0)[j as int].1.push(ldv)),
                        ));
                        assert(dvs(groups@) =~= add_loc(dvs(g0), rdv, ldv));
                    }
                } else {
                    proof {
                        lemma_add_loc_new(dvs(g0), rdv, ldv);
                    }
                    let mut lv: Vec<String> = Vec::new();
                    lv.push(loc);
                    let entry = (cur_rule.clone(), lv);
                    let ghost entv = entry;
                    groups.push(entry);
                    proof {
                        assert(entv.deep_view() == (rdv, seq![ldv]));
                        assert(dvs(groups@) =~= dvs(g0).push((rdv, seq![ldv])));
                        assert(dvs(groups@) =~= add_loc(dvs(g0), rdv, ldv));
                    }
                }
            }
        }
        proof {
            assert(lseq.take(idx + 1).drop_last() =~= lseq.take(idx as int));
            assert(lseq.take(idx + 1).last() == lseq[idx as int]);
            assert(scan_lint(lseq.take(idx + 1)) == lint_step(st0, lseq[idx as int]));
        }
        idx = idx + 1;
    }
    proof {
        assert(lseq.take(n as int) =~= lseq);
    }
    let ghost st = scan_lint(lseq);
    if errors == 0 && warnings == 0 {
        let r = String::from_str("✓ cargo clippy: No issues found");
        proof {
            assert(r@ == render_lint(st));
        }
        return r;
    }
    // Stable sort by non-increasing location count.
    let mut sorted: Vec<(String, Vec<String>)> = Vec::new();
    proof {
        assert(dvs(sorted@) =~= sort_groups(dvs(groups@).take(0)));
    }
    let glen = groups.len();
    let mut i: usize = 0;
    while i < glen
        invariant
            glen == groups@.len(),
            st.groups == dvs(groups@),
            0 <= i <= glen,
            dvs(sorted@) == sort_groups(dvs(groups@).take(i as int)),
        decreases glen - i,
    {
        let entry = (groups[i].0.clone(), groups[i].1.clone());
        let ghost entv = entry;
        let ghost gdv = dvs(groups@)[i as int];
        proof {
            assert(entv.deep_view() == gdv);
        }
        let cnt = entry.1.len();
        let slen = sorted.len();
        let ghost s0 = dvs(sorted@);
        let mut p: usize = 0;
        while p < slen && sorted[p].1.len() >= cnt
            invariant
                slen == sorted@.len(),
                s0 == dvs(sorted@),
                cnt == entv.1@.len(),
                0 <= p <= slen,
                forall|k: int| 0 <= k < p ==> (#[trigger] s0[k]).1.len() >= cnt,
            decreases slen - p,
        {
            proof {
                assert(s0[p as int].1 == sorted@[p as int].1.deep_view());
            }
            p = p + 1;
        }
        proof {
            if p < slen {
                assert(s0[p as int].1 == sorted@[p as int].1.deep_view());
            }
            lemma_insert_group_at(gdv, s0, p as int);
        }
        sorted.insert(p, entry);
        proof {
            assert(sorted@ =~= sorted@.subrange(0, p as int) + seq![entv] + sorted@.subrange(
                p + 1,
                sorted@.len() as int,
            ));
            assert(dvs(sorted@) =~= s0.take(p as int) + seq![gdv] + s0.skip(p as int));
            assert(dvs(sorted@) =~= insert_group(gdv, s0));
            assert(dvs(groups@).take(i + 1).drop_last() =~= dvs(groups@).take(i as int));
            assert(dvs(groups@).take(i + 1).last() == gdv);
        }
        i = i + 1;
    }
    proof {
        assert(dvs(groups@).take(glen as int) =~= dvs(groups@));
    }
    let ghost sdv = sort_groups(st.groups);
    let mut r = String::from_str("cargo clippy: ");
    let d1 = fmt_usize(errors);
    r.append(d1.as_str());
    r.append(" errors, ");
    let d2 = fmt_usize(warnings);
    r.append(d2.as_str());
    r.append(" warnings\n");
    r.append("═══════════════════════════════════════\n");
    let ghost hdr = "cargo clippy: "@ + dec_str(st.errors) + " errors, "@ + dec_str(st.warnings)
        + " warnings\n"@ + sep_nl();
    proof {
        assert(r@ == hdr);
    }
    let total = sorted.len();
    let k = if total < MAX_LINT_RULES {
        total
    } else {
        MAX_LINT_RULES
    };
    let mut i: usize = 0;
    while i < k
        invariant
            k <= total,
            total == sorted@.len(),
            sdv == dvs(sorted@),
            0 <= i <= k,
            r@ == hdr + group_items(sdv, i as int),
        decreases k - i,
    {
        let entry = &sorted[i];
        proof {
            assert(entry.deep_view() == sdv[i as int]);
        }
        let cnt = entry.1.len();
        r.append("  ");
        r.append(entry.0.as_str());
        r.append(" (");
        let d = fmt_usize(cnt);
        r.append(d.as_str());
        r.append("x)\n");
        let ghost pre = r@;
        let kl = if cnt < MAX_RULE_LOCATIONS {
            cnt
        } else {
            MAX_RULE_LOCATIONS
        };
        let mut j: usize = 0;
        while j < kl
            invariant
                kl <= cnt,
                cnt == entry.1@.len(),
                sdv == dvs(sorted@),
                i < sorted@.len(),
                entry == sorted@[i as int],
                0 <= j <= kl,
                r@ == pre + locs_part(sdv[i as int].1, j as int),
            decreases kl - j,
        {
            r.append("    ");
            r.append(entry.1[j].as_str());
            r.append("\n");
            proof {
                assert(sdv[i as int].1[j as int] == entry.1@[j as int]@);
                assert(r@ =~= pre + locs_part(sdv[i as int].1, j + 1));
            }
            j = j + 1;
        }
        if cnt > MAX_RULE_LOCATIONS {
            r.append("    ... +");
            let d3 = fmt_usize(cnt - MAX_RULE_LOCATIONS);
            r.append(d3.as_str());
            r.append(" more\n");
        }
        proof {
            assert(r@ =~= hdr + group_items(sdv, i + 1));
        }
        i = i + 1;
    }
    if total > MAX_LINT_RULES {
        r.append("\n... +");
        let d4 = fmt_usize(total - MAX_LINT_RULES);
        r.append(d4.as_str());
        r.append(" more rules\n");
        proof {
            assert(r@ =~= hdr + group_items(sdv, k as int) + ("\n... +"@ + dec_str(
                (total - MAX_LINT_RULES) as nat,
            ) + " more rules\n"@));
        }
    } else {
        proof {
            assert(r@ =~= hdr + group_items(sdv, k as int) + Seq::<char>::empty());
        }
    }
    let out = trim_str(r.as_str());
    proof {
        assert(out@ == render_lint(st));
    }
    out
}

/// Re-running the whole lint pipeline on a success summary classifies
/// nothing: the rendered line is no marker and no location, so a second
/// scan counts no errors, no warnings and no groups.
pub proof fn lemma_lint_success_render_inert(lines: Seq<Seq<char>>)
    requires
        scan_lint(lines).errors == 0,
        scan_lint(lines).warnings == 0,
    ensures
        ({
            let again = scan_lint(spec_lines(render_lint(scan_lint(lines))));
            &&& again.errors == 0
            &&& again.warnings == 0
            &&& again.groups.len() == 0
        }),
{
    let st = scan_lint(lines);
    let r = render_lint(st);
    reveal_strlit("✓ cargo clippy: No issues found");
    assert(forall|i: int| 0 <= i < r.len() ==> r[i] != '\n');
    crate::strutil::lemma_first_nl_at(r, r.len() as int);
    assert(spec_lines(r) =~= seq![r]);
    assert(seq![r].drop_last() =~= Seq::<Seq<char>>::empty());
    assert(seq![r].last() == r);
    assert(scan_lint(Seq::<Seq<char>>::empty()) == lint_init());
    assert(scan_lint(seq![r].drop_last()) == lint_init());
    assert(scan_lint(seq![r]) == lint_step(lint_init(), r));
    assert(skip_spaces(r) == r);
    reveal_strlit("error[");
    reveal_strlit("error:");
    reveal_strlit("warning:");
    reveal_strlit("warning[");
    reveal_strlit("--> ");
    assert(!is_lint_marker(r)) by {
        if "error["@.is_prefix_of(r) {
            assert("error["@[0] == r.subrange(0, "error["@.len() as int)[0]);
        }
        if "error:"@.is_prefix_of(r) {
            assert("error:"@[0] == r.subrange(0, "error:"@.len() as int)[0]);
        }
        if "warning:"@.is_prefix_of(r) {
            assert("warning:"@[0] == r.subrange(0, "warning:"@.len() as int)[0]);
        }
        if "warning["@.is_prefix_of(r) {
            assert("warning["@[0] == r.subrange(0, "warning["@.len() as int)[0]);
        }
    }
    assert(!is_location_line(r)) by {
        if "--> "@.is_prefix_of(skip_spaces(r)) {
            assert("--> "@[0] == skip_spaces(r).subrange(0, "--> "@.len() as int)[0]);
        }
    }
    assert(scan_lint(seq![r]) == lint_init());
}

/// Total number of grouped locations, over all rule groups.
pub open spec fn sum_locs(gs: Seq<RuleGroup>) -> nat
    decreases gs.len(),
{
    if gs.len() == 0 {
        0
    } else {
        gs[0].1.len() + sum_locs(gs.drop_first())
    }
}

/// Groups ordered by non-increasing location count.
pub open spec fn sorted_desc(gs: Seq<RuleGroup>) -> bool {
    forall|i: int, j: int| 0 <= i < j < gs.len() ==> (#[trigger] gs[i]).1.len() >= (#[trigger] gs[j]).1.len()
}

proof fn lemma_add_loc_sum(gs: Seq<RuleGroup>, rule: Seq<char>, loc: Seq<char>)
    ensures
        sum_locs(add_loc(gs, rule, loc)) == sum_locs(gs) + 1,
    decreases gs.len(),
{
    if gs.len() == 0 {
        let r = add_loc(gs, rule, loc);
        assert(r == seq![(rule, seq![loc])]);
        assert(r.len() == 1);
        assert(r[0] == (rule, seq![loc]));
        assert(r[0].1.len() == 1);
        assert(r.drop_first() =~= Seq::<RuleGroup>::empty());
        assert(sum_locs(r.drop_first()) == 0);
        assert(sum_locs(r) == 1);
        assert(sum_locs(gs) == 0);
    } else if gs[0].0 == rule {
        let r = add_loc(gs, rule, loc);
        assert(r.drop_first() =~= gs.drop_first());
        assert(r[0].1.len() == gs[0].1.len() + 1);
    } else {
        lemma_add_loc_sum(gs.drop_first(), rule, loc);
        let r = add_loc(gs, rule, loc);
        assert(r.drop_first() =~= add_loc(gs.drop_first(), rule, loc));
        assert(r[0] == gs[0]);
    }
}

proof fn lemma_insert_group_sum(g: RuleGroup, s: Seq<RuleGroup>)
    ensures
        sum_locs(insert_group(g, s)) == g.1.len() + sum_locs(s),
    decreases s.len(),
{
    let r = insert_group(g, s);
    if s.len() == 0 {
        assert(r == seq![g]);
        assert(r[0] == g);
        assert(r.drop_first() =~= Seq::<RuleGroup>::empty());
        assert(sum_locs(r.drop_first()) == 0);
        assert(sum_locs(s) == 0);
    } else if s[0].1.len() < g.1.len() {
        assert(r == seq![g] + s);
        assert(r[0] == g);
        assert(r.drop_first() =~= s);
    } else {
        lemma_insert_group_sum(g, s.drop_first());
        assert(r == seq![s[0]] + insert_group(g, s.drop_first()));
        assert(r.len() > 0);
        assert(r.drop_first() =~= insert_group(g, s.drop_first()));
        assert(r[0] == s[0]);
    }
}

proof fn lemma_sum_snoc(s: Seq<RuleGroup>, g: RuleGroup)
    ensures
        sum_locs(s.push(g)) == sum_locs(s) + g.1.len(),
    decreases s.len(),
{
    let r = s.push(g);
    if s.len() == 0 {
        assert(r[0] == g);
        assert(r.drop_first() =~= Seq::<RuleGroup>::empty());
        assert(sum_locs(r.drop_first()) == 0);
        assert(sum_locs(s) == 0);
    } else {
        lemma_sum_snoc(s.drop_first(), g);
        assert(r[0] == s[0]);
        assert(r.drop_first() =~= s.drop_first().push(g));
        assert(sum_locs(r.drop_first()) == sum_locs(s.drop_first()) + g.1.len());
    }
}

/// Sorting permutes the groups, so the total location count is unchanged.
pub proof fn lemma_sort_groups_sum(s: Seq<RuleGroup>)
    ensures
        sum_locs(sort_groups(s)) == sum_locs(s),
    decreases s.len(),
{
    if s.len() > 0 {
        lemma_sort_groups_sum(s.drop_last());
        lemma_insert_group_sum(s.last(), sort_groups(s.drop_last()));
        lemma_sum_snoc(s.drop_last(), s.last());
        assert(s.drop_last().push(s.last()) =~= s);
    }
}

proof fn lemma_insert_group_bound(g: RuleGroup, s: Seq<RuleGroup>, b: nat)
    requires
        g.1.len() <= b,
        forall|i: int| 0 <= i < s.len() ==> (#[trigger] s[i]).1.len() <= b,
    ensures
        forall|i: int|
            0 <= i < insert_group(g, s).len() ==> (#[trigger] insert_group(g, s)[i]).1.len() <= b,
    decreases s.len(),
{
    let r = insert_group(g, s);
    if s.len() == 0 {
    } else if s[0].1.len() < g.1.len() {
        assert forall|i: int| 0 <= i < r.len() implies (#[trigger] r[i]).1.len() <= b by {
            if i > 0 {
                assert(r[i] == s[i - 1]);
            }
        }
    } else {
        assert forall|i: int| 0 <= i < s.drop_first().len() implies (#[trigger] s.drop_first()[i]).1.len()
            <= b by {
            assert(s.drop_first()[i] == s[i + 1]);
        }
        lemma_insert_group_bound(g, s.drop_first(), b);
        let t = insert_group(g, s.drop_first());
        assert forall|i: int| 0 <= i < r.len() implies (#[trigger] r[i]).1.len() <= b by {
            if i > 0 {
                assert(r[i] == t[i - 1]);
            }
        }
    }
}

proof fn lemma_insert_group_sorted(g: RuleGroup, s: Seq<RuleGroup>)
    requires
        sorted_desc(s),
    ensures
        sorted_desc(insert_group(g, s)),
        insert_group(g, s).len() == s.len() + 1,
    decreases s.len(),
{
    let r = insert_group(g, s);
    if s.len() == 0 {
    } else if s[0].1.len() < g.1.len() {
        assert forall|i: int, j: int| 0 <= i < j < r.len() implies (#[trigger] r[i]).1.len()
            >= (#[trigger] r[j]).1.len() by {
            if i == 0 {
                assert(r[j] == s[j - 1]);
                if j > 1 {
                    assert(s[0].1.len() >= s[j - 1].1.len());
                }
            } else {
                assert(r[i] == s[i - 1] && r[j] == s[j - 1]);
            }
        }
    } else {
        lemma_insert_group_sorted(g, s.drop_first());
        let t = insert_group(g, s.drop_first());
        assert(r =~= seq![s[0]] + t);
        assert forall|i: int| 0 <= i < s.drop_first().len() implies (#[trigger] s.drop_first()[i]).1.len()
            <= s[0].1.len() by {
            assert(s.drop_first()[i] == s[i + 1]);
        }
        lemma_insert_group_bound(g, s.drop_first(), s[0].1.len());
        assert forall|i: int, j: int| 0 <= i < j < r.len() implies (#[trigger] r[i]).1.len()
            >= (#[trigger] r[j]).1.len() by {
            if i == 0 {
                assert(r[j] == t[j - 1]);
            } else {
                assert(r[i] == t[i - 1] && r[j] == t[j - 1]);
            }
        }
    }
}

/// The rendered group order is by non-increasing occurrence count.
pub proof fn lemma_sort_groups_sorted(s: Seq<RuleGroup>)
    ensures
        sorted_desc(sort_groups(s)),
    decreases s.len(),
{
    if s.len() > 0 {
        lemma_sort_groups_sorted(s.drop_last());
        lemma_insert_group_sorted(s.last(), sort_groups(s.drop_last()));
    }
}

/// The alternation automaton over raw lines: `ok` stays true while counted
/// markers (with a non-empty rule) and location lines strictly alternate,
/// starting with a marker; `open` records a marker still awaiting its line.
pub open spec fn alt_step(st: (bool, bool), l: Seq<char>) -> (bool, bool) {
    if lint_noise(l) {
        st
    } else if is_lint_marker(l) {
        if is_lint_summary(l) {
            st
        } else if st.1 || marker_rule(l).len() == 0 {
            (false, true)
        } else {
            (st.0, true)
        }
    } else if is_location_line(l) {
        if st.1 {
            (st.0, false)
        } else {
            (false, false)
        }
    } else {
        st
    }
}

pub open spec fn alt_scan(lines: Seq<Seq<char>>) -> (bool, bool)
    decreases lines.len(),
{
    if lines.len() == 0 {
        (true, false)
    } else {
        alt_step(alt_scan(lines.drop_last()), lines.last())
    }
}

/// Each counted marker is followed by exactly one location line.
pub open spec fn balanced_lint(lines: Seq<Seq<char>>) -> bool {
    alt_scan(lines).0 && !alt_scan(lines).1
}

proof fn lemma_lint_sum_aux(lines: Seq<Seq<char>>)
    ensures
        ({
            let st = scan_lint(lines);
            let a = alt_scan(lines);
            a.0 ==> {
                &&& st.errors + st.warnings == sum_locs(st.groups) + (if a.1 {
                    1nat
                } else {
                    0nat
                })
                &&& (a.1 ==> st.cur_rule.len() > 0)
            }
        }),
    decreases lines.len(),
{
    if lines.len() > 0 {
        lemma_lint_sum_aux(lines.drop_last());
        let st0 = scan_lint(lines.drop_last());
        let a0 = alt_scan(lines.drop_last());
        let l = lines.last();
        let a = alt_scan(lines);
        if a.0 {
            assert(a0.0);
            if !lint_noise(l) && !is_lint_marker(l) && is_location_line(l) && st0.cur_rule.len()
                > 0 {
                lemma_add_loc_sum(st0.groups, st0.cur_rule, location_of(l));
            }
        }
    }
}

/// For lint outputs whose counted markers and location lines strictly
/// alternate, the per-rule occurrence counts over all groups add up to
/// exactly the errors plus warnings stated in the header, and the rendered
/// group order is by non-increasing count. A marker that is followed by two
/// location lines, or by none, breaks the balance.
pub proof fn lemma_lint_counts_balance(lines: Seq<Seq<char>>)
    requires
        balanced_lint(lines),
    ensures
        sum_locs(sort_groups(scan_lint(lines).groups)) == scan_lint(lines).errors + scan_lint(
            lines,
        ).warnings,
        sorted_desc(sort_groups(scan_lint(lines).groups)),
{
    lemma_lint_sum_aux(lines);
    lemma_sort_groups_sum(scan_lint(lines).groups);
    lemma_sort_groups_sorted(scan_lint(lines).groups);
}

proof fn lemma_insert_group_at(g: RuleGroup, s: Seq<RuleGroup>, p: int)
    requires
        0 <= p <= s.len(),
        forall|k: int| 0 <= k < p ==> (#[trigger] s[k]).1.len() >= g.1.len(),
        p < s.len() ==> s[p].1.len() < g.1.len(),
    ensures
        insert_group(g, s) =~= s.take(p) + seq![g] + s.skip(p),
    decreases p,
{
    if p == 0 {
        if s.len() == 0 {
            assert(insert_group(g, s) =~= s.take(0) + seq![g] + s.skip(0));
        } else {
            assert(insert_group(g, s) =~= s.take(0) + seq![g] + s.skip(0));
        }
    } else {
        lemma_insert_group_at(g, s.drop_first(), p - 1);
        assert(seq![s[0]] + (s.drop_first().take(p - 1) + seq![g] + s.drop_first().skip(p - 1))
            =~= s.take(p) + seq![g] + s.skip(p));
    }
}

} // verus!
