//! Build-output compaction: per-unit "Compiling" lines are counted and
//! dropped, download and "Finished" banners are dropped, and error/warning
//! blocks are collected verbatim. The renderer emits either a one-line
//! success summary or a header with the counts followed by up to
//! `MAX_BUILD_ISSUES` blocks and an overflow note.

use crate::strutil::all_spaces;
use crate::strutil::contains_str;
use crate::strutil::dec_str;
use crate::strutil::dvs;
use crate::strutil::fmt_usize;
use crate::strutil::lemma_dec_str_digits;
use crate::strutil::has_sub;
use crate::strutil::is_blank;
use crate::strutil::join_lines;
use crate::strutil::join_nl;
use crate::strutil::lemma_vec_deep_view;
use crate::strutil::skip_spaces;
use crate::strutil::spec_lines;
use crate::strutil::split_lines;
use crate::strutil::starts_with_str;
use crate::strutil::trim_str;
use crate::strutil::trim_start_str;
use crate::strutil::trimmed;
use vstd::prelude::*;
use vstd::string::StringExecFns;

verus! {

broadcast use lemma_vec_deep_view;

/// Most issue blocks a build summary shows before it overflows.
pub const MAX_BUILD_ISSUES: usize = 15;

/// Classification state after some prefix of the raw build output:
/// counters, the closed issue blocks (each a sequence of verbatim lines)
/// and the block still being accumulated.
pub struct BuildScan {
    pub errors: nat,
    pub warnings: nat,
    pub compiled: nat,
    pub issues: Seq<Seq<Seq<char>>>,
    pub cur: Seq<Seq<char>>,
    pub in_issue: bool,
}

/// A per-unit compilation progress line.
pub open spec fn is_compiling_line(l: Seq<char>) -> bool {
    "Compiling"@.is_prefix_of(skip_spaces(l))
}

/// Download progress or a "Finished" banner.
pub open spec fn is_progress_line(l: Seq<char>) -> bool {
    ||| "Downloading"@.is_prefix_of(skip_spaces(l))
    ||| "Downloaded"@.is_prefix_of(skip_spaces(l))
    ||| "Finished"@.is_prefix_of(skip_spaces(l))
}

/// An error issue marker at the start of the line.
pub open spec fn is_error_marker(l: Seq<char>) -> bool {
    "error["@.is_prefix_of(l) || "error:"@.is_prefix_of(l)
}

/// A warning issue marker at the start of the line.
pub open spec fn is_warning_marker(l: Seq<char>) -> bool {
    "warning:"@.is_prefix_of(l) || "warning["@.is_prefix_of(l)
}

/// An aggregate abort/fail summary the engine recomputes itself.
pub open spec fn is_abort_summary(l: Seq<char>) -> bool {
    has_sub(l, "aborting due to"@) || has_sub(l, "could not compile"@)
}

/// The aggregate "`crate` generated N warnings" summary line.
pub open spec fn is_generated_summary(l: Seq<char>) -> bool {
    "warning:"@.is_prefix_of(l) && has_sub(l, "generated"@) && has_sub(l, "warning"@)
}

pub open spec fn build_init() -> BuildScan {
    BuildScan {
        errors: 0,
        warnings: 0,
        compiled: 0,
        issues: Seq::empty(),
        cur: Seq::empty(),
        in_issue: false,
    }
}

/// Closes the open block, if one has accumulated any lines.
pub open spec fn flush_open(st: BuildScan) -> BuildScan {
    if st.in_issue && st.cur.len() > 0 {
        BuildScan { issues: st.issues.push(st.cur), cur: Seq::empty(), ..st }
    } else {
        st
    }
}

/// One step of the build classifier: how a single raw line changes the state.
pub open spec fn build_step(st: BuildScan, l: Seq<char>) -> BuildScan {
    if is_compiling_line(l) {
        BuildScan { compiled: st.compiled + 1, ..st }
    } else if is_progress_line(l) {
        st
    } else if is_error_marker(l) {
        if is_abort_summary(l) {
            st
        } else {
            let f = flush_open(st);
            BuildScan { errors: f.errors + 1, in_issue: true, cur: f.cur.push(l), ..f }
        }
    } else if is_generated_summary(l) {
        st
    } else if is_warning_marker(l) {
        let f = flush_open(st);
        BuildScan { warnings: f.warnings + 1, in_issue: true, cur: f.cur.push(l), ..f }
    } else if st.in_issue {
        if all_spaces(l) && st.cur.len() > 3 {
            BuildScan { issues: st.issues.push(st.cur), cur: Seq::empty(), in_issue: false, ..st }
        } else {
            BuildScan { cur: st.cur.push(l), ..st }
        }
    } else {
        st
    }
}

/// The classifier folded over a sequence of raw lines.
pub open spec fn scan_build(lines: Seq<Seq<char>>) -> BuildScan
    decreases lines.len(),
{
    if lines.len() == 0 {
        build_init()
    } else {
        build_step(scan_build(lines.drop_last()), lines.last())
    }
}

/// The scan with the trailing open block flushed unconditionally.
pub open spec fn build_records(lines: Seq<Seq<char>>) -> BuildScan {
    let st = scan_build(lines);
    if st.cur.len() > 0 {
        BuildScan { issues: st.issues.push(st.cur), cur: Seq::empty(), ..st }
    } else {
        st
    }
}

/// The one-line success summary.
pub open spec fn build_success(compiled: nat) -> Seq<char> {
    "✓ cargo build ("@ + dec_str(compiled) + " crates compiled)"@
}

/// The separator under every multi-issue header.
pub open spec fn sep_nl() -> Seq<char> {
    "═══════════════════════════════════════\n"@
}

/// The header naming the error, warning and unit counts.
pub open spec fn build_header(st: BuildScan) -> Seq<char> {
    "cargo build: "@ + dec_str(st.errors) + " errors, "@ + dec_str(st.warnings) + " warnings ("@
        + dec_str(st.compiled) + " crates)\n"@ + sep_nl()
}

/// The first `k` issue blocks, each joined from its lines, separated by a
/// blank line except after the final block of the record sequence.
pub open spec fn build_blocks(issues: Seq<Seq<Seq<char>>>, k: int) -> Seq<char>
    decreases k,
{
    if k <= 0 {
        Seq::empty()
    } else {
        build_blocks(issues, k - 1) + join_nl(issues[k - 1]) + "\n"@ + (if k - 1 < issues.len()
            - 1 {
            "\n"@
        } else {
            Seq::empty()
        })
    }
}

/// The note appended when more issues exist than are rendered.
pub open spec fn build_overflow(hidden: nat) -> Seq<char> {
    "\n... +"@ + dec_str(hidden) + " more issues\n"@
}

/// The rendered build summary for a finished scan.
pub open spec fn render_build(st: BuildScan) -> Seq<char> {
    if st.errors == 0 && st.warnings == 0 {
        build_success(st.compiled)
    } else {
        let n = st.issues.len() as int;
        let k = if n < MAX_BUILD_ISSUES as int {
            n
        } else {
            MAX_BUILD_ISSUES as int
        };
        trimmed(
            build_header(st) + build_blocks(st.issues, k) + (if n > MAX_BUILD_ISSUES as int {
                build_overflow((n - MAX_BUILD_ISSUES) as nat)
            } else {
                Seq::empty()
            }),
        )
    }
}

/// The whole pipeline on raw build output.
pub open spec fn spec_filter_build(s: Seq<char>) -> Seq<char> {
    render_build(build_records(spec_lines(s)))
}

/// Compacts raw `cargo build` output: progress noise is dropped and counted,
/// issue blocks are kept verbatim under a counting header.
pub fn filter_cargo_build(output: &str) -> (r: String)
    ensures
        r@ == spec_filter_build(output@),
{
    let lines = split_lines(output);
    let ghost lseq = dvs(lines@);
    let n = lines.len();
    let mut errors: usize = 0;
    let mut warnings: usize = 0;
    let mut compiled: usize = 0;
    let mut issues: Vec<Vec<String>> = Vec::new();
    let mut cur: Vec<String> = Vec::new();
    let mut in_issue = false;
    proof {
        assert(dvs(issues@) =~= Seq::<Seq<Seq<char>>>::empty());
        assert(dvs(cur@) =~= Seq::<Seq<char>>::empty());
        assert(lseq.take(0) =~= Seq::<Seq<char>>::empty());
    }
    let mut idx: usize = 0;
    while idx < n
        invariant
            n == lines@.len(),
            lseq == dvs(lines@),
            0 <= idx <= n,
            errors <= idx,
            warnings <= idx,
            compiled <= idx,
            scan_build(lseq.take(idx as int)) == (BuildScan {
                errors: errors as nat,
                warnings: warnings as nat,
                compiled: compiled as nat,
                issues: dvs(issues@),
                cur: dvs(cur@),
                in_issue: in_issue,
            }),
        decreases n - idx,
    {
        let ghost st0 = scan_build(lseq.take(idx as int));
        let lineref = &lines[idx];
        let line = lineref.as_str();
        proof {
            assert(line@ == lseq[idx as int]);
        }
        let tl = trim_start_str(line);
        if starts_with_str(tl, "Compiling") {
            compiled = compiled + 1;
        } else if starts_with_str(tl, "Downloading") || starts_with_str(tl, "Downloaded")
            || starts_with_str(tl, "Finished") {
        } else if starts_with_str(line, "error[") || starts_with_str(line, "error:") {
            if contains_str(line, "aborting due to") || contains_str(line, "could not compile") {
            } else {
                if in_issue && cur.len() > 0 {
                    let ghost issues0 = issues@;
                    let ghost curv = cur;
                    issues.push(cur);
                    cur = Vec::new();
                    proof {
                        assert(issues@ == issues0.push(curv));
                        assert(curv.deep_view() == dvs(curv@));
                        assert(dvs(issues@) =~= dvs(issues0).push(dvs(curv@)));
                        assert(dvs(cur@) =~= Seq::<Seq<char>>::empty());
                    }
                }
                errors = errors + 1;
                in_issue = true;
                let ghost cur1 = cur@;
                cur.push(lineref.clone());
                proof {
                    assert(dvs(cur@) =~= dvs(cur1).push(line@));
                }
            }
        } else if starts_with_str(line, "warning:") && contains_str(line, "generated")
            && contains_str(line, "warning") {
        } else if starts_with_str(line, "warning:") || starts_with_str(line, "warning[") {
            if in_issue && cur.len() > 0 {
                let ghost issues0 = issues@;
                let ghost curv = cur;
                issues.push(cur);
                cur = Vec::new();
                proof {
                    assert(issues@ == issues0.push(curv));
                    assert(curv.deep_view() == dvs(curv@));
                    assert(dvs(issues@) =~= dvs(issues0).push(dvs(curv@)));
                    assert(dvs(cur@) =~= Seq::<Seq<char>>::empty());
                }
            }
            warnings = warnings + 1;
            in_issue = true;
            let ghost cur1 = cur@;
            cur.push(lineref.clone());
            proof {
                assert(dvs(cur@) =~= dvs(cur1).push(line@));
            }
        } else if in_issue {
            if is_blank(line) && cur.len() > 3 {
                let ghost issues0 = issues@;
                let ghost curv = cur;
                issues.push(cur);
                cur = Vec::new();
                in_issue = false;
                proof {
                    assert(issues@ == issues0.push(curv));
                    assert(curv.deep_view() == dvs(curv@));
                    assert(dvs(issues@) =~= dvs(issues0).push(dvs(curv@)));
                    assert(dvs(cur@) =~= Seq::<Seq<char>>::empty());
                }
            } else {
                let ghost cur0 = cur@;
                cur.push(lineref.clone());
                proof {
                    assert(dvs(cur@) =~= dvs(cur0).push(line@));
                }
            }
        }
        proof {
            assert(lseq.take(idx + 1).drop_last() =~= lseq.take(idx as int));
            assert(lseq.take(idx + 1).last() == lseq[idx as int]);
            assert(scan_build(lseq.take(idx + 1)) == build_step(st0, lseq[idx as int]));
        }
        idx = idx + 1;
    }
    proof {
        assert(lseq.take(n as int) =~= lseq);
    }
    if cur.len() > 0 {
        let ghost issues0 = issues@;
        let ghost curv = cur;
        issues.push(cur);
        proof {
            assert(issues@ == issues0.push(curv));
            assert(curv.deep_view() == dvs(curv@));
            assert(dvs(issues@) =~= dvs(issues0).push(dvs(curv@)));
        }
    }
    let ghost st = build_records(lseq);
    proof {
        assert(st.errors == errors as nat);
        assert(st.warnings == warnings as nat);
        assert(st.compiled == compiled as nat);
        assert(st.issues == dvs(issues@));
    }
    if errors == 0 && warnings == 0 {
        let mut r = String::from_str("✓ cargo build (");
        let d = fmt_usize(compiled);
        r.append(d.as_str());
        r.append(" crates compiled)");
        proof {
            assert(r@ == render_build(st));
        }
        return r;
    }
    let mut r = String::from_str("cargo build: ");
    let d1 = fmt_usize(errors);
    r.append(d1.as_str());
    r.append(" errors, ");
    let d2 = fmt_usize(warnings);
    r.append(d2.as_str());
    r.append(" warnings (");
    let d3 = fmt_usize(compiled);
    r.append(d3.as_str());
    r.append(" crates)\n");
    r.append("═══════════════════════════════════════\n");
    proof {
        assert(r@ == build_header(st));
    }
    let total = issues.len();
    let k = if total < MAX_BUILD_ISSUES {
        total
    } else {
        MAX_BUILD_ISSUES
    };
    let ghost idv = st.issues;
    let mut i: usize = 0;
    while i < k
        invariant
            k <= total,
            total == issues@.len(),
            idv == dvs(issues@),
            0 <= i <= k,
            r@ == build_header(st) + build_blocks(idv, i as int),
        decreases k - i,
    {
        let block = join_lines(&issues[i]);
        r.append(block.as_str());
        r.append("\n");
        if i < total - 1 {
            r.append("\n");
        }
        proof {
            assert(issues@[i as int].deep_view() == idv[i as int]);
            assert(r@ =~= build_header(st) + build_blocks(idv, i + 1));
        }
        i = i + 1;
    }
    if total > MAX_BUILD_ISSUES {
        r.append("\n... +");
        let d4 = fmt_usize(total - MAX_BUILD_ISSUES);
        r.append(d4.as_str());
        r.append(" more issues\n");
        proof {
            assert(r@ =~= build_header(st) + build_blocks(idv, k as int) + build_overflow(
                (total - MAX_BUILD_ISSUES) as nat,
            ));
        }
    } else {
        proof {
            assert(r@ =~= build_header(st) + build_blocks(idv, k as int) + Seq::<char>::empty());
        }
    }
    let out = trim_str(r.as_str());
    proof {
        assert(out@ == render_build(st));
    }
    out
}

/// A scan never stores an open-block marker without lines, and as soon as any
/// block exists at least one error or warning was counted.
proof fn lemma_scan_build_counts(lines: Seq<Seq<char>>)
    ensures
        scan_build(lines).in_issue ==> scan_build(lines).cur.len() > 0,
        scan_build(lines).issues.len() > 0 || scan_build(lines).cur.len() > 0
            ==> scan_build(lines).errors + scan_build(lines).warnings > 0,
    decreases lines.len(),
{
    if lines.len() > 0 {
        lemma_scan_build_counts(lines.drop_last());
    }
}

/// Build outputs with zero counted issue markers render as exactly one
/// success line that carries the compiled-unit count and holds no line break.
pub proof fn lemma_build_success_line(lines: Seq<Seq<char>>)
    requires
        build_records(lines).errors == 0,
        build_records(lines).warnings == 0,
    ensures
        render_build(build_records(lines)) == build_success(build_records(lines).compiled),
        forall|i: int|
            0 <= i < render_build(build_records(lines)).len() ==> #[trigger] render_build(
                build_records(lines),
            )[i] != '\n',
{
    let st = build_records(lines);
    let a = "✓ cargo build ("@;
    let d = dec_str(st.compiled);
    let b = " crates compiled)"@;
    lemma_dec_str_digits(st.compiled);
    reveal_strlit("✓ cargo build (");
    reveal_strlit(" crates compiled)");
    assert forall|i: int| 0 <= i < build_success(st.compiled).len() implies #[trigger] build_success(
        st.compiled,
    )[i] != '\n' by {
        if i < a.len() {
            assert(build_success(st.compiled)[i] == a[i]);
        } else if i < a.len() + d.len() {
            assert(build_success(st.compiled)[i] == d[i - a.len()]);
        } else {
            assert(build_success(st.compiled)[i] == b[i - a.len() - d.len()]);
        }
    }
}

/// Build outputs with N > 0 issue blocks render min(N, 15) of them after the
/// counting header, with an overflow note naming N - 15 exactly when N > 15.
pub proof fn lemma_build_block_budget(lines: Seq<Seq<char>>)
    requires
        build_records(lines).issues.len() > 0,
    ensures
        ({
            let st = build_records(lines);
            let n = st.issues.len() as int;
            &&& st.errors + st.warnings > 0
            &&& n <= MAX_BUILD_ISSUES ==> render_build(st) == trimmed(
                build_header(st) + build_blocks(st.issues, n),
            )
            &&& n > MAX_BUILD_ISSUES ==> render_build(st) == trimmed(
                build_header(st) + build_blocks(st.issues, MAX_BUILD_ISSUES as int)
                    + build_overflow((n - MAX_BUILD_ISSUES) as nat),
            )
        }),
{
    let st = build_records(lines);
    let n = st.issues.len() as int;
    lemma_scan_build_counts(lines);
    if n <= MAX_BUILD_ISSUES {
        assert(build_header(st) + build_blocks(st.issues, n) + Seq::<char>::empty() =~= build_header(
            st,
        ) + build_blocks(st.issues, n));
    }
}

/// Re-running the whole build pipeline on a success summary classifies
/// nothing: the rendered line is no banner and no issue marker, so a second
/// scan counts no units, no errors, no warnings and no blocks.
pub proof fn lemma_build_success_render_inert(lines: Seq<Seq<char>>)
    requires
        build_records(lines).errors == 0,
        build_records(lines).warnings == 0,
    ensures
        ({
            let again = build_records(spec_lines(render_build(build_records(lines))));
            &&& again.errors == 0
            &&& again.warnings == 0
            &&& again.compiled == 0
            &&& again.issues.len() == 0
        }),
{
    lemma_build_success_line(lines);
    let st = build_records(lines);
    let r = render_build(st);
    let a = "✓ cargo build ("@;
    reveal_strlit("✓ cargo build (");
    assert(r[0] == a[0]);
    assert(forall|i: int| 0 <= i < r.len() ==> r[i] != '\n');
    crate::strutil::lemma_first_nl_at(r, r.len() as int);
    assert(spec_lines(r) =~= seq![r]);
    assert(seq![r].drop_last() =~= Seq::<Seq<char>>::empty());
    assert(seq![r].last() == r);
    assert(scan_build(Seq::<Seq<char>>::empty()) == build_init());
    assert(scan_build(seq![r].drop_last()) == build_init());
    assert(scan_build(seq![r]) == build_step(build_init(), r));
    assert(skip_spaces(r) == r);
    reveal_strlit("Compiling");
    reveal_strlit("Downloading");
    reveal_strlit("Downloaded");
    reveal_strlit("Finished");
    reveal_strlit("error[");
    reveal_strlit("error:");
    reveal_strlit("warning:");
    reveal_strlit("warning[");
    assert(!is_compiling_line(r)) by {
        if "Compiling"@.is_prefix_of(r) {
            assert("Compiling"@[0] == skip_spaces(r).subrange(0, "Compiling"@.len() as int)[0]);
        }
    }
    assert(!is_progress_line(r)) by {
        if "Downloading"@.is_prefix_of(skip_spaces(r)) {
            assert("Downloading"@[0] == skip_spaces(r).subrange(0, "Downloading"@.len() as int)[0]);
        }
        if "Downloaded"@.is_prefix_of(skip_spaces(r)) {
            assert("Downloaded"@[0] == skip_spaces(r).subrange(0, "Downloaded"@.len() as int)[0]);
        }
        if "Finished"@.is_prefix_of(skip_spaces(r)) {
            assert("Finished"@[0] == skip_spaces(r).subrange(0, "Finished"@.len() as int)[0]);
        }
    }
    assert(!is_error_marker(r)) by {
        if "error["@.is_prefix_of(r) {
            assert("error["@[0] == r.subrange(0, "error["@.len() as int)[0]);
        }
        if "error:"@.is_prefix_of(r) {
            assert("error:"@[0] == r.subrange(0, "error:"@.len() as int)[0]);
        }
    }
    assert(!is_warning_marker(r) && !is_generated_summary(r)) by {
        if "warning:"@.is_prefix_of(r) {
            assert("warning:"@[0] == r.subrange(0, "warning:"@.len() as int)[0]);
        }
        if "warning["@.is_prefix_of(r) {
            assert("warning["@[0] == r.subrange(0, "warning["@.len() as int)[0]);
        }
    }
    assert(scan_build(seq![r]) == build_init());
}

/// Re-running the pipeline on a rendered summary finds no progress banners
/// to fold: no line stored in any issue record is a compiling, download or
/// "Finished" line.
pub proof fn lemma_build_records_hold_no_banners(lines: Seq<Seq<char>>)
    ensures
        ({
            let st = build_records(lines);
            forall|b: int, j: int|
                0 <= b < st.issues.len() && 0 <= j < st.issues[b].len()
                    ==> !is_compiling_line(#[trigger] st.issues[b][j]) && !is_progress_line(
                    st.issues[b][j],
                )
        }),
{
    lemma_scan_build_no_banners(lines);
}

proof fn lemma_scan_build_no_banners(lines: Seq<Seq<char>>)
    ensures
        ({
            let st = scan_build(lines);
            &&& forall|b: int, j: int|
                0 <= b < st.issues.len() && 0 <= j < st.issues[b].len()
                    ==> !is_compiling_line(#[trigger] st.issues[b][j]) && !is_progress_line(
                    st.issues[b][j],
                )
            &&& forall|j: int|
                0 <= j < st.cur.len() ==> !is_compiling_line(#[trigger] st.cur[j])
                    && !is_progress_line(st.cur[j])
        }),
    decreases lines.len(),
{
    if lines.len() > 0 {
        lemma_scan_build_no_banners(lines.drop_last());
        let st0 = scan_build(lines.drop_last());
        let l = lines.last();
        let st = scan_build(lines);
        assert forall|b: int, j: int|
            0 <= b < st.issues.len() && 0 <= j < st.issues[b].len() implies !is_compiling_line(
            #[trigger] st.issues[b][j],
        ) && !is_progress_line(st.issues[b][j]) by {
            if b < st0.issues.len() {
                assert(st.issues[b] == st0.issues[b]);
            } else {
                assert(st.issues[b] == st0.cur);
            }
        }
    }
}

} // verus!
