//! Test-output compaction: build progress, "running N tests" banners and
//! individual passing-test lines are dropped; failure blocks inside a
//! `failures:` section and every `test result:` line are kept. The renderer
//! shows checked summary lines when everything passed, an enumerated and
//! truncated failure list otherwise, and falls back to the last few
//! meaningful raw lines when the input had no recognizable structure.

use crate::build_output::is_compiling_line;
use crate::build_output::is_progress_line;
use crate::build_output::sep_nl;
use crate::strutil::all_spaces;
use crate::strutil::dec_str;
use crate::strutil::dvs;
use crate::strutil::ends_with_str;
use crate::strutil::eq_str;
use crate::strutil::fmt_usize;
use crate::strutil::is_blank;
use crate::strutil::join_lines;
use crate::strutil::join_nl;
use crate::strutil::lemma_vec_deep_view;
use crate::strutil::spec_lines;
use crate::strutil::split_lines;
use crate::strutil::starts_with_str;
use crate::strutil::trim_str;
use crate::strutil::trim_start_str;
use crate::strutil::trimmed;
use crate::strutil::truncate_chars;
use crate::strutil::truncated;
use vstd::prelude::*;
use vstd::string::StringExecFns;

verus! {

broadcast use lemma_vec_deep_view;

/// Most failures a test summary enumerates before it overflows.
pub const MAX_TEST_FAILURES: usize = 10;

/// Character budget for one rendered failure body.
pub const FAILURE_DETAIL_BUDGET: usize = 200;

/// How many meaningful raw lines the fallback rendering keeps.
pub const FALLBACK_LINES: usize = 5;

/// Classification state after some prefix of the raw test output.
pub struct TestScan {
    pub failures: Seq<Seq<Seq<char>>>,
    pub summary: Seq<Seq<char>>,
    pub in_failures: bool,
    pub cur: Seq<Seq<char>>,
}

/// The "running N tests" banner.
pub open spec fn is_running_banner(l: Seq<char>) -> bool {
    "running "@.is_prefix_of(l)
}

/// An individual passing-test line.
pub open spec fn is_pass_line(l: Seq<char>) -> bool {
    "test "@.is_prefix_of(l) && "... ok"@.is_suffix_of(l)
}

/// The marker opening the failure-details section.
pub open spec fn is_failures_marker(l: Seq<char>) -> bool {
    l == "failures:"@
}

/// A `test result:` summary line.
pub open spec fn is_result_line(l: Seq<char>) -> bool {
    "test result:"@.is_prefix_of(l)
}

/// A line that belongs to the body of the failure being accumulated.
pub open spec fn is_detail_line(l: Seq<char>) -> bool {
    "    "@.is_prefix_of(l) || "---- "@.is_prefix_of(l)
}

pub open spec fn test_init() -> TestScan {
    TestScan { failures: Seq::empty(), summary: Seq::empty(), in_failures: false, cur: Seq::empty() }
}

/// One step of the test classifier: how a single raw line changes the state.
pub open spec fn test_step(st: TestScan, l: Seq<char>) -> TestScan {
    if is_compiling_line(l) || is_progress_line(l) {
        st
    } else if is_running_banner(l) || is_pass_line(l) {
        st
    } else if is_failures_marker(l) {
        TestScan { in_failures: true, ..st }
    } else if st.in_failures {
        if is_result_line(l) {
            TestScan { in_failures: false, summary: st.summary.push(l), ..st }
        } else if is_detail_line(l) {
            TestScan { cur: st.cur.push(l), ..st }
        } else if all_spaces(l) && st.cur.len() > 0 {
            TestScan { failures: st.failures.push(st.cur), cur: Seq::empty(), ..st }
        } else if !all_spaces(l) {
            TestScan { cur: st.cur.push(l), ..st }
        } else {
            st
        }
    } else if is_result_line(l) {
        TestScan { summary: st.summary.push(l), ..st }
    } else {
        st
    }
}

/// The classifier folded over a sequence of raw lines.
pub open spec fn scan_test(lines: Seq<Seq<char>>) -> TestScan
    decreases lines.len(),
{
    if lines.len() == 0 {
        test_init()
    } else {
        test_step(scan_test(lines.drop_last()), lines.last())
    }
}

/// The scan with the trailing open failure block flushed unconditionally.
pub open spec fn test_records(lines: Seq<Seq<char>>) -> TestScan {
    let st = scan_test(lines);
    if st.cur.len() > 0 {
        TestScan { failures: st.failures.push(st.cur), cur: Seq::empty(), ..st }
    } else {
        st
    }
}

/// The first `k` summary lines, each prefixed with a success marker.
pub open spec fn pass_block(summary: Seq<Seq<char>>, k: int) -> Seq<char>
    decreases k,
{
    if k <= 0 {
        Seq::empty()
    } else {
        pass_block(summary, k - 1) + "✓ "@ + summary[k - 1] + "\n"@
    }
}

/// The first `k` lines, each followed by a line break.
pub open spec fn lines_block(ls: Seq<Seq<char>>, k: int) -> Seq<char>
    decreases k,
{
    if k <= 0 {
        Seq::empty()
    } else {
        lines_block(ls, k - 1) + ls[k - 1] + "\n"@
    }
}

/// The first `k` failures, enumerated from one, each body joined from its
/// lines and cut to the detail budget.
pub open spec fn fail_items(failures: Seq<Seq<Seq<char>>>, k: int) -> Seq<char>
    decreases k,
{
    if k <= 0 {
        Seq::empty()
    } else {
        fail_items(failures, k - 1) + dec_str(k as nat) + ". "@ + truncated(
            join_nl(failures[k - 1]),
            FAILURE_DETAIL_BUDGET as nat,
        ) + "\n"@
    }
}

/// A raw line the fallback rendering keeps.
pub open spec fn fallback_keep(l: Seq<char>) -> bool {
    !all_spaces(l) && !is_compiling_line(l)
}

/// The raw lines the fallback rendering may draw from, in order.
pub open spec fn kept_fallback(lines: Seq<Seq<char>>) -> Seq<Seq<char>>
    decreases lines.len(),
{
    if lines.len() == 0 {
        Seq::empty()
    } else {
        kept_fallback(lines.drop_last()) + (if fallback_keep(lines.last()) {
            seq![lines.last()]
        } else {
            Seq::empty()
        })
    }
}

/// The rendered test summary for a finished scan of the given raw lines.
pub open spec fn render_test(st: TestScan, lines: Seq<Seq<char>>) -> Seq<char> {
    let f = st.failures.len() as int;
    let s = st.summary.len() as int;
    if f == 0 && s > 0 {
        trimmed(pass_block(st.summary, s))
    } else if f > 0 {
        let k = if f < MAX_TEST_FAILURES as int {
            f
        } else {
            MAX_TEST_FAILURES as int
        };
        trimmed(
            "FAILURES ("@ + dec_str(f as nat) + "):\n"@ + sep_nl() + fail_items(st.failures, k) + (
            if f > MAX_TEST_FAILURES as int {
                "\n... +"@ + dec_str((f - MAX_TEST_FAILURES) as nat) + " more failures\n"@
            } else {
                Seq::empty()
            }) + "\n"@ + lines_block(st.summary, s),
        )
    } else {
        let kl = kept_fallback(lines);
        let tail = kl.skip(
            if kl.len() > FALLBACK_LINES as int {
                kl.len() - FALLBACK_LINES as int
            } else {
                0
            },
        );
        trimmed(lines_block(tail, tail.len() as int))
    }
}

/// The whole pipeline on raw test output.
pub open spec fn spec_filter_test(s: Seq<char>) -> Seq<char> {
    render_test(test_records(spec_lines(s)), spec_lines(s))
}

/// Compacts raw `cargo test` output: failures and result summaries are kept,
/// progress and passing tests are dropped, garbled input degrades to the
/// last meaningful raw lines.
pub fn filter_cargo_test(output: &str) -> (r: String)
    ensures
        r@ == spec_filter_test(output@),
{
    let lines = split_lines(output);
    let ghost lseq = dvs(lines@);
    let n = lines.len();
    let mut failures: Vec<Vec<String>> = Vec::new();
    let mut summary: Vec<String> = Vec::new();
    let mut cur: Vec<String> = Vec::new();
    let mut in_failures = false;
    proof {
        assert(dvs(failures@) =~= Seq::<Seq<Seq<char>>>::empty());
        assert(dvs(summary@) =~= Seq::<Seq<char>>::empty());
        assert(dvs(cur@) =~= Seq::<Seq<char>>::empty());
        assert(lseq.take(0) =~= Seq::<Seq<char>>::empty());
    }
    let mut idx: usize = 0;
    while idx < n
        invariant
            n == lines@.len(),
            lseq == dvs(lines@),
            0 <= idx <= n,
            scan_test(lseq.take(idx as int)) == (TestScan {
                failures: dvs(failures@),
                summary: dvs(summary@),
                in_failures: in_failures,
                cur: dvs(cur@),
            }),
        decreases n - idx,
    {
        let ghost st0 = scan_test(lseq.take(idx as int));
        let lineref = &lines[idx];
        let line = lineref.as_str();
        proof {
            assert(line@ == lseq[idx as int]);
        }
        let tl = trim_start_str(line);
        if starts_with_str(tl, "Compiling") || starts_with_str(tl, "Downloading")
            || starts_with_str(tl, "Downloaded") || starts_with_str(tl, "Finished") {
        } else if starts_with_str(line, "running ") || (starts_with_str(line, "test ")
            && ends_with_str(line, "... ok")) {
        } else if eq_str(line, "failures:") {
            in_failures = true;
        } else if in_failures {
            if starts_with_str(line, "test result:") {
                in_failures = false;
                let ghost summary0 = summary@;
                summary.push(lineref.clone());
                proof {
                    assert(dvs(summary@) =~= dvs(summary0).push(line@));
                }
            } else if starts_with_str(line, "    ") || starts_with_str(line, "---- ") {
                let ghost cur0 = cur@;
                cur.push(lineref.clone());
                proof {
                    assert(dvs(cur@) =~= dvs(cur0).push(line@));
                }
            } else if is_blank(line) {
                if cur.len() > 0 {
                    let ghost failures0 = failures@;
                    let ghost curv = cur;
                    failures.push(cur);
                    cur = Vec::new();
                    proof {
                        assert(failures@ == failures0.push(curv));
                        assert(curv.deep_view() == dvs(curv@));
                        assert(dvs(failures@) =~= dvs(failures0).push(dvs(curv@)));
                        assert(dvs(cur@) =~= Seq::<Seq<char>>::empty());
                    }
                }
            } else {
                let ghost cur0 = cur@;
                cur.push(lineref.clone());
                proof {
                    assert(dvs(cur@) =~= dvs(cur0).push(line@));
                }
            }
        } else if starts_with_str(line, "test result:") {
            let ghost summary0 = summary@;
            summary.push(lineref.clone());
            proof {
                assert(dvs(summary@) =~= dvs(summary0).push(line@));
            }
        }
        proof {
            assert(lseq.take(idx + 1).drop_last() =~= lseq.take(idx as int));
            assert(lseq.take(idx + 1).last() == lseq[idx as int]);
            assert(scan_test(lseq.take(idx + 1)) == test_step(st0, lseq[idx as int]));
        }
        idx = idx + 1;
    }
    proof {
        assert(lseq.take(n as int) =~= lseq);
    }
    if cur.len() > 0 {
        let ghost failures0 = failures@;
        let ghost curv = cur;
        failures.push(cur);
        proof {
            assert(failures@ == failures0.push(curv));
            assert(curv.deep_view() == dvs(curv@));
            assert(dvs(failures@) =~= dvs(failures0).push(dvs(curv@)));
        }
    }
    let ghost st = test_records(lseq);
    proof {
        assert(st.failures == dvs(failures@));
        assert(st.summary == dvs(summary@));
    }
    let nf = failures.len();
    let ns = summary.len();
    if nf == 0 && ns > 0 {
        let mut r = String::new();
        let mut i: usize = 0;
        while i < ns
            invariant
                ns == summary@.len(),
                st.summary == dvs(summary@),
                0 <= i <= ns,
                r@ == pass_block(st.summary, i as int),
            decreases ns - i,
        {
            r.append("✓ ");
            r.append(summary[i].as_str());
            r.append("\n");
            proof {
                assert(r@ =~= pass_block(st.summary, i + 1));
            }
            i = i + 1;
        }
        let out = trim_str(r.as_str());
        proof {
            assert(out@ == render_test(st, lseq));
        }
        return out;
    }
    if nf > 0 {
        let mut r = String::from_str("FAILURES (");
        let d1 = fmt_usize(nf);
        r.append(d1.as_str());
        r.append("):\n");
        r.append("═══════════════════════════════════════\n");
        let ghost hdr = "FAILURES ("@ + dec_str(nf as nat) + "):\n"@ + sep_nl();
        proof {
            assert(r@ == hdr);
        }
        let k = if nf < MAX_TEST_FAILURES {
            nf
        } else {
            MAX_TEST_FAILURES
        };
        let mut i: usize = 0;
        while i < k
            invariant
                k <= nf,
                nf == failures@.len(),
                st.failures == dvs(failures@),
                0 <= i <= k,
                k <= MAX_TEST_FAILURES,
                r@ == hdr + fail_items(st.failures, i as int),
            decreases k - i,
        {
            let d = fmt_usize(i + 1);
            r.append(d.as_str());
            r.append(". ");
            let body = join_lines(&failures[i]);
            let cut = truncate_chars(body.as_str(), FAILURE_DETAIL_BUDGET);
            r.append(cut.as_str());
            r.append("\n");
            proof {
                assert(failures@[i as int].deep_view() == st.failures[i as int]);
                assert(r@ =~= hdr + fail_items(st.failures, i + 1));
            }
            i = i + 1;
        }
        if nf > MAX_TEST_FAILURES {
            r.append("\n... +");
            let d2 = fmt_usize(nf - MAX_TEST_FAILURES);
            r.append(d2.as_str());
            r.append(" more failures\n");
        }
        r.append("\n");
        let ghost mid = r@;
        proof {
            if nf > MAX_TEST_FAILURES {
                assert(mid =~= hdr + fail_items(st.failures, k as int) + ("\n... +"@ + dec_str(
                    (nf - MAX_TEST_FAILURES) as nat,
                ) + " more failures\n"@) + "\n"@);
            } else {
                assert(mid =~= hdr + fail_items(st.failures, k as int) + Seq::<char>::empty()
                    + "\n"@);
            }
        }
        let mut i: usize = 0;
        while i < ns
            invariant
                ns == summary@.len(),
                st.summary == dvs(summary@),
                0 <= i <= ns,
                r@ == mid + lines_block(st.summary, i as int),
            decreases ns - i,
        {
            r.append(summary[i].as_str());
            r.append("\n");
            proof {
                assert(r@ =~= mid + lines_block(st.summary, i + 1));
            }
            i = i + 1;
        }
        let out = trim_str(r.as_str());
        proof {
            assert(r@ =~= hdr + fail_items(st.failures, k as int) + (if nf > MAX_TEST_FAILURES {
                "\n... +"@ + dec_str((nf - MAX_TEST_FAILURES) as nat) + " more failures\n"@
            } else {
                Seq::<char>::empty()
            }) + "\n"@ + lines_block(st.summary, ns as int));
            assert(out@ == render_test(st, lseq));
        }
        return out;
    }
    // Unrecognized input: keep the last meaningful raw lines.
    let mut meaningful: Vec<String> = Vec::new();
    proof {
        assert(dvs(meaningful@) =~= kept_fallback(lseq.take(0)));
    }
    let mut i: usize = 0;
    while i < n
        invariant
            n == lines@.len(),
            lseq == dvs(lines@),
            0 <= i <= n,
            dvs(meaningful@) == kept_fallback(lseq.take(i as int)),
            meaningful@.len() <= i,
        decreases n - i,
    {
        let lineref = &lines[i];
        let line = lineref.as_str();
        proof {
            assert(line@ == lseq[i as int]);
        }
        let tl = trim_start_str(line);
        let keep = !is_blank(line) && !starts_with_str(tl, "Compiling");
        let ghost m0 = meaningful@;
        if keep {
            meaningful.push(lineref.clone());
        }
        proof {
            assert(lseq.take(i + 1).drop_last() =~= lseq.take(i as int));
            assert(lseq.take(i + 1).last() == lseq[i as int]);
            if keep {
                assert(dvs(meaningful@) =~= dvs(m0).push(line@));
                assert(kept_fallback(lseq.take(i + 1)) =~= kept_fallback(lseq.take(i as int)).push(
                    line@,
                ));
            } else {
                assert(kept_fallback(lseq.take(i + 1)) =~= kept_fallback(lseq.take(i as int)));
            }
        }
        i = i + 1;
    }
    proof {
        assert(lseq.take(n as int) =~= lseq);
    }
    let m = meaningful.len();
    let start = if m > FALLBACK_LINES {
        m - FALLBACK_LINES
    } else {
        0
    };
    let ghost kl = kept_fallback(lseq);
    let ghost tail = kl.skip(start as int);
    let mut r = String::new();
    let mut j: usize = start;
    while j < m
        invariant
            m == meaningful@.len(),
            kl == dvs(meaningful@),
            start <= j <= m,
            tail == kl.skip(start as int),
            r@ == lines_block(tail, j - start),
        decreases m - j,
    {
        r.append(meaningful[j].as_str());
        r.append("\n");
        proof {
            assert(tail[j - start] == kl[j as int]);
            assert(r@ =~= lines_block(tail, j + 1 - start));
        }
        j = j + 1;
    }
    let out = trim_str(r.as_str());
    proof {
        assert(tail.len() == m - start);
        assert(out@ == render_test(st, lseq));
    }
    out
}

proof fn lemma_scan_test_records(lines: Seq<Seq<char>>)
    ensures
        ({
            let st = scan_test(lines);
            &&& forall|k: int| 0 <= k < st.summary.len() ==> is_result_line(#[trigger] st.summary[k])
            &&& forall|b: int, j: int|
                0 <= b < st.failures.len() && 0 <= j < st.failures[b].len() ==> !is_pass_line(
                    #[trigger] st.failures[b][j],
                ) && !is_compiling_line(st.failures[b][j]) && !is_progress_line(st.failures[b][j])
                    && !is_running_banner(st.failures[b][j])
            &&& forall|j: int|
                0 <= j < st.cur.len() ==> !is_pass_line(#[trigger] st.cur[j]) && !is_compiling_line(
                    st.cur[j],
                ) && !is_progress_line(st.cur[j]) && !is_running_banner(st.cur[j])
        }),
    decreases lines.len(),
{
    if lines.len() > 0 {
        lemma_scan_test_records(lines.drop_last());
        let st0 = scan_test(lines.drop_last());
        let st = scan_test(lines);
        assert forall|b: int, j: int|
            0 <= b < st.failures.len() && 0 <= j < st.failures[b].len() implies !is_pass_line(
            #[trigger] st.failures[b][j],
        ) && !is_compiling_line(st.failures[b][j]) && !is_progress_line(st.failures[b][j])
            && !is_running_banner(st.failures[b][j]) by {
            if b < st0.failures.len() {
                assert(st.failures[b] == st0.failures[b]);
            } else {
                assert(st.failures[b] == st0.cur);
            }
        }
    }
}

/// Re-running the pipeline on a rendered summary finds no progress banners,
/// "running" banners or passing-test lines to fold: none of them is stored
/// in any failure record.
pub proof fn lemma_test_records_hold_no_banners(lines: Seq<Seq<char>>)
    ensures
        ({
            let st = test_records(lines);
            forall|b: int, j: int|
                0 <= b < st.failures.len() && 0 <= j < st.failures[b].len() ==> !is_pass_line(
                    #[trigger] st.failures[b][j],
                ) && !is_compiling_line(st.failures[b][j]) && !is_progress_line(st.failures[b][j])
                    && !is_running_banner(st.failures[b][j])
        }),
{
    lemma_scan_test_records(lines);
    let st0 = scan_test(lines);
    let st = test_records(lines);
    assert forall|b: int, j: int|
        0 <= b < st.failures.len() && 0 <= j < st.failures[b].len() implies !is_pass_line(
        #[trigger] st.failures[b][j],
    ) && !is_compiling_line(st.failures[b][j]) && !is_progress_line(st.failures[b][j])
        && !is_running_banner(st.failures[b][j]) by {
        if b < st0.failures.len() {
            assert(st.failures[b] == st0.failures[b]);
        } else {
            assert(st.failures[b] == st0.cur);
        }
    }
}

/// Test outputs with only passing tests render exactly the summary lines,
/// each prefixed with the success marker; every such line is a
/// `test result:` line, so no individual test name survives.
pub proof fn lemma_test_all_pass(lines: Seq<Seq<char>>)
    requires
        test_records(lines).failures.len() == 0,
        test_records(lines).summary.len() > 0,
    ensures
        render_test(test_records(lines), lines) == trimmed(
            pass_block(test_records(lines).summary, test_records(lines).summary.len() as int),
        ),
        forall|k: int|
            0 <= k < test_records(lines).summary.len() ==> is_result_line(
                #[trigger] test_records(lines).summary[k],
            ),
{
    lemma_scan_test_records(lines);
}

/// Test outputs with F > 0 failures render a header stating F, min(F, 10)
/// enumerated failure bodies each cut to the detail budget, an overflow note
/// naming F - 10 exactly when F > 10, and every summary line after them.
pub proof fn lemma_test_failures(lines: Seq<Seq<char>>)
    requires
        test_records(lines).failures.len() > 0,
    ensures
        ({
            let st = test_records(lines);
            let f = st.failures.len() as int;
            let s = st.summary.len() as int;
            let hdr = "FAILURES ("@ + dec_str(f as nat) + "):\n"@ + sep_nl();
            &&& f <= MAX_TEST_FAILURES ==> render_test(st, lines) == trimmed(
                hdr + fail_items(st.failures, f) + "\n"@ + lines_block(st.summary, s),
            )
            &&& f > MAX_TEST_FAILURES ==> render_test(st, lines) == trimmed(
                hdr + fail_items(st.failures, MAX_TEST_FAILURES as int) + ("\n... +"@ + dec_str(
                    (f - MAX_TEST_FAILURES) as nat,
                ) + " more failures\n"@) + "\n"@ + lines_block(st.summary, s),
            )
        }),
{
    let st = test_records(lines);
    let f = st.failures.len() as int;
    let s = st.summary.len() as int;
    let hdr = "FAILURES ("@ + dec_str(f as nat) + "):\n"@ + sep_nl();
    if f <= MAX_TEST_FAILURES {
        assert(hdr + fail_items(st.failures, f) + Seq::<char>::empty() + "\n"@ + lines_block(
            st.summary,
            s,
        ) =~= hdr + fail_items(st.failures, f) + "\n"@ + lines_block(st.summary, s));
    }
}

} // verus!
