//! Directory-listing compaction: the "total N" header is always dropped;
//! unless the caller asked for everything, entries whose trailing name is on
//! a noise denylist (version control, dependency caches, build output,
//! editor metadata) are dropped too. Remaining lines are kept verbatim and
//! followed by a summary of file and directory counts and the most frequent
//! file extensions. The denylist is a value handed to the filter, so callers
//! can override the default set.

use crate::strutil::dec_str;
use crate::strutil::dvs;
use crate::strutil::ends_with_str;
use crate::strutil::fmt_usize;
use crate::strutil::has_sub;
use crate::strutil::join_lines;
use crate::strutil::join_nl;
use crate::strutil::last_idx;
use crate::strutil::lemma_vec_deep_view;
use crate::strutil::rfind_char;
use crate::strutil::spec_lines;
use crate::strutil::spec_words;
use crate::strutil::split_lines;
use crate::strutil::split_words;
use crate::strutil::starts_with_str;
use crate::strutil::trim_str;
use crate::strutil::trimmed;
use crate::strutil::contains_str;
use crate::strutil::eq_str;
use vstd::prelude::*;
use vstd::string::StrSliceExecFns;
use vstd::string::StringExecFns;

verus! {

broadcast use lemma_vec_deep_view;

/// Most extension buckets the summary names before it overflows.
pub const MAX_EXTENSIONS: usize = 5;

/// The default denylist of noise entry names.
pub open spec fn noise_names() -> Seq<Seq<char>> {
    seq![
        "node_modules"@,
        ".git"@,
        "target"@,
        "__pycache__"@,
        ".next"@,
        "dist"@,
        "build"@,
        ".cache"@,
        ".turbo"@,
        ".vercel"@,
        ".pytest_cache"@,
        ".mypy_cache"@,
        ".tox"@,
        ".venv"@,
        "venv"@,
        "env"@,
        ".env"@,
        "coverage"@,
        ".nyc_output"@,
        ".DS_Store"@,
        "Thumbs.db"@,
        ".idea"@,
        ".vscode"@,
        ".vs"@,
        "*.egg-info"@,
        ".eggs"@,
    ]
}

/// The default denylist as owned strings, for handing to the filter.
pub fn default_noise_names() -> (r: Vec<String>)
    ensures
        dvs(r@) == noise_names(),
{
    let mut r: Vec<String> = Vec::new();
    r.push(String::from_str("node_modules"));
    r.push(String::from_str(".git"));
    r.push(String::from_str("target"));
    r.push(String::from_str("__pycache__"));
    r.push(String::from_str(".next"));
    r.push(String::from_str("dist"));
    r.push(String::from_str("build"));
    r.push(String::from_str(".cache"));
    r.push(String::from_str(".turbo"));
    r.push(String::from_str(".vercel"));
    r.push(String::from_str(".pytest_cache"));
    r.push(String::from_str(".mypy_cache"));
    r.push(String::from_str(".tox"));
    r.push(String::from_str(".venv"));
    r.push(String::from_str("venv"));
    r.push(String::from_str("env"));
    r.push(String::from_str(".env"));
    r.push(String::from_str("coverage"));
    r.push(String::from_str(".nyc_output"));
    r.push(String::from_str(".DS_Store"));
    r.push(String::from_str("Thumbs.db"));
    r.push(String::from_str(".idea"));
    r.push(String::from_str(".vscode"));
    r.push(String::from_str(".vs"));
    r.push(String::from_str("*.egg-info"));
    r.push(String::from_str(".eggs"));
    proof {
        assert(dvs(r@) =~= noise_names());
    }
    r
}

/// Whether one noise name matches the line: the trimmed line ends in the
/// name, or holds it after a space.
pub open spec fn matches_noise(l: Seq<char>, noise: Seq<char>) -> bool {
    noise.is_suffix_of(trimmed(l)) || has_sub(trimmed(l), " "@ + noise)
}

/// Whether any name of the denylist matches the line.
pub open spec fn is_noise_entry(l: Seq<char>, noise: Seq<Seq<char>>) -> bool {
    exists|k: int| 0 <= k < noise.len() && #[trigger] matches_noise(l, noise[k])
}

/// Whether a raw listing line survives the filter.
pub open spec fn ls_keep(l: Seq<char>, show_all: bool, noise: Seq<Seq<char>>) -> bool {
    &&& !"total "@.is_prefix_of(l)
    &&& (show_all || !is_noise_entry(l, noise))
}

/// The surviving listing lines, in order.
pub open spec fn ls_kept(lines: Seq<Seq<char>>, show_all: bool, noise: Seq<Seq<char>>) -> Seq<
    Seq<char>,
>
    decreases lines.len(),
{
    if lines.len() == 0 {
        Seq::empty()
    } else {
        ls_kept(lines.drop_last(), show_all, noise) + (if ls_keep(lines.last(), show_all, noise) {
            seq![lines.last()]
        } else {
            Seq::empty()
        })
    }
}

fn noise_entry_exec(line: &str, noise: &Vec<String>) -> (r: bool)
    ensures
        r == is_noise_entry(line@, dvs(noise@)),
{
    let t = trim_str(line);
    let n = noise.len();
    let mut k: usize = 0;
    while k < n
        invariant
            t@ == trimmed(line@),
            n == noise@.len(),
            0 <= k <= n,
            forall|m: int| 0 <= m < k ==> !matches_noise(line@, dvs(noise@)[m]),
        decreases n - k,
    {
        let nk = &noise[k];
        let mut pat = String::from_str(" ");
        pat.append(nk.as_str());
        proof {
            assert(dvs(noise@)[k as int] == nk@);
        }
        if ends_with_str(t.as_str(), nk.as_str()) || contains_str(t.as_str(), pat.as_str()) {
            proof {
                assert(matches_noise(line@, dvs(noise@)[k as int]));
            }
            return true;
        }
        k = k + 1;
    }
    proof {
        assert(!is_noise_entry(line@, dvs(noise@)));
    }
    false
}

// ---------------------------------------------------------------------------
// The per-extension summary
// ---------------------------------------------------------------------------

/// One extension bucket: the extension text and its occurrence count.
pub type ExtCount = (Seq<char>, nat);

/// Summary state: file and directory counts and the extension buckets in
/// first-seen order.
pub struct ListingSummary {
    pub files: nat,
    pub dirs: nat,
    pub exts: Seq<ExtCount>,
}

/// The words of `v` from index 8 on, joined with single spaces: the file
/// name of a long-listing line, spaces collapsed.
pub open spec fn join_sp(v: Seq<Seq<char>>) -> Seq<char>
    decreases v.len(),
{
    if v.len() == 0 {
        Seq::empty()
    } else if v.len() == 1 {
        v[0]
    } else {
        join_sp(v.drop_last()) + " "@ + v.last()
    }
}

/// The extension bucket a file name falls into: from its last dot to the
/// end, or the no-extension bucket.
pub open spec fn ext_of(fname: Seq<char>) -> Seq<char> {
    let d = last_idx(fname, '.');
    if d >= 0 {
        fname.skip(d)
    } else {
        "no ext"@
    }
}

/// Raises the count of `e` by one, keeping first-seen bucket order.
pub open spec fn bump_ext(exts: Seq<ExtCount>, e: Seq<char>) -> Seq<ExtCount>
    decreases exts.len(),
{
    if exts.len() == 0 {
        seq![(e, 1nat)]
    } else if exts[0].0 == e {
        seq![(e, (exts[0].1 + 1) as nat)] + exts.drop_first()
    } else {
        seq![exts[0]] + bump_ext(exts.drop_first(), e)
    }
}

pub open spec fn summary_init() -> ListingSummary {
    ListingSummary { files: 0, dirs: 0, exts: Seq::empty() }
}

/// How one kept listing line changes the summary: the first character of
/// the type field tells directories from regular files; anything else is
/// neither counted nor bucketed.
pub open spec fn summary_step(st: ListingSummary, l: Seq<char>) -> ListingSummary {
    let ws = spec_words(l);
    if ws.len() == 0 {
        st
    } else if ws[0].len() > 0 && ws[0][0] == 'd' {
        ListingSummary { dirs: st.dirs + 1, ..st }
    } else if !(ws[0].len() > 0 && ws[0][0] == '-') {
        st
    } else if ws.len() < 9 {
        st
    } else {
        let e = ext_of(join_sp(ws.skip(8)));
        ListingSummary { files: st.files + 1, exts: bump_ext(st.exts, e), ..st }
    }
}

/// The summary folded over the kept lines.
pub open spec fn scan_summary(lines: Seq<Seq<char>>) -> ListingSummary
    decreases lines.len(),
{
    if lines.len() == 0 {
        summary_init()
    } else {
        summary_step(scan_summary(lines.drop_last()), lines.last())
    }
}

/// Inserts a bucket before the first one with a strictly smaller count.
pub open spec fn insert_ext(g: ExtCount, s: Seq<ExtCount>) -> Seq<ExtCount>
    decreases s.len(),
{
    if s.len() == 0 {
        seq![g]
    } else if s[0].1 < g.1 {
        seq![g] + s
    } else {
        seq![s[0]] + insert_ext(g, s.drop_first())
    }
}

/// Stable insertion sort of the buckets by non-increasing count.
pub open spec fn sort_exts(s: Seq<ExtCount>) -> Seq<ExtCount>
    decreases s.len(),
{
    if s.len() == 0 {
        Seq::empty()
    } else {
        insert_ext(s.last(), sort_exts(s.drop_last()))
    }
}

/// The first `k` buckets written as "count ext", comma-separated.
pub open spec fn ext_list(exts: Seq<ExtCount>, k: int) -> Seq<char>
    decreases k,
{
    if k <= 0 {
        Seq::empty()
    } else {
        ext_list(exts, k - 1) + (if k > 1 {
            ", "@
        } else {
            Seq::empty()
        }) + dec_str(exts[k - 1].1) + " "@ + exts[k - 1].0
    }
}

/// The rendered summary line, empty when nothing was counted.
pub open spec fn render_summary(st: ListingSummary) -> Seq<char> {
    if st.files == 0 && st.dirs == 0 {
        Seq::empty()
    } else {
        let sorted = sort_exts(st.exts);
        let n = sorted.len() as int;
        let k = if n < MAX_EXTENSIONS as int {
            n
        } else {
            MAX_EXTENSIONS as int
        };
        "📊 "@ + dec_str(st.files) + " files"@ + (if st.dirs > 0 {
            ", "@ + dec_str(st.dirs) + " dirs"@
        } else {
            Seq::empty()
        }) + (if n > 0 {
            " ("@ + ext_list(sorted, k) + (if n > MAX_EXTENSIONS as int {
                ", +"@ + dec_str((n - MAX_EXTENSIONS) as nat) + " more"@
            } else {
                Seq::empty()
            }) + ")"@
        } else {
            Seq::empty()
        })
    }
}

/// View of an executable bucket list.
pub open spec fn evs(s: Seq<(String, usize)>) -> Seq<ExtCount> {
    Seq::new(s.len(), |i: int| (s[i].0@, s[i].1 as nat))
}

proof fn lemma_bump_ext_found(exts: Seq<ExtCount>, e: Seq<char>, j: int)
    requires
        0 <= j < exts.len(),
        exts[j].0 == e,
        forall|k: int| 0 <= k < j ==> (#[trigger] exts[k]).0 != e,
    ensures
        bump_ext(exts, e) =~= exts.update(j, (e, (exts[j].1 + 1) as nat)),
    decreases j,
{
    if j == 0 {
        assert(seq![(e, (exts[0].1 + 1) as nat)] + exts.drop_first() =~= exts.update(
            0,
            (e, (exts[0].1 + 1) as nat),
        ));
    } else {
        assert(exts[0].0 != e);
        lemma_bump_ext_found(exts.drop_first(), e, j - 1);
        assert(exts.drop_first()[j - 1] == exts[j]);
        assert(seq![exts[0]] + exts.drop_first().update(j - 1, (e, (exts[j].1 + 1) as nat))
            =~= exts.update(j, (e, (exts[j].1 + 1) as nat)));
    }
}

proof fn lemma_bump_ext_new(exts: Seq<ExtCount>, e: Seq<char>)
    requires
        forall|k: int| 0 <= k < exts.len() ==> (#[trigger] exts[k]).0 != e,
    ensures
        bump_ext(exts, e) =~= exts.push((e, 1nat)),
    decreases exts.len(),
{
    if exts.len() > 0 {
        lemma_bump_ext_new(exts.drop_first(), e);
        assert(seq![exts[0]] + exts.drop_first().push((e, 1nat)) =~= exts.push((e, 1nat)));
    }
}

proof fn lemma_insert_ext_at(g: ExtCount, s: Seq<ExtCount>, p: int)
    requires
        0 <= p <= s.len(),
        forall|k: int| 0 <= k < p ==> (#[trigger] s[k]).1 >= g.1,
        p < s.len() ==> s[p].1 < g.1,
    ensures
        insert_ext(g, s) =~= s.take(p) + seq![g] + s.skip(p),
    decreases p,
{
    if p == 0 {
        assert(insert_ext(g, s) =~= s.take(0) + seq![g] + s.skip(0));
    } else {
        lemma_insert_ext_at(g, s.drop_first(), p - 1);
        assert(seq![s[0]] + (s.drop_first().take(p - 1) + seq![g] + s.drop_first().skip(p - 1))
            =~= s.take(p) + seq![g] + s.skip(p));
    }
}

/// The file name of one long-listing line: everything from the ninth word
/// on, joined with single spaces.
fn joined_name(ws: &Vec<String>) -> (r: String)
    requires
        ws@.len() >= 9,
    ensures
        r@ == join_sp(dvs(ws@).skip(8)),
{
    let ghost tail = dvs(ws@).skip(8);
    let mut r = String::new();
    let n = ws.len();
    let mut j: usize = 8;
    while j < n
        invariant
            9 <= n == ws@.len(),
            tail == dvs(ws@).skip(8),
            8 <= j <= n,
            r@ == join_sp(tail.take(j - 8)),
        decreases n - j,
    {
        if j > 8 {
            r.append(" ");
        }
        r.append(ws[j].as_str());
        proof {
            assert(tail.take(j - 8 + 1).drop_last() =~= tail.take(j - 8));
            assert(tail.take(j - 8 + 1).last() == ws@[j as int]@);
            if j == 8 {
                assert(r@ == join_sp(tail.take(1)));
            }
        }
        j = j + 1;
    }
    proof {
        assert(tail.take(n - 8) =~= tail);
    }
    r
}

/// Counts files, directories and extension buckets over listing lines, and
/// renders the one-line summary; empty when nothing was recognized.
pub fn generate_summary(lines: &Vec<String>) -> (r: String)
    ensures
        r@ == render_summary(scan_summary(dvs(lines@))),
{
    let ghost lseq = dvs(lines@);
    let n = lines.len();
    let mut files: usize = 0;
    let mut dirs: usize = 0;
    let mut exts: Vec<(String, usize)> = Vec::new();
    proof {
        assert(evs(exts@) =~= Seq::<ExtCount>::empty());
        assert(lseq.take(0) =~= Seq::<Seq<char>>::empty());
    }
    let mut idx: usize = 0;
    while idx < n
        invariant
            n == lines@.len(),
            lseq == dvs(lines@),
            0 <= idx <= n,
            files <= idx,
            dirs <= idx,
            forall|j: int| 0 <= j < exts@.len() ==> (#[trigger] exts@[j]).1 <= files,
            scan_summary(lseq.take(idx as int)) == (ListingSummary {
                files: files as nat,
                dirs: dirs as nat,
                exts: evs(exts@),
            }),
        decreases n - idx,
    {
        let ghost st0 = scan_summary(lseq.take(idx as int));
        let lineref = &lines[idx];
        let line = lineref.as_str();
        proof {
            assert(line@ == lseq[idx as int]);
        }
        let ws = split_words(line);
        let wn = ws.len();
        if wn == 0 {
        } else {
            let w0 = &ws[0];
            proof {
                assert(w0@ == spec_words(line@)[0]);
            }
            let w0len = w0.as_str().unicode_len();
            if w0len > 0 && w0.as_str().get_char(0) == 'd' {
                dirs = dirs + 1;
            } else if !(w0len > 0 && w0.as_str().get_char(0) == '-') {
            } else if wn < 9 {
            } else {
                let fname = joined_name(&ws);
                let fn_len = fname.as_str().unicode_len();
                let e: String = match rfind_char(fname.as_str(), '.') {
                    Some(p) => String::from_str(fname.as_str().substring_char(p, fn_len)),
                    None => String::from_str("no ext"),
                };
                proof {
                    assert(e@ == ext_of(join_sp(dvs(ws@).skip(8))));
                }
                let ghost e0 = exts@;
                let ghost edv = e@;
                let elen = exts.len();
                let mut j: usize = 0;
                while j < elen && !eq_str(exts[j].0.as_str(), e.as_str())
                    invariant
                        elen == exts@.len(),
                        e0 == exts@,
                        edv == e@,
                        0 <= j <= elen,
                        forall|k: int| 0 <= k < j ==> (#[trigger] evs(e0)[k]).0 != edv,
                    decreases elen - j,
                {
                    proof {
                        assert(evs(e0)[j as int].0 == e0[j as int].0@);
                    }
                    j = j + 1;
                }
                if j < elen {
                    proof {
                        assert(evs(e0)[j as int].0 == e0[j as int].0@);
                        lemma_bump_ext_found(evs(e0), edv, j as int);
                    }
                    let mut entry = exts.remove(j);
                    entry.1 = entry.1 + 1;
                    let ghost entv = entry;
                    exts.insert(j, entry);
                    proof {
                        assert(exts@ =~= e0.update(j as int, entv));
                        assert(evs(exts@) =~= evs(e0).update(
                            j as int,
                            (edv, (evs(e0)[j as int].1 + 1) as nat),
                        ));
                        assert(evs(exts@) =~= bump_ext(evs(e0), edv));
                    }
                } else {
                    proof {
                        lemma_bump_ext_new(evs(e0), edv);
                    }
                    let entry = (e, 1usize);
                    let ghost entv = entry;
                    exts.push(entry);
                    proof {
                        assert(evs(exts@) =~= evs(e0).push((edv, 1nat)));
                        assert(evs(exts@) =~= bump_ext(evs(e0), edv));
                    }
                }
                files = files + 1;
            }
        }
        proof {
            assert(lseq.take(idx + 1).drop_last() =~= lseq.take(idx as int));
            assert(lseq.take(idx + 1).last() == lseq[idx as int]);
            assert(scan_summary(lseq.take(idx + 1)) == summary_step(st0, lseq[idx as int]));
        }
        idx = idx + 1;
    }
    proof {
        assert(lseq.take(n as int) =~= lseq);
    }
    let ghost st = scan_summary(lseq);
    if files == 0 && dirs == 0 {
        let r = String::new();
        proof {
            assert(r@ =~= render_summary(st));
        }
        return r;
    }
    // Stable sort of the buckets by non-increasing count.
    let mut sorted: Vec<(String, usize)> = Vec::new();
    proof {
        assert(evs(sorted@) =~= sort_exts(evs(exts@).take(0)));
    }
    let elen = exts.len();
    let mut i: usize = 0;
    while i < elen
        invariant
            elen == exts@.len(),
            st.exts == evs(exts@),
            0 <= i <= elen,
            evs(sorted@) == sort_exts(evs(exts@).take(i as int)),
        decreases elen - i,
    {
        let entry = (exts[i].0.clone(), exts[i].1);
        let ghost entv = entry;
        let ghost gdv = evs(exts@)[i as int];
        proof {
            assert((entv.0@, entv.1 as nat) == gdv);
        }
        let cnt = entry.1;
        let slen = sorted.len();
        let ghost s0 = evs(sorted@);
        let mut p: usize = 0;
        while p < slen && sorted[p].1 >= cnt
            invariant
                slen == sorted@.len(),
                s0 == evs(sorted@),
                cnt == entv.1,
                0 <= p <= slen,
                forall|k: int| 0 <= k < p ==> (#[trigger] s0[k]).1 >= cnt,
            decreases slen - p,
        {
            proof {
                assert(s0[p as int].1 == sorted@[p as int].1 as nat);
            }
            p = p + 1;
        }
        proof {
            if p < slen {
                assert(s0[p as int].1 == sorted@[p as int].1 as nat);
            }
            lemma_insert_ext_at(gdv, s0, p as int);
        }
        sorted.insert(p, entry);
        proof {
            assert(sorted@ =~= sorted@.subrange(0, p as int) + seq![entv] + sorted@.subrange(
                p + 1,
                sorted@.len() as int,
            ));
            assert(evs(sorted@) =~= s0.take(p as int) + seq![gdv] + s0.skip(p as int));
            assert(evs(sorted@) =~= insert_ext(gdv, s0));
            assert(evs(exts@).take(i + 1).drop_last() =~= evs(exts@).take(i as int));
            assert(evs(exts@).take(i + 1).last() == gdv);
        }
        i = i + 1;
    }
    proof {
        assert(evs(exts@).take(elen as int) =~= evs(exts@));
    }
    let ghost sdv = sort_exts(st.exts);
    let mut r = String::from_str("📊 ");
    let d1 = fmt_usize(files);
    r.append(d1.as_str());
    r.append(" files");
    if dirs > 0 {
        r.append(", ");
        let d2 = fmt_usize(dirs);
        r.append(d2.as_str());
        r.append(" dirs");
    }
    let ghost head = "📊 "@ + dec_str(st.files) + " files"@ + (if st.dirs > 0 {
        ", "@ + dec_str(st.dirs) + " dirs"@
    } else {
        Seq::<char>::empty()
    });
    proof {
        assert(r@ =~= head);
    }
    let total = sorted.len();
    if total > 0 {
        r.append(" (");
        let ghost open_mark = r@;
        let k = if total < MAX_EXTENSIONS {
            total
        } else {
            MAX_EXTENSIONS
        };
        let mut i: usize = 0;
        while i < k
            invariant
                k <= total,
                total == sorted@.len(),
                sdv == evs(sorted@),
                0 <= i <= k,
                open_mark == head + " ("@,
                r@ == head + " ("@ + ext_list(sdv, i as int),
            decreases k - i,
        {
            if i > 0 {
                r.append(", ");
            }
            let d = fmt_usize(sorted[i].1);
            r.append(d.as_str());
            r.append(" ");
            r.append(sorted[i].0.as_str());
            proof {
                assert(sdv[i as int] == (sorted@[i as int].0@, sorted@[i as int].1 as nat));
                assert(r@ =~= head + " ("@ + ext_list(sdv, i + 1));
            }
            i = i + 1;
        }
        if total > MAX_EXTENSIONS {
            r.append(", +");
            let d3 = fmt_usize(total - MAX_EXTENSIONS);
            r.append(d3.as_str());
            r.append(" more");
        }
        r.append(")");
        proof {
            if total > MAX_EXTENSIONS {
                assert(r@ =~= head + (" ("@ + ext_list(sdv, k as int) + (", +"@ + dec_str(
                    (total - MAX_EXTENSIONS) as nat,
                ) + " more"@) + ")"@));
            } else {
                assert(r@ =~= head + (" ("@ + ext_list(sdv, k as int) + Seq::<char>::empty()
                    + ")"@));
            }
            assert(r@ == render_summary(st));
        }
    } else {
        proof {
            assert(r@ =~= head + Seq::<char>::empty());
            assert(r@ == render_summary(st));
        }
    }
    r
}

/// Without an all-entries request, no kept line matches a denylisted noise
/// name and the "total" header is gone; with the request, every line except
/// the "total" header survives, in order.
pub proof fn lemma_ls_noise_filtered(lines: Seq<Seq<char>>, noise: Seq<Seq<char>>)
    ensures
        forall|i: int|
            0 <= i < ls_kept(lines, false, noise).len() ==> !is_noise_entry(
                #[trigger] ls_kept(lines, false, noise)[i],
                noise,
            ) && !"total "@.is_prefix_of(ls_kept(lines, false, noise)[i]),
        forall|i: int|
            0 <= i < ls_kept(lines, true, noise).len() ==> !"total "@.is_prefix_of(
                #[trigger] ls_kept(lines, true, noise)[i],
            ),
        forall|i: int|
            0 <= i < lines.len() && !"total "@.is_prefix_of(#[trigger] lines[i]) ==> ls_kept(
                lines,
                true,
                noise,
            ).contains(lines[i]),
    decreases lines.len(),
{
    if lines.len() > 0 {
        lemma_ls_noise_filtered(lines.drop_last(), noise);
        let dl = lines.drop_last();
        let l = lines.last();
        let kf0 = ls_kept(dl, false, noise);
        let kf = ls_kept(lines, false, noise);
        let kt0 = ls_kept(dl, true, noise);
        let kt = ls_kept(lines, true, noise);
        assert forall|i: int| 0 <= i < kf.len() implies !is_noise_entry(#[trigger] kf[i], noise)
            && !"total "@.is_prefix_of(kf[i]) by {
            if i < kf0.len() {
                assert(kf[i] == kf0[i]);
            } else {
                assert(ls_keep(l, false, noise) && kf[i] == l);
            }
        }
        assert forall|i: int| 0 <= i < kt.len() implies !"total "@.is_prefix_of(
            #[trigger] kt[i],
        ) by {
            if i < kt0.len() {
                assert(kt[i] == kt0[i]);
            } else {
                assert(ls_keep(l, true, noise) && kt[i] == l);
            }
        }
        assert forall|i: int| 0 <= i < lines.len() && !"total "@.is_prefix_of(
            #[trigger] lines[i],
        ) implies kt.contains(lines[i]) by {
            if i < lines.len() - 1 {
                assert(dl[i] == lines[i]);
                assert(kt0.contains(lines[i]));
                let j = choose|j: int| 0 <= j < kt0.len() && kt0[j] == lines[i];
                assert(kt[j] == lines[i]);
            } else {
                assert(ls_keep(l, true, noise));
                assert(kt[kt.len() - 1] == l);
            }
        }
    }
}

/// The whole pipeline on raw listing text, against a given denylist.
pub open spec fn spec_filter_ls_with(s: Seq<char>, show_all: bool, noise: Seq<Seq<char>>) -> Seq<
    char,
> {
    let kept = ls_kept(spec_lines(s), show_all, noise);
    if kept.len() == 0 {
        "\n"@
    } else {
        let su = render_summary(scan_summary(kept));
        (if su.len() > 0 {
            join_nl(kept) + "\n\n"@ + su
        } else {
            join_nl(kept)
        }) + "\n"@
    }
}

/// The whole pipeline on raw listing text, against the default denylist.
pub open spec fn spec_filter_ls(s: Seq<char>, show_all: bool) -> Seq<char> {
    spec_filter_ls_with(s, show_all, noise_names())
}

/// Filters raw listing text against the default denylist and appends the
/// extension summary. An explicit all-entries request switches the denylist
/// off; the "total" header line is dropped either way.
pub fn filter_ls_output(raw: &str, show_all: bool) -> (r: String)
    ensures
        r@ == spec_filter_ls(raw@, show_all),
{
    let noise = default_noise_names();
    filter_ls_with(raw, show_all, &noise)
}

/// `filter_ls_output` against a caller-supplied denylist.
pub fn filter_ls_with(raw: &str, show_all: bool, noise: &Vec<String>) -> (r: String)
    ensures
        r@ == spec_filter_ls_with(raw@, show_all, dvs(noise@)),
{
    let ghost ndv = dvs(noise@);
    let lines = split_lines(raw);
    let ghost lseq = dvs(lines@);
    let n = lines.len();
    let mut kept: Vec<String> = Vec::new();
    proof {
        assert(dvs(kept@) =~= ls_kept(lseq.take(0), show_all, ndv));
        assert(lseq.take(0) =~= Seq::<Seq<char>>::empty());
    }
    let mut idx: usize = 0;
    while idx < n
        invariant
            n == lines@.len(),
            lseq == dvs(lines@),
            ndv == dvs(noise@),
            0 <= idx <= n,
            dvs(kept@) == ls_kept(lseq.take(idx as int), show_all, ndv),
        decreases n - idx,
    {
        let lineref = &lines[idx];
        let line = lineref.as_str();
        proof {
            assert(line@ == lseq[idx as int]);
        }
        let keep = if starts_with_str(line, "total ") {
            false
        } else if show_all {
            true
        } else {
            !noise_entry_exec(line, noise)
        };
        let ghost k0 = kept@;
        if keep {
            kept.push(lineref.clone());
        }
        proof {
            assert(lseq.take(idx + 1).drop_last() =~= lseq.take(idx as int));
            assert(lseq.take(idx + 1).last() == lseq[idx as int]);
            if keep {
                assert(dvs(kept@) =~= dvs(k0).push(line@));
                assert(ls_kept(lseq.take(idx + 1), show_all, ndv) =~= ls_kept(
                    lseq.take(idx as int),
                    show_all,
                    ndv,
                ).push(line@));
            } else {
                assert(ls_kept(lseq.take(idx + 1), show_all, ndv) =~= ls_kept(
                    lseq.take(idx as int),
                    show_all,
                    ndv,
                ));
            }
        }
        idx = idx + 1;
    }
    proof {
        assert(lseq.take(n as int) =~= lseq);
    }
    let ghost kdv = ls_kept(lseq, show_all, ndv);
    if kept.len() == 0 {
        let r = String::from_str("\n");
        proof {
            assert(r@ == spec_filter_ls_with(raw@, show_all, ndv));
        }
        return r;
    }
    let mut out = join_lines(&kept);
    let summ = generate_summary(&kept);
    if summ.as_str().unicode_len() > 0 {
        out.append("\n\n");
        out.append(summ.as_str());
    }
    out.append("\n");
    proof {
        if render_summary(scan_summary(kdv)).len() > 0 {
            assert(out@ =~= (join_nl(kdv) + "\n\n"@ + render_summary(scan_summary(kdv))) + "\n"@);
        } else {
            assert(out@ =~= join_nl(kdv) + "\n"@);
        }
        assert(out@ == spec_filter_ls_with(raw@, show_all, ndv));
    }
    out
}

} // verus!
