//! Verified text primitives shared by the classifiers and renderers:
//! whitespace trimming, prefix/suffix/substring tests, line and word
//! splitting, joining, decimal formatting and character-budget truncation.

use vstd::prelude::*;
use vstd::string::StrSliceExecFns;
use vstd::string::StringExecFns;

verus! {

/// Whitespace as the trimming and blank-line rules understand it.
pub open spec fn is_space(c: char) -> bool {
    c == ' ' || c == '\t' || c == '\r' || c == '\n'
}

/// View of every element of a sequence of viewable values.
pub open spec fn dvs<T: DeepView>(s: Seq<T>) -> Seq<T::V> {
    Seq::new(s.len(), |i: int| s[i].deep_view())
}

pub broadcast proof fn lemma_vec_deep_view<T: DeepView>(v: Vec<T>)
    ensures
        #[trigger] v.deep_view() == dvs(v@),
{
    assert(v.deep_view() =~= dvs(v@));
}

pub proof fn lemma_dvs_concat<T: DeepView>(a: Seq<T>, b: Seq<T>)
    ensures
        dvs(a + b) =~= dvs(a) + dvs(b),
{
}

// ---------------------------------------------------------------------------
// Prefix, suffix, equality and substring tests
// ---------------------------------------------------------------------------

/// Whether `p` occurs in `s` as a contiguous run.
pub open spec fn has_sub(s: Seq<char>, p: Seq<char>) -> bool {
    exists|i: int| 0 <= i && i + p.len() <= s.len() && #[trigger] s.subrange(i, i + p.len()) == p
}

pub fn starts_with_str(s: &str, p: &str) -> (r: bool)
    ensures
        r == p@.is_prefix_of(s@),
{
    let n = s.unicode_len();
    let m = p.unicode_len();
    if m > n {
        return false;
    }
    let mut j: usize = 0;
    while j < m
        invariant
            m <= n,
            n == s@.len(),
            m == p@.len(),
            0 <= j <= m,
            forall|k: int| 0 <= k < j ==> s@[k] == p@[k],
        decreases m - j,
    {
        if s.get_char(j) != p.get_char(j) {
            proof {
                assert(!p@.is_prefix_of(s@)) by {
                    if p@.is_prefix_of(s@) {
                        assert(p@[j as int] == s@.subrange(0, m as int)[j as int]);
                    }
                }
            }
            return false;
        }
        j = j + 1;
    }
    proof {
        assert(p@ =~= s@.subrange(0, m as int));
    }
    true
}

pub fn ends_with_str(s: &str, p: &str) -> (r: bool)
    ensures
        r == p@.is_suffix_of(s@),
{
    let n = s.unicode_len();
    let m = p.unicode_len();
    if m > n {
        return false;
    }
    let off = n - m;
    let mut j: usize = 0;
    while j < m
        invariant
            m <= n,
            n == s@.len(),
            m == p@.len(),
            off == n - m,
            0 <= j <= m,
            forall|k: int| 0 <= k < j ==> s@[off + k] == p@[k],
        decreases m - j,
    {
        if s.get_char(off + j) != p.get_char(j) {
            proof {
                assert(!p@.is_suffix_of(s@)) by {
                    if p@.is_suffix_of(s@) {
                        assert(p@[j as int] == s@.subrange(off as int, n as int)[j as int]);
                    }
                }
            }
            return false;
        }
        j = j + 1;
    }
    proof {
        assert(p@ =~= s@.subrange(off as int, n as int));
    }
    true
}

pub fn eq_str(s: &str, p: &str) -> (r: bool)
    ensures
        r == (s@ == p@),
{
    let n = s.unicode_len();
    let m = p.unicode_len();
    if m != n {
        return false;
    }
    let r = starts_with_str(s, p);
    proof {
        if r {
            assert(s@ =~= p@);
        }
    }
    r
}

/// Whether `p` matches `s` at offset `i`.
fn matches_at(s: &str, p: &str, i: usize) -> (r: bool)
    requires
        i + p@.len() <= s@.len(),
    ensures
        r == (s@.subrange(i as int, i + p@.len()) == p@),
{
    let n = s.unicode_len();
    let m = p.unicode_len();
    let mut j: usize = 0;
    while j < m
        invariant
            i + m <= n,
            n == s@.len(),
            m == p@.len(),
            0 <= j <= m,
            forall|k: int| 0 <= k < j ==> s@[i + k] == p@[k],
        decreases m - j,
    {
        if s.get_char(i + j) != p.get_char(j) {
            proof {
                let sub = s@.subrange(i as int, i + p@.len());
                assert(sub[j as int] == s@[i + j]);
            }
            return false;
        }
        j = j + 1;
    }
    proof {
        assert(s@.subrange(i as int, i + p@.len()) =~= p@);
    }
    true
}

pub fn contains_str(s: &str, p: &str) -> (r: bool)
    ensures
        r == has_sub(s@, p@),
{
    let n = s.unicode_len();
    let m = p.unicode_len();
    if m > n {
        proof {
            assert(!has_sub(s@, p@));
        }
        return false;
    }
    if m == 0 {
        proof {
            assert(s@.subrange(0, 0 + p@.len() as int) =~= p@);
        }
        return true;
    }
    let mut i: usize = 0;
    while i <= n - m
        invariant
            1 <= m <= n,
            n == s@.len(),
            m == p@.len(),
            0 <= i <= n - m + 1,
            forall|k: int| 0 <= k < i ==> #[trigger] s@.subrange(k, k + p@.len()) != p@,
        decreases n - m + 1 - i,
    {
        if matches_at(s, p, i) {
            proof {
                assert(has_sub(s@, p@)) by {
                    assert(s@.subrange(i as int, i + p@.len()) == p@);
                }
            }
            return true;
        }
        i = i + 1;
    }
    proof {
        assert(!has_sub(s@, p@)) by {
            if has_sub(s@, p@) {
                let k = choose|k: int|
                    0 <= k && k + p@.len() <= s@.len() && #[trigger] s@.subrange(k, k + p@.len())
                        == p@;
                assert(k < i);
            }
        }
    }
    false
}

// ---------------------------------------------------------------------------
// Trimming and blank lines
// ---------------------------------------------------------------------------

/// `s` without its leading whitespace.
pub open spec fn skip_spaces(s: Seq<char>) -> Seq<char>
    decreases s.len(),
{
    if s.len() > 0 && is_space(s[0]) {
        skip_spaces(s.drop_first())
    } else {
        s
    }
}

/// `s` without its trailing whitespace.
pub open spec fn drop_end_spaces(s: Seq<char>) -> Seq<char>
    decreases s.len(),
{
    if s.len() > 0 && is_space(s.last()) {
        drop_end_spaces(s.drop_last())
    } else {
        s
    }
}

/// `s` without leading and trailing whitespace.
pub open spec fn trimmed(s: Seq<char>) -> Seq<char> {
    drop_end_spaces(skip_spaces(s))
}

/// Every character of `s` is whitespace.
pub open spec fn all_spaces(s: Seq<char>) -> bool {
    forall|i: int| 0 <= i < s.len() ==> is_space(s[i])
}

proof fn lemma_skip_spaces_at(s: Seq<char>, i: int)
    requires
        0 <= i <= s.len(),
        forall|j: int| 0 <= j < i ==> is_space(s[j]),
        i < s.len() ==> !is_space(s[i]),
    ensures
        skip_spaces(s) == s.skip(i),
    decreases i,
{
    if i == 0 {
        assert(s.skip(0) =~= s);
    } else {
        assert(is_space(s[0]));
        lemma_skip_spaces_at(s.drop_first(), i - 1);
        assert(s.drop_first().skip(i - 1) =~= s.skip(i));
    }
}

proof fn lemma_drop_end_spaces_at(s: Seq<char>, i: int)
    requires
        0 <= i <= s.len(),
        forall|j: int| i <= j < s.len() ==> is_space(s[j]),
        i > 0 ==> !is_space(s[i - 1]),
    ensures
        drop_end_spaces(s) == s.take(i),
    decreases s.len() - i,
{
    if i == s.len() {
        assert(s.take(i) =~= s);
    } else {
        assert(is_space(s.last()));
        lemma_drop_end_spaces_at(s.drop_last(), i);
        assert(s.drop_last().take(i) =~= s.take(i));
    }
}

fn space_char(c: char) -> (r: bool)
    ensures
        r == is_space(c),
{
    c == ' ' || c == '\t' || c == '\r' || c == '\n'
}

/// Borrowed tail of `s` past its leading whitespace.
pub fn trim_start_str<'a>(s: &'a str) -> (r: &'a str)
    ensures
        r@ == skip_spaces(s@),
{
    let n = s.unicode_len();
    let mut i: usize = 0;
    while i < n && space_char(s.get_char(i))
        invariant
            n == s@.len(),
            0 <= i <= n,
            forall|j: int| 0 <= j < i ==> is_space(s@[j]),
        decreases n - i,
    {
        i = i + 1;
    }
    proof {
        lemma_skip_spaces_at(s@, i as int);
        assert(s@.subrange(i as int, n as int) =~= s@.skip(i as int));
    }
    s.substring_char(i, n)
}

/// Copy of `s` without leading and trailing whitespace.
pub fn trim_str(s: &str) -> (r: String)
    ensures
        r@ == trimmed(s@),
{
    let t = trim_start_str(s);
    let n = t.unicode_len();
    let mut i: usize = n;
    while i > 0 && space_char(t.get_char(i - 1))
        invariant
            n == t@.len(),
            0 <= i <= n,
            forall|j: int| i <= j < n ==> is_space(t@[j]),
        decreases i,
    {
        i = i - 1;
    }
    proof {
        lemma_drop_end_spaces_at(t@, i as int);
        assert(t@.subrange(0, i as int) =~= t@.take(i as int));
    }
    let cut = t.substring_char(0, i);
    String::from_str(cut)
}

/// Whether `s` holds nothing but whitespace.
pub fn is_blank(s: &str) -> (r: bool)
    ensures
        r == all_spaces(s@),
{
    let n = s.unicode_len();
    let mut i: usize = 0;
    while i < n
        invariant
            n == s@.len(),
            0 <= i <= n,
            forall|j: int| 0 <= j < i ==> is_space(s@[j]),
        decreases n - i,
    {
        if !space_char(s.get_char(i)) {
            return false;
        }
        i = i + 1;
    }
    true
}

// ---------------------------------------------------------------------------
// Decimal formatting
// ---------------------------------------------------------------------------

/// The character for one decimal digit.
pub open spec fn dec_digit(d: nat) -> char {
    if d == 0 {
        '0'
    } else if d == 1 {
        '1'
    } else if d == 2 {
        '2'
    } else if d == 3 {
        '3'
    } else if d == 4 {
        '4'
    } else if d == 5 {
        '5'
    } else if d == 6 {
        '6'
    } else if d == 7 {
        '7'
    } else if d == 8 {
        '8'
    } else {
        '9'
    }
}

/// The decimal digits of `n`, most significant first.
pub open spec fn dec_str(n: nat) -> Seq<char>
    decreases n,
{
    if n < 10 {
        seq![dec_digit(n)]
    } else {
        dec_str(n / 10).push(dec_digit(n % 10))
    }
}

/// Decimal digit strings never hold a line break (or any non-digit).
pub proof fn lemma_dec_str_digits(n: nat)
    ensures
        forall|i: int|
            0 <= i < dec_str(n).len() ==> ('0' <= #[trigger] dec_str(n)[i] && dec_str(n)[i] <= '9'),
    decreases n,
{
    if n < 10 {
        assert(dec_str(n) =~= seq![dec_digit(n)]);
    } else {
        lemma_dec_str_digits(n / 10);
        assert forall|i: int| 0 <= i < dec_str(n).len() implies ('0' <= #[trigger] dec_str(n)[i]
            && dec_str(n)[i] <= '9') by {
            if i < dec_str(n / 10).len() {
                assert(dec_str(n)[i] == dec_str(n / 10)[i]);
            } else {
                assert(dec_str(n)[i] == dec_digit(n % 10));
            }
        }
    }
}

fn digit_string(d: usize) -> (r: String)
    requires
        d < 10,
    ensures
        r@ =~= seq![dec_digit(d as nat)],
{
    proof {
        reveal_strlit("0");
        reveal_strlit("1");
        reveal_strlit("2");
        reveal_strlit("3");
        reveal_strlit("4");
        reveal_strlit("5");
        reveal_strlit("6");
        reveal_strlit("7");
        reveal_strlit("8");
        reveal_strlit("9");
    }
    if d == 0 {
        String::from_str("0")
    } else if d == 1 {
        String::from_str("1")
    } else if d == 2 {
        String::from_str("2")
    } else if d == 3 {
        String::from_str("3")
    } else if d == 4 {
        String::from_str("4")
    } else if d == 5 {
        String::from_str("5")
    } else if d == 6 {
        String::from_str("6")
    } else if d == 7 {
        String::from_str("7")
    } else if d == 8 {
        String::from_str("8")
    } else {
        String::from_str("9")
    }
}

/// `n` written in decimal.
pub fn fmt_usize(n: usize) -> (r: String)
    ensures
        r@ == dec_str(n as nat),
    decreases n,
{
    if n < 10 {
        digit_string(n)
    } else {
        let mut s = fmt_usize(n / 10);
        let d = digit_string(n % 10);
        s.append(d.as_str());
        proof {
            assert(s@ =~= dec_str((n / 10) as nat).push(dec_digit((n % 10) as nat)));
        }
        s
    }
}

// ---------------------------------------------------------------------------
// Truncation to a character budget
// ---------------------------------------------------------------------------

/// `s` cut to at most `m` characters; a cut is marked with an ellipsis.
pub open spec fn truncated(s: Seq<char>, m: nat) -> Seq<char> {
    if s.len() <= m {
        s
    } else {
        s.take(m as int) + "..."@
    }
}

/// First `max` characters of `s`, with `...` appended when anything was cut.
pub fn truncate_chars(s: &str, max: usize) -> (r: String)
    ensures
        r@ == truncated(s@, max as nat),
{
    let n = s.unicode_len();
    if n <= max {
        String::from_str(s)
    } else {
        let head = s.substring_char(0, max);
        let mut r = String::from_str(head);
        r.append("...");
        proof {
            assert(r@ =~= s@.take(max as int) + "..."@);
        }
        r
    }
}

// ---------------------------------------------------------------------------
// Joining lines
// ---------------------------------------------------------------------------

/// The elements of `v` joined with a line break between neighbours.
pub open spec fn join_nl(v: Seq<Seq<char>>) -> Seq<char>
    decreases v.len(),
{
    if v.len() == 0 {
        Seq::empty()
    } else if v.len() == 1 {
        v[0]
    } else {
        join_nl(v.drop_last()) + seq!['\n'] + v.last()
    }
}

/// Joins the lines of `v` with single line breaks.
pub fn join_lines(v: &Vec<String>) -> (r: String)
    ensures
        r@ == join_nl(dvs(v@)),
{
    let ghost dv = dvs(v@);
    let mut r = String::new();
    let n = v.len();
    let mut i: usize = 0;
    while i < n
        invariant
            n == v@.len(),
            dv == dvs(v@),
            0 <= i <= n,
            r@ == join_nl(dv.take(i as int)),
        decreases n - i,
    {
        if i > 0 {
            r.append("\n");
            proof {
                reveal_strlit("\n");
                assert("\n"@ =~= seq!['\n']);
            }
        }
        r.append(v[i].as_str());
        proof {
            assert(dv.take(i + 1).drop_last() =~= dv.take(i as int));
            assert(dv.take(i + 1).last() == v@[i as int]@);
            if i == 0 {
                assert(r@ == join_nl(dv.take(1)));
            }
        }
        i = i + 1;
    }
    proof {
        assert(dv.take(n as int) =~= dv);
    }
    r
}

// ---------------------------------------------------------------------------
// Splitting into lines
// ---------------------------------------------------------------------------

/// Index of the first line break in `s`, or `s.len()` if there is none.
pub open spec fn first_nl(s: Seq<char>) -> nat
    decreases s.len(),
{
    if s.len() == 0 {
        0
    } else if s[0] == '\n' {
        0
    } else {
        1 + first_nl(s.drop_first())
    }
}

pub proof fn lemma_first_nl_at(s: Seq<char>, i: int)
    requires
        0 <= i <= s.len(),
        forall|j: int| 0 <= j < i ==> s[j] != '\n',
        i < s.len() ==> s[i] == '\n',
    ensures
        first_nl(s) == i,
    decreases i,
{
    if i == 0 {
    } else {
        lemma_first_nl_at(s.drop_first(), i - 1);
    }
}

/// A line's text without the carriage return that a CRLF break leaves behind.
pub open spec fn strip_cr(l: Seq<char>) -> Seq<char> {
    if l.len() > 0 && l.last() == '\r' {
        l.drop_last()
    } else {
        l
    }
}

/// The lines of `s`: split at line breaks, a carriage return before a break
/// dropped, and no empty final line for text that ends with a break.
pub open spec fn spec_lines(s: Seq<char>) -> Seq<Seq<char>>
    decreases s.len(),
{
    if s.len() == 0 {
        Seq::empty()
    } else {
        let i = first_nl(s) as int;
        if i >= s.len() {
            seq![s]
        } else {
            seq![strip_cr(s.take(i))] + spec_lines(s.skip(i + 1))
        }
    }
}

/// Splits text into its lines, as `spec_lines` describes them.
pub fn split_lines(s: &str) -> (r: Vec<String>)
    ensures
        dvs(r@) == spec_lines(s@),
    decreases s@.len(),
{
    let n = s.unicode_len();
    if n == 0 {
        let r: Vec<String> = Vec::new();
        proof {
            assert(dvs(r@) =~= spec_lines(s@));
        }
        return r;
    }
    let mut i: usize = 0;
    while i < n && s.get_char(i) != '\n'
        invariant
            n == s@.len(),
            0 <= i <= n,
            forall|j: int| 0 <= j < i ==> s@[j] != '\n',
        decreases n - i,
    {
        i = i + 1;
    }
    proof {
        lemma_first_nl_at(s@, i as int);
    }
    if i == n {
        let mut r: Vec<String> = Vec::new();
        r.push(String::from_str(s));
        proof {
            assert(dvs(r@) =~= spec_lines(s@));
        }
        r
    } else {
        let end = if i > 0 && s.get_char(i - 1) == '\r' {
            i - 1
        } else {
            i
        };
        let head = s.substring_char(0, end);
        let rest = s.substring_char(i + 1, n);
        let mut r: Vec<String> = Vec::new();
        r.push(String::from_str(head));
        let mut tail = split_lines(rest);
        proof {
            if i > 0 && s@[i as int - 1] == '\r' {
                assert(s@.take(i as int).last() == s@[i as int - 1]);
                assert(s@.take(i as int).drop_last() =~= s@.subrange(0, i as int - 1));
            }
            assert(head@ == strip_cr(s@.take(i as int)));
            assert(rest@ == s@.skip(i + 1));
        }
        let ghost r1 = r@;
        let ghost t1 = tail@;
        r.append(&mut tail);
        proof {
            assert(r@ == r1 + t1);
            lemma_dvs_concat(r1, t1);
            assert(dvs(r1) =~= seq![head@]);
            assert(dvs(r@) =~= spec_lines(s@));
        }
        r
    }
}

// ---------------------------------------------------------------------------
// Splitting into whitespace-separated words
// ---------------------------------------------------------------------------

/// Index of the first whitespace character of `s`, or `s.len()`.
pub open spec fn first_space(s: Seq<char>) -> nat
    decreases s.len(),
{
    if s.len() == 0 {
        0
    } else if is_space(s[0]) {
        0
    } else {
        1 + first_space(s.drop_first())
    }
}

proof fn lemma_first_space_at(s: Seq<char>, i: int)
    requires
        0 <= i <= s.len(),
        forall|j: int| 0 <= j < i ==> !is_space(s[j]),
        i < s.len() ==> is_space(s[i]),
    ensures
        first_space(s) == i,
    decreases i,
{
    if i == 0 {
    } else {
        lemma_first_space_at(s.drop_first(), i - 1);
    }
}

/// The maximal whitespace-free words of `s`, in order.
pub open spec fn spec_words(s: Seq<char>) -> Seq<Seq<char>>
    decreases s.len(),
{
    if s.len() == 0 {
        Seq::empty()
    } else if is_space(s[0]) {
        spec_words(s.drop_first())
    } else {
        let i = first_space(s) as int;
        if i >= s.len() {
            seq![s]
        } else {
            seq![s.take(i)] + spec_words(s.skip(i))
        }
    }
}

/// Splits text at whitespace runs, as `spec_words` describes it.
pub fn split_words(s: &str) -> (r: Vec<String>)
    ensures
        dvs(r@) == spec_words(s@),
    decreases s@.len(),
{
    let n = s.unicode_len();
    if n == 0 {
        let r: Vec<String> = Vec::new();
        proof {
            assert(dvs(r@) =~= spec_words(s@));
        }
        return r;
    }
    if space_char(s.get_char(0)) {
        let rest = s.substring_char(1, n);
        proof {
            assert(rest@ =~= s@.drop_first());
        }
        return split_words(rest);
    }
    let mut i: usize = 0;
    while i < n && !space_char(s.get_char(i))
        invariant
            n == s@.len(),
            0 <= i <= n,
            forall|j: int| 0 <= j < i ==> !is_space(s@[j]),
        decreases n - i,
    {
        i = i + 1;
    }
    proof {
        lemma_first_space_at(s@, i as int);
    }
    if i == n {
        let mut r: Vec<String> = Vec::new();
        r.push(String::from_str(s));
        proof {
            assert(dvs(r@) =~= spec_words(s@));
        }
        r
    } else {
        let head = s.substring_char(0, i);
        let rest = s.substring_char(i, n);
        let mut r: Vec<String> = Vec::new();
        r.push(String::from_str(head));
        let mut tail = split_words(rest);
        proof {
            assert(head@ == s@.take(i as int));
            assert(rest@ == s@.skip(i as int));
        }
        let ghost r1 = r@;
        let ghost t1 = tail@;
        r.append(&mut tail);
        proof {
            lemma_dvs_concat(r1, t1);
            assert(dvs(r1) =~= seq![head@]);
            assert(dvs(r@) =~= spec_words(s@));
        }
        r
    }
}

// ---------------------------------------------------------------------------
// Last occurrence of a character
// ---------------------------------------------------------------------------

/// Index of the last occurrence of `c` in `s`, or `-1` if `c` is absent.
pub open spec fn last_idx(s: Seq<char>, c: char) -> int
    decreases s.len(),
{
    if s.len() == 0 {
        -1
    } else if s.last() == c {
        s.len() - 1
    } else {
        last_idx(s.drop_last(), c)
    }
}

proof fn lemma_last_idx_tail(s: Seq<char>, c: char, i: int)
    requires
        0 <= i <= s.len(),
        forall|k: int| i <= k < s.len() ==> s[k] != c,
    ensures
        last_idx(s, c) == last_idx(s.take(i), c),
    decreases s.len() - i,
{
    if i == s.len() {
        assert(s.take(i) =~= s);
    } else {
        assert(s.last() != c);
        assert(s.drop_last() =~= s.take(s.len() - 1));
        lemma_last_idx_tail(s.take(s.len() - 1), c, i);
        assert(s.take(s.len() - 1).take(i) =~= s.take(i));
    }
}

/// Index of the last occurrence of `c` in `s`, if any.
pub fn rfind_char(s: &str, c: char) -> (r: Option<usize>)
    ensures
        match r {
            Some(i) => last_idx(s@, c) == i && i < s@.len(),
            None => last_idx(s@, c) == -1,
        },
{
    let n = s.unicode_len();
    let mut i: usize = n;
    while i > 0
        invariant
            n == s@.len(),
            0 <= i <= n,
            forall|k: int| i <= k < n ==> s@[k] != c,
        decreases i,
    {
        if s.get_char(i - 1) == c {
            proof {
                lemma_last_idx_tail(s@, c, i as int);
                assert(s@.take(i as int).last() == s@[i - 1]);
            }
            return Some(i - 1);
        }
        i = i - 1;
    }
    proof {
        lemma_last_idx_tail(s@, c, 0);
        assert(s@.take(0) =~= Seq::<char>::empty());
    }
    None
}

} // verus!
