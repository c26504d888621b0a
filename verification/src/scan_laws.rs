//! Properties of the Markdown scanner across lines.
use vstd::prelude::*;
use crate::markdown::{
    alnum_flags, backticks3_at, inline_code_tag, is_alphanumeric_char, is_fence_tag,
    is_pair_marker, scan_from, scan_line, scan_step, toggle_tag, word_run,
};

verus! {

pub proof fn lemma_word_run_bound(c: Seq<char>, f: Seq<bool>, j: int)
    requires
        0 <= j <= c.len(),
    ensures
        j + word_run(c, f, j) <= c.len(),
    decreases c.len() - j,
{
    if j < c.len() && j < f.len() && f[j] {
        lemma_word_run_bound(c, f, j + 1);
    }
}

pub(crate) proof fn lemma_step_bounds(c: Seq<char>, f: Seq<bool>, i: int, st: Seq<Seq<char>>)
    requires
        0 <= i < c.len(),
    ensures
        i < scan_step(c, f, i, st).0 <= c.len(),
{
    if backticks3_at(c, i) {
        lemma_word_run_bound(c, f, i + 3);
    }
}

/// A character that starts no marker: neither a backtick nor a character
/// of `**`, `__`, `~~`, `||`.
pub open spec fn is_plain_char(ch: char) -> bool {
    ch != '`' && ch != '*' && ch != '_' && ch != '~' && ch != '|'
}

/// `c` and `f` hold `a` and `fa`, then a character that starts no marker
/// and may not belong to a language name (such as a line break).
pub(crate) open spec fn starts_with_line(c: Seq<char>, f: Seq<bool>, a: Seq<char>, fa: Seq<bool>) -> bool {
    &&& a.len() == fa.len()
    &&& c.len() == f.len()
    &&& a.len() < c.len()
    &&& c.take(a.len() as int) == a
    &&& f.take(a.len() as int) == fa
    &&& is_plain_char(c[a.len() as int])
    &&& !f[a.len() as int]
}

proof fn lemma_word_run_prefix(c: Seq<char>, f: Seq<bool>, a: Seq<char>, fa: Seq<bool>, j: int)
    requires
        starts_with_line(c, f, a, fa),
        0 <= j <= a.len(),
    ensures
        word_run(c, f, j) == word_run(a, fa, j),
    decreases a.len() - j,
{
    if j < a.len() {
        assert(c[j] == a[j] && f[j] == fa[j]) by {
            assert(c.take(a.len() as int)[j] == c[j]);
            assert(f.take(a.len() as int)[j] == f[j]);
        }
        lemma_word_run_prefix(c, f, a, fa, j + 1);
    }
}

proof fn lemma_step_prefix(c: Seq<char>, f: Seq<bool>, a: Seq<char>, fa: Seq<bool>, i: int, st: Seq<Seq<char>>)
    requires
        starts_with_line(c, f, a, fa),
        0 <= i < a.len(),
    ensures
        scan_step(c, f, i, st) == scan_step(a, fa, i, st),
{
    assert forall|k: int| 0 <= k < a.len() implies c[k] == a[k] by {
        assert(c.take(a.len() as int)[k] == c[k]);
    }
    assert(backticks3_at(c, i) == backticks3_at(a, i));
    if backticks3_at(a, i) {
        lemma_word_run_prefix(c, f, a, fa, i + 3);
        lemma_word_run_bound(a, fa, i + 3);
        let r = word_run(a, fa, i + 3);
        assert(c.subrange(i + 3, i + 3 + r) =~= a.subrange(i + 3, i + 3 + r));
    }
    if i + 1 < a.len() {
        assert(c[i + 1] == a[i + 1]);
    }
}

pub(crate) proof fn lemma_scan_prefix(c: Seq<char>, f: Seq<bool>, a: Seq<char>, fa: Seq<bool>, i: int, st: Seq<Seq<char>>)
    requires
        starts_with_line(c, f, a, fa),
        0 <= i <= a.len(),
    ensures
        scan_from(c, f, i, st) == scan_from(c, f, a.len() as int, scan_from(a, fa, i, st)),
    decreases a.len() - i,
{
    if i < a.len() {
        lemma_step_prefix(c, f, a, fa, i, st);
        lemma_step_bounds(a, fa, i, st);
        let (j, st2) = scan_step(a, fa, i, st);
        lemma_scan_prefix(c, f, a, fa, j, st2);
    }
}

proof fn lemma_word_run_shift(c: Seq<char>, f: Seq<bool>, n: int, q: Seq<char>, fq: Seq<bool>, k: int)
    requires
        0 <= n,
        c.len() == f.len(),
        q.len() == fq.len(),
        n + q.len() == c.len(),
        c.skip(n) == q,
        f.skip(n) == fq,
        0 <= k <= q.len(),
    ensures
        word_run(c, f, n + k) == word_run(q, fq, k),
    decreases q.len() - k,
{
    if k < q.len() {
        assert(c.skip(n)[k] == c[n + k]);
        assert(f.skip(n)[k] == f[n + k]);
        lemma_word_run_shift(c, f, n, q, fq, k + 1);
    }
}

pub(crate) proof fn lemma_scan_shift(c: Seq<char>, f: Seq<bool>, n: int, q: Seq<char>, fq: Seq<bool>, k: int, st: Seq<Seq<char>>)
    requires
        0 <= n,
        c.len() == f.len(),
        q.len() == fq.len(),
        n + q.len() == c.len(),
        c.skip(n) == q,
        f.skip(n) == fq,
        0 <= k <= q.len(),
    ensures
        scan_from(c, f, n + k, st) == scan_from(q, fq, k, st),
    decreases q.len() - k,
{
    if k < q.len() {
        assert forall|m: int| 0 <= m < q.len() implies c[n + m] == q[m] by {
            assert(c.skip(n)[m] == c[n + m]);
        }
        assert(backticks3_at(c, n + k) == backticks3_at(q, k));
        if backticks3_at(q, k) {
            lemma_word_run_shift(c, f, n, q, fq, k + 3);
            lemma_word_run_bound(q, fq, k + 3);
            let r = word_run(q, fq, k + 3);
            assert(c.subrange(n + k + 3, n + k + 3 + r) =~= q.subrange(k + 3, k + 3 + r));
        }
        let (j, st2) = scan_step(q, fq, k, st);
        assert(scan_step(c, f, n + k, st) == (n + j, st2));
        lemma_step_bounds(q, fq, k, st);
        lemma_scan_shift(c, f, n, q, fq, j, st2);
    }
}

/// Scanning two lines one after the other is scanning them joined by a
/// line break that belongs to no language name: a line break only
/// separates markers, and the open markers carry over to the next line.
pub proof fn law_scan_two_lines_as_one(
    a: Seq<char>,
    fa: Seq<bool>,
    b: Seq<char>,
    fb: Seq<bool>,
    st: Seq<Seq<char>>,
)
    requires
        a.len() == fa.len(),
        b.len() == fb.len(),
    ensures
        scan_line(b, fb, scan_line(a, fa, st)) == scan_line(a + seq!['\n'] + b, fa + seq![false] + fb, st),
{
    let c = a + seq!['\n'] + b;
    let f = fa + seq![false] + fb;
    assert(c.take(a.len() as int) =~= a);
    assert(f.take(a.len() as int) =~= fa);
    assert(c[a.len() as int] == '\n');
    assert(f[a.len() as int] == false);
    lemma_scan_prefix(c, f, a, fa, 0, st);
    let mid = scan_line(a, fa, st);
    // the line break itself changes nothing
    assert(scan_step(c, f, a.len() as int, mid) == (a.len() as int + 1, mid));
    let n: int = a.len() as int + 1;
    assert(c.skip(n) =~= b);
    assert(f.skip(n) =~= fb);
    lemma_scan_shift(c, f, n, b, fb, 0, mid);
}

/// The same for the scanner as `update_markdown_state` runs it, where the
/// classification of the line break as no letter or digit is the premise.
pub proof fn law_update_two_lines_as_one(a: Seq<char>, b: Seq<char>, st: Seq<Seq<char>>)
    requires
        !is_alphanumeric_char('\n'),
    ensures
        scan_line(b, alnum_flags(b), scan_line(a, alnum_flags(a), st)) == scan_line(
            a + seq!['\n'] + b,
            alnum_flags(a + seq!['\n'] + b),
            st,
        ),
{
    assert(alnum_flags(a + seq!['\n'] + b) =~= alnum_flags(a) + seq![false] + alnum_flags(b));
    law_scan_two_lines_as_one(a, alnum_flags(a), b, alnum_flags(b), st);
}

} // verus!
