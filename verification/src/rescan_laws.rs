//! Every chunk but the last, scanned again line by line from no open
//! marker, leaves no marker open.
use vstd::prelude::*;
use crate::markdown::{
    SplitState, add_line, alnum_flags, append_line, backticks3_at, close_tag, closers,
    initial_split_state, inline_code_tag, is_alphanumeric_char, is_fence_tag, is_pair_marker,
    last_index_of, lemma_newline_from, line_end, needs_cut, newline_from, open_tag, openers,
    scan_from, scan_line, scan_step, split_from, split_text, toggle_tag, word_run,
};
use crate::markdown_laws::{
    cuts_from, ends_with, is_code_tag, is_marker, markers_valid, markers_well_formed, split_cuts,
};
use crate::scan_laws::{
    is_plain_char, lemma_scan_prefix, lemma_scan_shift, lemma_step_bounds, lemma_word_run_bound,
    starts_with_line,
};

verus! {

/// The line breaks and the characters of the markers are no letters or
/// digits (true of `char::is_alphanumeric`).
pub open spec fn marker_chars_not_alphanumeric() -> bool {
    &&& !is_alphanumeric_char('\n')
    &&& !is_alphanumeric_char('\r')
    &&& !is_alphanumeric_char('`')
    &&& !is_alphanumeric_char('*')
    &&& !is_alphanumeric_char('_')
    &&& !is_alphanumeric_char('~')
    &&& !is_alphanumeric_char('|')
}

/// The markers open after running `update_markdown_state` on each line of
/// `t` from `start` on (as `str::lines` cuts them), starting from `st`.
pub open spec fn rescan_from(t: Seq<char>, start: int, st: Seq<Seq<char>>) -> Seq<Seq<char>>
    decreases t.len() - start,
{
    if start < 0 || start >= t.len() {
        st
    } else {
        let e = newline_from(t, start);
        let line = t.subrange(start, line_end(t, start));
        let st2 = scan_line(line, alnum_flags(line), st);
        if e < start || e >= t.len() {
            st2
        } else {
            rescan_from(t, e + 1, st2)
        }
    }
}

/// The markers open after running `update_markdown_state` on each line of
/// `t`, starting from no open marker.
pub open spec fn rescan(t: Seq<char>) -> Seq<Seq<char>> {
    rescan_from(t, 0, seq![])
}

/// The markers open after scanning `t` as one text from no open marker.
spec fn whole(t: Seq<char>) -> Seq<Seq<char>> {
    scan_from(t, alnum_flags(t), 0, seq![])
}

/// A character that starts no marker leaves the scanner's state as it is.
proof fn lemma_plain_step(c: Seq<char>, f: Seq<bool>, p: int, st: Seq<Seq<char>>)
    requires
        0 <= p < c.len(),
        is_plain_char(c[p]),
    ensures
        scan_step(c, f, p, st) == (p + 1, st),
        scan_from(c, f, p, st) == scan_from(c, f, p + 1, st),
{
}

proof fn lemma_rescan_is_whole_from(t: Seq<char>, start: int, st: Seq<Seq<char>>)
    requires
        marker_chars_not_alphanumeric(),
        0 <= start,
    ensures
        rescan_from(t, start, st) == scan_from(t, alnum_flags(t), start, st),
    decreases t.len() - start,
{
    if start < t.len() {
        let ft = alnum_flags(t);
        lemma_newline_from(t, start);
        let e = newline_from(t, start);
        let le = line_end(t, start);
        let line = t.subrange(start, le);
        let fl = alnum_flags(line);
        let q = t.skip(start);
        let fq = ft.skip(start);
        assert(fq =~= alnum_flags(q));
        lemma_scan_shift(t, ft, start, q, fq, 0, st);
        let m = le - start;
        assert(q.take(m) =~= line);
        assert(fq.take(m) =~= fl);
        if le < t.len() {
            assert(q[m] == t[le]);
            assert(t[le] == '\r' || t[le] == '\n');
            assert(starts_with_line(q, fq, line, fl));
            lemma_scan_prefix(q, fq, line, fl, 0, st);
            let st2 = scan_line(line, fl, st);
            lemma_plain_step(q, fq, m, st2);
            if le < e {
                assert(le == e - 1);
                assert(q[m + 1] == t[e]);
                lemma_plain_step(q, fq, m + 1, st2);
            }
            assert(scan_from(q, fq, 0, st) == scan_from(q, fq, e + 1 - start, st2));
            lemma_scan_shift(t, ft, start, q, fq, e + 1 - start, st2);
            lemma_rescan_is_whole_from(t, e + 1, st2);
        } else {
            assert(q =~= line);
            assert(fq =~= fl);
        }
    }
}

proof fn lemma_drop_last_wf(s: Seq<Seq<char>>)
    requires
        markers_well_formed(s),
        s.len() > 0,
    ensures
        markers_well_formed(s.drop_last()),
        forall|i: int| 0 <= i < s.len() - 1 ==> !is_code_tag(#[trigger] s.drop_last()[i]),
{
    let r = s.drop_last();
    assert forall|i: int| 0 <= i < r.len() implies r[i] == s[i] && !is_code_tag(r[i]) by {}
}

/// A marker that is no code marker is one of the four pairs.
proof fn lemma_pair_shape(t: Seq<char>)
    requires
        is_marker(t),
        !is_code_tag(t),
    ensures
        t.len() == 2,
        t[0] == t[1],
        t[0] == '*' || t[0] == '_' || t[0] == '~' || t[0] == '|',
        close_tag(t) == t,
        open_tag(t) == t,
        !is_fence_tag(t),
{
}

/// The closing text of open markers without a code marker starts with the
/// first character of a pair.
proof fn lemma_closers_start(s: Seq<Seq<char>>)
    requires
        forall|i: int| 0 <= i < s.len() ==> is_marker(#[trigger] s[i]) && !is_code_tag(s[i]),
        s.len() > 0,
    ensures
        closers(s).len() >= 2,
        closers(s)[0] == s.last()[0],
        closers(s)[1] == s.last()[0],
        s.last()[0] == '*' || s.last()[0] == '_' || s.last()[0] == '~' || s.last()[0] == '|',
{
    let t = s.last();
    assert(is_marker(t) && !is_code_tag(t));
    lemma_pair_shape(t);
    assert(closers(s) == close_tag(t) + closers(s.drop_last()));
}

/// Scanning the closing text of the open markers `s`, starting from `s`,
/// closes every one of them.
proof fn lemma_close_tail(s: Seq<Seq<char>>, f: Seq<bool>)
    requires
        markers_well_formed(s),
        f.len() == closers(s).len(),
    ensures
        scan_from(closers(s), f, 0, s) == Seq::<Seq<char>>::empty(),
    decreases s.len(),
{
    if s.len() > 0 {
        let t = s.last();
        let rest = s.drop_last();
        let c = closers(s);
        let q = closers(rest);
        let n = close_tag(t).len() as int;
        assert(c == close_tag(t) + q);
        lemma_drop_last_wf(s);
        assert(is_marker(t));
        if is_fence_tag(t) {
            assert(c[0] == '\n');
            lemma_plain_step(c, f, 0, s);
            assert(backticks3_at(c, 1));
            assert(scan_step(c, f, 1, s) == (4int, rest));
            assert(n == 4);
        } else if t == inline_code_tag() {
            assert(n == 1);
            if rest.len() > 0 {
                assert forall|i: int| 0 <= i < rest.len() implies is_marker(#[trigger] rest[i]) && !is_code_tag(rest[i]) by {
                    assert(rest[i] == s[i]);
                }
                lemma_closers_start(rest);
                assert(c[1] == q[0]);
            }
            assert(scan_step(c, f, 0, s) == (1int, rest));
        } else {
            lemma_pair_shape(t);
            assert(n == 2);
            assert(c[0] == t[0] && c[1] == t[1]);
            assert(seq![c[0], c[1]] =~= t);
            assert(last_index_of(s, t) == s.len() - 1);
            assert(s.remove(s.len() - 1) =~= rest);
            assert(scan_step(c, f, 0, s) == (2int, rest));
        }
        assert(scan_from(c, f, 0, s) == scan_from(c, f, n, rest));
        assert(c.skip(n) =~= q);
        lemma_scan_shift(c, f, n, q, f.skip(n), 0, rest);
        lemma_close_tail(rest, f.skip(n));
    }
}

/// The opening text of markers, built from the front.
proof fn lemma_openers_front(s: Seq<Seq<char>>)
    requires
        s.len() > 0,
    ensures
        openers(s) == open_tag(s[0]) + openers(s.skip(1)),
    decreases s.len(),
{
    if s.len() > 1 {
        lemma_openers_front(s.drop_last());
        assert(s.drop_last().skip(1) =~= s.skip(1).drop_last());
        assert(s.skip(1).last() == s.last());
        assert(s.drop_last()[0] == s[0]);
    } else {
        assert(s.drop_last() =~= Seq::<Seq<char>>::empty());
        assert(s.skip(1) =~= Seq::<Seq<char>>::empty());
    }
}

proof fn lemma_language_run(o: Seq<char>, t: Seq<char>, j: int)
    requires
        marker_chars_not_alphanumeric(),
        o == t.push('\n'),
        3 <= j <= t.len(),
        forall|k: int| 3 <= k < t.len() ==> is_alphanumeric_char(#[trigger] t[k]),
    ensures
        word_run(o, alnum_flags(o), j) == t.len() - j,
    decreases t.len() - j,
{
    if j < t.len() {
        assert(o[j] == t[j]);
        lemma_language_run(o, t, j + 1);
    } else {
        assert(o[j] == '\n');
    }
}

/// Scanning the opening text of the markers `s`, starting from `st`,
/// opens exactly them.
proof fn lemma_open(s: Seq<Seq<char>>, st: Seq<Seq<char>>)
    requires
        marker_chars_not_alphanumeric(),
        markers_valid(st + s),
    ensures
        scan_from(openers(s), alnum_flags(openers(s)), 0, st) == st + s,
    decreases s.len(),
{
    let all = st + s;
    if s.len() == 0 {
        assert(all =~= st);
        assert(openers(s).len() == 0);
    } else {
        let t = s[0];
        let rest = s.skip(1);
        let o = openers(s);
        let f = alnum_flags(o);
        lemma_openers_front(s);
        assert(all[st.len() as int] == t);
        assert(is_marker(t));
        assert forall|i: int| 0 <= i < st.len() implies !is_code_tag(#[trigger] st[i]) && st[i] != t by {
            assert(all[i] == st[i]);
        }
        if !is_code_tag(t) {
            lemma_pair_shape(t);
            assert(o[0] == t[0] && o[1] == t[1]);
            assert(seq![o[0], o[1]] =~= t);
            assert(last_index_of(st, t) == -1) by {
                crate::markdown_laws::lemma_last_index_of(st, t);
            }
            assert(scan_step(o, f, 0, st) == (2int, st.push(t)));
            assert(scan_from(o, f, 0, st) == scan_from(o, f, 2, st.push(t)));
            assert(o.skip(2) =~= openers(rest));
            assert(f.skip(2) =~= alnum_flags(openers(rest)));
            lemma_scan_shift(o, f, 2, openers(rest), f.skip(2), 0, st.push(t));
            assert(st.push(t) + rest =~= all);
            lemma_open(rest, st.push(t));
        } else {
            assert(s.len() == 1) by {
                if s.len() > 1 {
                    assert(all[st.len() as int] == t);
                }
            }
            assert(rest =~= Seq::<Seq<char>>::empty());
            assert(all =~= st.push(t));
            if t == inline_code_tag() {
                assert(o =~= seq!['`']);
                assert(last_index_of(st, t) == -1) by {
                    crate::markdown_laws::lemma_last_index_of(st, t);
                }
                assert(scan_step(o, f, 0, st) == (1int, st.push(t)));
                assert(scan_from(o, f, 0, st) == scan_from(o, f, 1, st.push(t)));
            } else {
                assert(o =~= t.push('\n'));
                assert forall|k: int| 3 <= k < t.len() implies is_alphanumeric_char(#[trigger] t[k]) by {
                    assert(all[st.len() as int] == t);
                }
                lemma_language_run(o, t, 3);
                assert(seq!['`', '`', '`'] + o.subrange(3, t.len() as int) =~= t);
                assert(scan_step(o, f, 0, st) == (t.len() as int, st.push(t)));
                lemma_plain_step(o, f, t.len() as int, st.push(t));
                assert(scan_from(o, f, 0, st) == scan_from(o, f, t.len() as int, st.push(t)));
                assert(scan_from(o, f, t.len() as int + 1, st.push(t)) == st.push(t));
            }
        }
    }
}

/// `y` and `g` start with `x` and `fx`, and the flag after them, if any,
/// is not set.
spec fn extends(y: Seq<char>, g: Seq<bool>, x: Seq<char>, fx: Seq<bool>) -> bool {
    &&& x.len() == fx.len()
    &&& y.len() == g.len()
    &&& x.len() <= y.len()
    &&& y.take(x.len() as int) == x
    &&& g.take(x.len() as int) == fx
    &&& x.len() < y.len() ==> !g[x.len() as int]
}

proof fn lemma_word_run_ext(y: Seq<char>, g: Seq<bool>, x: Seq<char>, fx: Seq<bool>, j: int)
    requires
        extends(y, g, x, fx),
        0 <= j <= x.len(),
    ensures
        word_run(y, g, j) == word_run(x, fx, j),
    decreases x.len() - j,
{
    if j < x.len() {
        assert(y.take(x.len() as int)[j] == y[j]);
        assert(g.take(x.len() as int)[j] == g[j]);
        lemma_word_run_ext(y, g, x, fx, j + 1);
    }
}

/// A step that looks no further than the end of `x` is the same in `y`.
proof fn lemma_step_ext(y: Seq<char>, g: Seq<bool>, x: Seq<char>, fx: Seq<bool>, i: int, st: Seq<Seq<char>>)
    requires
        extends(y, g, x, fx),
        0 <= i,
        i + 3 <= x.len(),
    ensures
        scan_step(y, g, i, st) == scan_step(x, fx, i, st),
{
    assert forall|k: int| 0 <= k < x.len() implies y[k] == x[k] by {
        assert(y.take(x.len() as int)[k] == y[k]);
    }
    assert(backticks3_at(y, i) == backticks3_at(x, i));
    if backticks3_at(x, i) {
        lemma_word_run_ext(y, g, x, fx, i + 3);
        lemma_word_run_bound(x, fx, i + 3);
        let r = word_run(x, fx, i + 3);
        assert(y.subrange(i + 3, i + 3 + r) =~= x.subrange(i + 3, i + 3 + r));
    }
}

spec fn is_pair_char(ch: char) -> bool {
    ch == '*' || ch == '_' || ch == '~' || ch == '|'
}

/// How the closing text of open markers begins.
proof fn lemma_closers_first(s: Seq<Seq<char>>)
    requires
        markers_well_formed(s),
        s.len() > 0,
    ensures
        closers(s).len() > 0,
        is_fence_tag(s.last()) ==> closers(s)[0] == '\n',
        s.last() == inline_code_tag() ==> closers(s)[0] == '`' && (closers(s).len() == 1
            || is_pair_char(closers(s)[1])),
        !is_code_tag(s.last()) ==> {
            &&& closers(s).len() >= 2
            &&& is_pair_char(closers(s)[0])
            &&& closers(s)[0] == s.last()[0]
            &&& closers(s)[1] == closers(s)[0]
            &&& (closers(s).len() == 2 || (is_pair_char(closers(s)[2]) && closers(s)[2] != closers(s)[0]))
            &&& closers(s.drop_last()) == closers(s).skip(2)
        },
{
    let t = s.last();
    let rest = s.drop_last();
    assert(closers(s) == close_tag(t) + closers(rest));
    assert(is_marker(t));
    lemma_drop_last_wf(s);
    if rest.len() > 0 {
        assert forall|i: int| 0 <= i < rest.len() implies is_marker(#[trigger] rest[i]) && !is_code_tag(rest[i]) by {
            assert(rest[i] == s[i]);
        }
        lemma_closers_start(rest);
    }
    if !is_code_tag(t) {
        lemma_pair_shape(t);
        assert(closers(s).skip(2) =~= closers(rest));
        if rest.len() > 0 {
            let u = rest.last();
            assert(u == s[s.len() - 2]);
            assert(u != t);
            lemma_pair_shape(u);
            assert(closers(s)[2] == closers(rest)[0]);
            if u[0] == t[0] {
                assert(u =~= t);
            }
        }
    }
}

/// Scanning `x` and then the closing text of the markers it leaves open
/// closes all of them, though the closing text follows `x` on its line.
proof fn lemma_close_from(x: Seq<char>, s: Seq<Seq<char>>, i: int, st: Seq<Seq<char>>)
    requires
        marker_chars_not_alphanumeric(),
        markers_well_formed(s),
        markers_well_formed(st),
        0 <= i <= x.len(),
        scan_from(x, alnum_flags(x), i, st) == s,
    ensures
        scan_from(x + closers(s), alnum_flags(x + closers(s)), i, st) == Seq::<Seq<char>>::empty(),
    decreases x.len() - i,
{
    let n = x.len() as int;
    let f = alnum_flags(x);
    let y = x + closers(s);
    let g = alnum_flags(y);
    assert(y.take(n) =~= x);
    assert(g.take(n) =~= f);
    assert forall|k: int| 0 <= k < n implies y[k] == x[k] by {}
    if s.len() > 0 {
        lemma_closers_first(s);
        assert(y[n] == closers(s)[0]);
        assert(!g[n]);
        if closers(s).len() > 1 {
            assert(y[n + 1] == closers(s)[1]);
        }
        if closers(s).len() > 2 {
            assert(y[n + 2] == closers(s)[2]);
        }
    } else {
        assert(y =~= x);
    }
    assert(extends(y, g, x, f));
    if i == n {
        assert(st == s);
        assert(y.skip(n) =~= closers(s));
        lemma_scan_shift(y, g, n, closers(s), g.skip(n), 0, s);
        lemma_close_tail(s, g.skip(n));
    } else {
        lemma_step_bounds(x, f, i, st);
        crate::markdown_laws::lemma_step_keeps_wf(x, f, i, st);
        let (j, st2) = scan_step(x, f, i, st);
        assert(scan_from(x, f, i, st) == scan_from(x, f, j, st2));
        let top_code = st.len() > 0 && is_code_tag(st.last());
        if i + 3 <= n {
            lemma_step_ext(y, g, x, f, i, st);
            assert(scan_from(y, g, i, st) == scan_from(y, g, j, st2));
            lemma_close_from(x, s, j, st2);
        } else if i == n - 1 && !top_code && s.len() > 0 && !is_code_tag(s.last()) && x[i] == s.last()[0] {
            // the last character of `x` and the first of the closing text form a pair
            assert(j == n && st2 == st);
            assert(s == st);
            let t = s.last();
            lemma_pair_shape(t);
            assert(seq![y[i], y[i + 1]] =~= t);
            assert(last_index_of(st, t) == st.len() - 1);
            assert(st.remove(st.len() - 1) =~= st.drop_last());
            assert(scan_step(y, g, i, st) == (n + 1, st.drop_last()));
            lemma_drop_last_wf(s);
            assert(scan_step(y, g, n + 1, st.drop_last()) == (n + 2, st.drop_last()));
            assert(scan_from(y, g, i, st) == scan_from(y, g, n + 1, st.drop_last()));
            assert(scan_from(y, g, n + 1, st.drop_last()) == scan_from(y, g, n + 2, st.drop_last()));
            let q = closers(s.drop_last());
            assert(y.skip(n + 2) =~= q);
            lemma_scan_shift(y, g, n + 2, q, g.skip(n + 2), 0, s.drop_last());
            lemma_close_tail(s.drop_last(), g.skip(n + 2));
        } else {
            if j < n {
                lemma_step_bounds(x, f, j, st2);
                let (j2, st3) = scan_step(x, f, j, st2);
                assert(j2 == n);
                assert(scan_from(x, f, n, st3) == st3);
                assert(scan_from(x, f, j, st2) == scan_from(x, f, j2, st3));
            } else {
                assert(s == st2);
            }
            assert(n - 2 <= i < n);
            if st.len() > 0 && is_fence_tag(st.last()) {
                assert(!backticks3_at(x, i));
                assert(st2 == st);
                if j < n {
                    assert(!backticks3_at(x, j));
                }
                assert(s == st);
                assert(!backticks3_at(y, i)) by {
                    if backticks3_at(y, i) {
                        assert(y[n] == '`');
                    }
                }
            } else if st.len() > 0 && st.last() == inline_code_tag() {
                if i == n - 1 && x[i] == '`' {
                    assert(s == st.drop_last());
                    if s.len() > 0 {
                        lemma_drop_last_wf(st);
                        assert(s.last() == st[st.len() - 2]);
                        assert(!is_code_tag(s.last()));
                        assert(y[n] != '`');
                    } else {
                        assert(y.len() == n);
                    }
                }
            } else {
                assert forall|k: int| 0 <= k < st.len() implies !is_code_tag(#[trigger] st[k]) by {
                    if k < st.len() - 1 {
                    } else {
                        assert(st[k] == st.last());
                    }
                }
                crate::markdown_laws::lemma_last_index_of(st, inline_code_tag());
                assert(last_index_of(st, inline_code_tag()) == -1);
                assert(toggle_tag(st, inline_code_tag()) == st.push(inline_code_tag()));
                assert(!backticks3_at(y, i)) by {
                    if backticks3_at(y, i) {
                        assert(y[n] == '`');
                        assert(x[i] == '`');
                        if i == n - 1 {
                            assert(st2 == st.push(inline_code_tag()));
                            assert(s == st2);
                            assert(s.last() == inline_code_tag());
                            assert(y[n + 1] == '`');
                        } else {
                            assert(x[n - 1] == '`');
                            assert(st2 == st.push(inline_code_tag()));
                            assert(st2.drop_last() =~= st);
                            assert(s == st);
                        }
                    }
                }
                if i == n - 1 && y.len() > n && is_pair_marker(x[i], y[n]) {
                    assert(st2 == st);
                    assert(s == st);
                    assert(s.len() > 0);
                    assert(!is_code_tag(s.last()));
                }
            }
            assert(scan_step(y, g, i, st) == (j, st2));
            assert(scan_from(y, g, i, st) == scan_from(y, g, j, st2));
            lemma_close_from(x, s, j, st2);
        }
    }
}

proof fn lemma_whole_append(cur: Seq<char>, line: Seq<char>)
    requires
        marker_chars_not_alphanumeric(),
    ensures
        whole(append_line(cur, line)) == scan_line(line, alnum_flags(line), whole(cur)),
{
    let empty = Seq::<Seq<char>>::empty();
    if cur.len() == 0 {
        assert(cur + line =~= line);
    } else if cur.last() != '\n' {
        assert(cur.push('\n') + line =~= cur + seq!['\n'] + line);
        crate::scan_laws::law_update_two_lines_as_one(cur, line, empty);
    } else {
        let y = cur.drop_last();
        assert(cur + line =~= y + seq!['\n'] + line);
        crate::scan_laws::law_update_two_lines_as_one(y, line, empty);
        assert(cur =~= y + seq!['\n'] + Seq::<char>::empty());
        crate::scan_laws::law_update_two_lines_as_one(y, Seq::<char>::empty(), empty);
    }
}

/// What the splitter keeps: the chunk in progress, scanned as one text,
/// leaves open the markers the splitter tracks, and every finished chunk
/// leaves none open.
spec fn closes_state(st: SplitState) -> bool {
    &&& whole(st.current) == st.stack
    &&& markers_valid(st.stack)
    &&& forall|k: int| 0 <= k < st.chunks.len() ==> whole(#[trigger] st.chunks[k]) == Seq::<Seq<char>>::empty()
}

proof fn lemma_closes_step(st: SplitState, line: Seq<char>)
    requires
        marker_chars_not_alphanumeric(),
        closes_state(st),
    ensures
        closes_state(add_line(st, line, alnum_flags(line))),
{
    let st2 = add_line(st, line, alnum_flags(line));
    let empty = Seq::<Seq<char>>::empty();
    crate::markdown_laws::law_update_keeps_markers_valid(line, st.stack);
    if needs_cut(st.current, line) {
        let chunk = st.current + closers(st.stack);
        assert(markers_well_formed(empty));
        lemma_close_from(st.current, st.stack, 0, empty);
        assert(empty + st.stack =~= st.stack);
        lemma_open(st.stack, empty);
        lemma_whole_append(openers(st.stack), line);
        assert forall|k: int| 0 <= k < st2.chunks.len() implies whole(#[trigger] st2.chunks[k]) == empty by {
            if k < st.chunks.len() {
                assert(st2.chunks[k] == st.chunks[k]);
            } else {
                assert(st2.chunks[k] == chunk);
            }
        }
    } else {
        lemma_whole_append(st.current, line);
    }
}

proof fn lemma_split_from_closes(c: Seq<char>, start: int, st: SplitState)
    requires
        marker_chars_not_alphanumeric(),
        closes_state(st),
    ensures
        closes_state(split_from(c, alnum_flags(c), start, st)),
    decreases c.len() - start,
{
    if 0 <= start < c.len() {
        let f = alnum_flags(c);
        lemma_newline_from(c, start);
        let e = newline_from(c, start);
        let le = line_end(c, start);
        let line = c.subrange(start, le);
        assert(f.subrange(start, le) =~= alnum_flags(line));
        lemma_closes_step(st, line);
        if e >= start && e < c.len() {
            lemma_split_from_closes(c, e + 1, add_line(st, line, f.subrange(start, le)));
        }
    }
}

/// Every chunk but the last, scanned again line by line from no open
/// marker as `update_markdown_state` scans it, leaves no marker open: a
/// chunk closes all the formatting it opens or reopens. The premise is
/// that line breaks and marker characters are no letters or digits.
pub proof fn law_chunk_closes_what_it_opens(c: Seq<char>)
    requires
        marker_chars_not_alphanumeric(),
    ensures
        forall|k: int|
            0 <= k < split_text(c, alnum_flags(c)).len() - 1 ==> rescan(
                #[trigger] split_text(c, alnum_flags(c))[k],
            ) == Seq::<Seq<char>>::empty(),
{
    let f = alnum_flags(c);
    let init = initial_split_state();
    assert(whole(Seq::<char>::empty()) == Seq::<Seq<char>>::empty());
    assert(closes_state(init));
    lemma_split_from_closes(c, 0, init);
    let st = split_from(c, f, 0, init);
    let r = split_text(c, f);
    assert forall|k: int| 0 <= k < r.len() - 1 implies rescan(#[trigger] r[k]) == Seq::<Seq<char>>::empty() by {
        assert(k < st.chunks.len());
        if st.current.len() > 0 {
            assert(r[k] == st.chunks[k]);
        }
        assert(r[k] == st.chunks[k]);
        lemma_rescan_is_whole_from(r[k], 0, Seq::<Seq<char>>::empty());
    }
}

/// Chunk `k` is a text followed by the closing markers of cut `k`, and that
/// text, scanned as one, leaves exactly the markers of cut `k` open.
spec fn cuts_scanned(st: SplitState, cuts: Seq<Seq<Seq<char>>>) -> bool {
    &&& cuts.len() == st.chunks.len()
    &&& forall|k: int|
        0 <= k < st.chunks.len() ==> {
            &&& ends_with(#[trigger] st.chunks[k], closers(cuts[k]))
            &&& whole(st.chunks[k].take(st.chunks[k].len() - closers(cuts[k]).len())) == cuts[k]
        }
}

proof fn lemma_split_from_cuts_scanned(
    c: Seq<char>,
    start: int,
    st: SplitState,
    cuts: Seq<Seq<Seq<char>>>,
)
    requires
        marker_chars_not_alphanumeric(),
        closes_state(st),
        cuts_scanned(st, cuts),
    ensures
        cuts_scanned(
            split_from(c, alnum_flags(c), start, st),
            cuts_from(c, alnum_flags(c), start, st, cuts),
        ),
    decreases c.len() - start,
{
    if 0 <= start < c.len() {
        let f = alnum_flags(c);
        lemma_newline_from(c, start);
        let e = newline_from(c, start);
        let le = line_end(c, start);
        let line = c.subrange(start, le);
        let lf = f.subrange(start, le);
        assert(lf =~= alnum_flags(line));
        let st2 = add_line(st, line, lf);
        let cut = needs_cut(st.current, line);
        let cuts2 = if cut {
            cuts.push(st.stack)
        } else {
            cuts
        };
        lemma_closes_step(st, line);
        if cut {
            let chunk = st.current + closers(st.stack);
            assert(st2.chunks == st.chunks.push(chunk));
            assert forall|k: int| 0 <= k < st2.chunks.len() implies {
                &&& ends_with(#[trigger] st2.chunks[k], closers(cuts2[k]))
                &&& whole(st2.chunks[k].take(st2.chunks[k].len() - closers(cuts2[k]).len())) == cuts2[k]
            } by {
                if k < st.chunks.len() {
                    assert(st2.chunks[k] == st.chunks[k]);
                    assert(cuts2[k] == cuts[k]);
                } else {
                    assert(st2.chunks[k] == chunk);
                    assert(cuts2[k] == st.stack);
                    assert(chunk.skip(chunk.len() - closers(st.stack).len()) =~= closers(st.stack));
                    assert(chunk.take(chunk.len() - closers(st.stack).len()) =~= st.current);
                }
            }
        }
        if e >= start && e < c.len() {
            lemma_split_from_cuts_scanned(c, e + 1, st2, cuts2);
        }
    }
}

/// At every cut, what precedes the closing markers in the chunk, scanned
/// again line by line from no open marker, leaves open exactly the markers
/// of that cut (those the chunk closes and the next one reopens).
pub proof fn law_cut_markers_are_those_left_open(c: Seq<char>)
    requires
        marker_chars_not_alphanumeric(),
    ensures
        forall|k: int|
            0 <= k < split_text(c, alnum_flags(c)).len() - 1 ==> {
                let chunk = #[trigger] split_text(c, alnum_flags(c))[k];
                let cl = closers(split_cuts(c, alnum_flags(c))[k]);
                &&& k < split_cuts(c, alnum_flags(c)).len()
                &&& ends_with(chunk, cl)
                &&& rescan(chunk.take(chunk.len() - cl.len())) == split_cuts(c, alnum_flags(c))[k]
            },
{
    let f = alnum_flags(c);
    let init = initial_split_state();
    assert(whole(Seq::<char>::empty()) == Seq::<Seq<char>>::empty());
    assert(closes_state(init));
    assert(cuts_scanned(init, seq![]));
    lemma_split_from_cuts_scanned(c, 0, init, seq![]);
    let st = split_from(c, f, 0, init);
    let cuts = split_cuts(c, f);
    let r = split_text(c, f);
    assert forall|k: int| 0 <= k < r.len() - 1 implies {
        let chunk = #[trigger] r[k];
        let cl = closers(cuts[k]);
        &&& k < cuts.len()
        &&& ends_with(chunk, cl)
        &&& rescan(chunk.take(chunk.len() - cl.len())) == cuts[k]
    } by {
        assert(k < st.chunks.len());
        if st.current.len() > 0 {
            assert(r[k] == st.chunks[k]);
        }
        assert(r[k] == st.chunks[k]);
        let chunk = r[k];
        let cl = closers(cuts[k]);
        lemma_rescan_is_whole_from(chunk.take(chunk.len() - cl.len()), 0, Seq::<Seq<char>>::empty());
    }
}

} // verus!
