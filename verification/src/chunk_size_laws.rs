//! How large a chunk can grow once the markers closed at its cut are added.
use vstd::prelude::*;
use crate::markdown::{
    SplitState, add_line, append_line, backticks3_at, close_tag, closers, inline_code_tag,
    is_fence_tag, is_pair_marker, last_index_of, lemma_newline_from, line_end, needs_cut,
    newline_from, open_tag, openers, scan_from, scan_line, scan_step, split_from, split_text,
    initial_split_state, word_run, MAX_CHUNK_BYTES,
};
use crate::markdown_laws::{
    all_lines_short, is_code_tag, is_line_start, is_marker, law_at_most_five_markers,
    law_scan_keeps_markers_well_formed, markers_well_formed,
};
use crate::scan_laws::lemma_word_run_bound;
use crate::text::{byte_len, lemma_byte_len_concat, lemma_byte_len_push, lemma_byte_len_zero};

verus! {

/// Every open code-block marker takes at most `bound` bytes.
pub open spec fn fences_within(st: Seq<Seq<char>>, bound: nat) -> bool {
    forall|i: int| 0 <= i < st.len() && is_fence_tag(#[trigger] st[i]) ==> byte_len(st[i]) <= bound
}

proof fn lemma_two_ascii(a: char)
    requires
        a == '*' || a == '_' || a == '~' || a == '|' || a == '`',
    ensures
        byte_len(seq![a, a]) == 2,
        byte_len(seq![a]) == 1,
{
    lemma_byte_len_zero(Seq::<char>::empty());
    assert(seq![a] =~= Seq::<char>::empty().push(a));
    lemma_byte_len_push(Seq::<char>::empty(), a);
    assert(seq![a, a] =~= seq![a].push(a));
    lemma_byte_len_push(seq![a], a);
}

proof fn lemma_marker_bytes(t: Seq<char>)
    requires
        is_marker(t),
        !is_code_tag(t),
    ensures
        byte_len(t) == 2,
{
    if t == seq!['*', '*'] {
        lemma_two_ascii('*');
    } else if t == seq!['_', '_'] {
        lemma_two_ascii('_');
    } else if t == seq!['~', '~'] {
        lemma_two_ascii('~');
    } else {
        lemma_two_ascii('|');
    }
}

proof fn lemma_closers_of_pairs(st: Seq<Seq<char>>)
    requires
        forall|i: int| 0 <= i < st.len() ==> is_marker(#[trigger] st[i]) && !is_code_tag(st[i]),
    ensures
        byte_len(closers(st)) <= 2 * st.len(),
        byte_len(openers(st)) <= 2 * st.len(),
    decreases st.len(),
{
    if st.len() == 0 {
        lemma_byte_len_zero(closers(st));
        lemma_byte_len_zero(openers(st));
    } else {
        let p = st.drop_last();
        assert forall|i: int| 0 <= i < p.len() implies is_marker(#[trigger] p[i]) && !is_code_tag(p[i]) by {
            assert(p[i] == st[i]);
        }
        lemma_closers_of_pairs(p);
        assert(is_marker(st[st.len() - 1]) && !is_code_tag(st[st.len() - 1]));
        lemma_marker_bytes(st.last());
        lemma_byte_len_concat(close_tag(st.last()), closers(p));
        lemma_byte_len_concat(openers(p), open_tag(st.last()));
    }
}

/// The closing markers of a well-formed list take at most 12 bytes, and
/// its opening markers at most 10 bytes more than its longest code-block marker.
pub proof fn lemma_marker_text_bounds(st: Seq<Seq<char>>, bound: nat)
    requires
        markers_well_formed(st),
        fences_within(st, bound),
    ensures
        byte_len(closers(st)) <= 12,
        byte_len(openers(st)) <= 10 + bound,
{
    law_at_most_five_markers(st);
    if st.len() == 0 {
        lemma_byte_len_zero(closers(st));
        lemma_byte_len_zero(openers(st));
    } else {
        let p = st.drop_last();
        assert forall|i: int| 0 <= i < p.len() implies is_marker(#[trigger] p[i]) && !is_code_tag(p[i]) by {
            assert(p[i] == st[i]);
        }
        lemma_closers_of_pairs(p);
        let t = st.last();
        assert(is_marker(st[st.len() - 1]));
        lemma_byte_len_concat(close_tag(t), closers(p));
        lemma_byte_len_concat(openers(p), open_tag(t));
        if is_fence_tag(t) {
            assert(close_tag(t) =~= seq!['\n'].push('`').push('`').push('`'));
            lemma_byte_len_zero(Seq::<char>::empty());
            assert(seq!['\n'] =~= Seq::<char>::empty().push('\n'));
            lemma_byte_len_push(Seq::<char>::empty(), '\n');
            lemma_byte_len_push(seq!['\n'], '`');
            lemma_byte_len_push(seq!['\n'].push('`'), '`');
            lemma_byte_len_push(seq!['\n'].push('`').push('`'), '`');
            assert(st[st.len() - 1] == t);
            assert(is_fence_tag(st[st.len() - 1]));
            lemma_byte_len_push(t, '\n');
        } else if t == inline_code_tag() {
            lemma_two_ascii('`');
        } else {
            lemma_marker_bytes(t);
        }
    }
}

proof fn lemma_subrange_bytes(c: Seq<char>, a: int, b: int)
    requires
        0 <= a <= b <= c.len(),
    ensures
        byte_len(c.subrange(a, b)) <= byte_len(c),
{
    assert(c =~= c.take(a) + c.subrange(a, b) + c.skip(b));
    lemma_byte_len_concat(c.take(a), c.subrange(a, b));
    lemma_byte_len_concat(c.take(a) + c.subrange(a, b), c.skip(b));
}

proof fn lemma_step_keeps_fences(c: Seq<char>, f: Seq<bool>, i: int, st: Seq<Seq<char>>, bound: nat)
    requires
        fences_within(st, bound),
        byte_len(c) <= bound,
        0 <= i < c.len(),
    ensures
        fences_within(scan_step(c, f, i, st).1, bound),
{
    let r2 = scan_step(c, f, i, st).1;
    if st.len() > 0 && is_fence_tag(st.last()) {
        assert forall|x: int| 0 <= x < r2.len() && is_fence_tag(#[trigger] r2[x]) implies byte_len(r2[x]) <= bound by {
            assert(r2[x] == st[x]);
        }
    } else if st.len() > 0 && st.last() == inline_code_tag() {
        assert forall|x: int| 0 <= x < r2.len() && is_fence_tag(#[trigger] r2[x]) implies byte_len(r2[x]) <= bound by {
            assert(r2[x] == st[x]);
        }
    } else if backticks3_at(c, i) {
        let r = word_run(c, f, i + 3);
        lemma_word_run_bound(c, f, i + 3);
        let t = seq!['`', '`', '`'] + c.subrange(i + 3, i + 3 + r);
        assert(t =~= c.subrange(i, i + 3 + r));
        lemma_subrange_bytes(c, i, i + 3 + r);
        assert forall|x: int| 0 <= x < r2.len() && is_fence_tag(#[trigger] r2[x]) implies byte_len(r2[x]) <= bound by {
            if x < st.len() {
                assert(r2[x] == st[x]);
            } else {
                assert(r2[x] == t);
            }
        }
    } else if (i + 1 < c.len() && is_pair_marker(c[i], c[i + 1])) || c[i] == '`' {
        let t = if i + 1 < c.len() && is_pair_marker(c[i], c[i + 1]) {
            seq![c[i], c[i + 1]]
        } else {
            inline_code_tag()
        };
        assert(!is_fence_tag(t));
        let p = last_index_of(st, t);
        crate::markdown_laws::lemma_last_index_bounds(st, t);
        assert forall|x: int| 0 <= x < r2.len() && is_fence_tag(#[trigger] r2[x]) implies byte_len(r2[x]) <= bound by {
            if p >= 0 {
                if x < p {
                    assert(r2[x] == st[x]);
                } else {
                    assert(r2[x] == st[x + 1]);
                }
            } else if x < st.len() {
                assert(r2[x] == st[x]);
            }
        }
    }
}

proof fn lemma_scan_keeps_fences(c: Seq<char>, f: Seq<bool>, i: int, st: Seq<Seq<char>>, bound: nat)
    requires
        fences_within(st, bound),
        byte_len(c) <= bound,
        0 <= i,
    ensures
        fences_within(scan_from(c, f, i, st), bound),
    decreases c.len() - i,
{
    if i < c.len() {
        lemma_step_keeps_fences(c, f, i, st, bound);
        let (j, st2) = scan_step(c, f, i, st);
        if i < j <= c.len() {
            lemma_scan_keeps_fences(c, f, j, st2, bound);
        }
    }
}

/// Lines of at most this many bytes keep every chunk within a message.
pub open spec fn short_line_bytes() -> nat {
    900
}

spec fn bounded_state(st: SplitState) -> bool {
    &&& markers_well_formed(st.stack)
    &&& fences_within(st.stack, short_line_bytes())
    &&& byte_len(st.current) <= MAX_CHUNK_BYTES
    &&& forall|k: int| 0 <= k < st.chunks.len() ==> byte_len(#[trigger] st.chunks[k]) <= 2000
}

proof fn lemma_bounded_step(st: SplitState, line: Seq<char>, lf: Seq<bool>)
    requires
        bounded_state(st),
        byte_len(line) <= short_line_bytes(),
    ensures
        bounded_state(add_line(st, line, lf)),
{
    let st2 = add_line(st, line, lf);
    law_scan_keeps_markers_well_formed(line, lf, st.stack);
    lemma_scan_keeps_fences(line, lf, 0, st.stack, short_line_bytes());
    lemma_marker_text_bounds(st.stack, short_line_bytes());
    crate::markdown_laws::lemma_append_line_bytes_pub(st.current, line);
    if needs_cut(st.current, line) {
        let chunk = st.current + closers(st.stack);
        lemma_byte_len_concat(st.current, closers(st.stack));
        crate::markdown_laws::lemma_append_line_bytes_pub(openers(st.stack), line);
        assert forall|k: int| 0 <= k < st2.chunks.len() implies byte_len(#[trigger] st2.chunks[k]) <= 2000 by {
            if k < st.chunks.len() {
                assert(st2.chunks[k] == st.chunks[k]);
            } else {
                assert(st2.chunks[k] == chunk);
            }
        }
    } else {
        assert(st2.chunks == st.chunks);
        if st.current.len() == 0 {
            assert(append_line(st.current, line) =~= line);
        }
    }
}

proof fn lemma_split_from_bounded(c: Seq<char>, f: Seq<bool>, start: int, st: SplitState)
    requires
        all_lines_short(c, short_line_bytes()),
        start >= 0,
        start == 0 || (start <= c.len() && c[start - 1] == '\n'),
        bounded_state(st),
    ensures
        bounded_state(split_from(c, f, start, st)),
    decreases c.len() - start,
{
    if start < c.len() {
        lemma_newline_from(c, start);
        assert(is_line_start(c, start));
        let e = newline_from(c, start);
        let le = line_end(c, start);
        let line = c.subrange(start, le);
        assert(byte_len(line) <= short_line_bytes());
        lemma_bounded_step(st, line, f.subrange(start, le));
        if e < c.len() {
            lemma_split_from_bounded(c, f, e + 1, add_line(st, line, f.subrange(start, le)));
        }
    }
}

/// When every line of the text takes at most 900 bytes, every chunk,
/// with the markers closed and reopened at its cuts, fits in one message
/// of 2000 bytes.
pub proof fn law_chunks_fit_a_message(c: Seq<char>, f: Seq<bool>)
    requires
        all_lines_short(c, short_line_bytes()),
    ensures
        forall|k: int| 0 <= k < split_text(c, f).len() ==> byte_len(#[trigger] split_text(c, f)[k]) <= 2000,
{
    let init = initial_split_state();
    lemma_byte_len_zero(init.current);
    assert(bounded_state(init));
    lemma_split_from_bounded(c, f, 0, init);
    let st = split_from(c, f, 0, init);
    if st.current.len() > 0 {
        let r = st.chunks.push(st.current);
        assert forall|k: int| 0 <= k < r.len() implies byte_len(#[trigger] r[k]) <= 2000 by {
            if k < st.chunks.len() {
                assert(r[k] == st.chunks[k]);
            }
        }
    }
}

} // verus!
