//! Properties of the Markdown splitter that hold for every input.
use vstd::prelude::*;
use crate::markdown::{
    MAX_CHUNK_BYTES, SplitState, add_line, append_line, backticks3_at, closers, inline_code_tag, openers,
    initial_split_state, is_fence_tag, is_pair_marker, last_index_of, lemma_newline_from,
    line_end, needs_cut, newline_from, scan_from, scan_line, scan_step, split_from, split_text,
    toggle_tag, word_run,
};
use crate::text::{byte_len, lemma_byte_len_concat, lemma_byte_len_push};
use crate::markdown::{alnum_flags, is_alphanumeric_char};
use crate::scan_laws::lemma_word_run_bound;

verus! {

/// One of the markers the scanner tracks: `**`, `__`, `~~`, `||`, a single
/// backtick, or a code-block marker.
pub open spec fn is_marker(t: Seq<char>) -> bool {
    ||| t == seq!['*', '*']
    ||| t == seq!['_', '_']
    ||| t == seq!['~', '~']
    ||| t == seq!['|', '|']
    ||| t == inline_code_tag()
    ||| is_fence_tag(t)
}

/// Inline code or a code block: inside them no other marker counts.
pub open spec fn is_code_tag(t: Seq<char>) -> bool {
    t == inline_code_tag() || is_fence_tag(t)
}

/// A list of open markers as the scanner leaves it: only markers, no
/// marker twice, and a code marker only as the innermost one.
pub open spec fn markers_well_formed(st: Seq<Seq<char>>) -> bool {
    &&& forall|i: int| 0 <= i < st.len() ==> is_marker(#[trigger] st[i])
    &&& forall|i: int| 0 <= i < st.len() - 1 ==> !is_code_tag(#[trigger] st[i])
    &&& forall|i: int, j: int| 0 <= i < j < st.len() ==> st[i] != st[j]
}

pub(crate) proof fn lemma_last_index_of(st: Seq<Seq<char>>, t: Seq<char>)
    ensures
        -1 <= last_index_of(st, t) < st.len(),
        last_index_of(st, t) >= 0 ==> st[last_index_of(st, t)] == t,
        last_index_of(st, t) == -1 ==> forall|i: int| 0 <= i < st.len() ==> st[i] != t,
    decreases st.len(),
{
    if st.len() > 0 && st.last() != t {
        lemma_last_index_of(st.drop_last(), t);
        if last_index_of(st.drop_last(), t) == -1 {
            assert forall|i: int| 0 <= i < st.len() implies st[i] != t by {
                if i < st.len() - 1 {
                    assert(st.drop_last()[i] == st[i]);
                }
            }
        }
    }
}

proof fn lemma_remove_keeps_wf(st: Seq<Seq<char>>, p: int)
    requires
        markers_well_formed(st),
        0 <= p < st.len(),
    ensures
        markers_well_formed(st.remove(p)),
{
    let r = st.remove(p);
    assert forall|i: int| 0 <= i < r.len() implies is_marker(#[trigger] r[i]) by {
        if i < p {
            assert(r[i] == st[i]);
        } else {
            assert(r[i] == st[i + 1]);
        }
    }
    assert forall|i: int| 0 <= i < r.len() - 1 implies !is_code_tag(#[trigger] r[i]) by {
        if i < p {
            assert(r[i] == st[i]);
        } else {
            assert(r[i] == st[i + 1]);
        }
    }
    assert forall|i: int, j: int| 0 <= i < j < r.len() implies r[i] != r[j] by {
        let oi = if i < p { i } else { i + 1 };
        let oj = if j < p { j } else { j + 1 };
        assert(r[i] == st[oi]);
        assert(r[j] == st[oj]);
    }
}

proof fn lemma_push_keeps_wf(st: Seq<Seq<char>>, t: Seq<char>)
    requires
        markers_well_formed(st),
        is_marker(t),
        st.len() > 0 ==> !is_code_tag(st.last()),
        forall|i: int| 0 <= i < st.len() ==> st[i] != t,
    ensures
        markers_well_formed(st.push(t)),
{
    let r = st.push(t);
    assert forall|i: int| 0 <= i < r.len() implies is_marker(#[trigger] r[i]) by {
        if i < st.len() {
            assert(r[i] == st[i]);
        }
    }
    assert forall|i: int| 0 <= i < r.len() - 1 implies !is_code_tag(#[trigger] r[i]) by {
        assert(r[i] == st[i]);
        if i < st.len() - 1 {
        } else {
            assert(st[i] == st.last());
        }
    }
    assert forall|i: int, j: int| 0 <= i < j < r.len() implies r[i] != r[j] by {
        assert(r[i] == st[i]);
        if j < st.len() {
            assert(r[j] == st[j]);
        }
    }
}

proof fn lemma_toggle_keeps_wf(st: Seq<Seq<char>>, t: Seq<char>)
    requires
        markers_well_formed(st),
        is_marker(t),
        st.len() > 0 ==> !is_code_tag(st.last()),
    ensures
        markers_well_formed(toggle_tag(st, t)),
{
    lemma_last_index_of(st, t);
    let p = last_index_of(st, t);
    if p >= 0 {
        lemma_remove_keeps_wf(st, p);
    } else {
        lemma_push_keeps_wf(st, t);
    }
}

pub(crate) proof fn lemma_step_keeps_wf(c: Seq<char>, f: Seq<bool>, i: int, st: Seq<Seq<char>>)
    requires
        markers_well_formed(st),
        0 <= i < c.len(),
    ensures
        markers_well_formed(scan_step(c, f, i, st).1),
        scan_step(c, f, i, st).0 > i,
{
    let top_code = st.len() > 0 && is_code_tag(st.last());
    if st.len() > 0 && is_fence_tag(st.last()) {
        if backticks3_at(c, i) {
            lemma_remove_keeps_wf(st, st.len() - 1);
            assert(st.remove(st.len() - 1) =~= st.drop_last());
        }
    } else if st.len() > 0 && st.last() == inline_code_tag() {
        if c[i] == '`' && (i + 1 == c.len() || c[i + 1] != '`') {
            lemma_remove_keeps_wf(st, st.len() - 1);
            assert(st.remove(st.len() - 1) =~= st.drop_last());
        }
    } else if backticks3_at(c, i) {
        let r = word_run(c, f, i + 3);
        let t = seq!['`', '`', '`'] + c.subrange(i + 3, i + 3 + r);
        assert(t[0] == '`' && t[1] == '`' && t[2] == '`');
        assert forall|k: int| 0 <= k < st.len() implies st[k] != t by {
            if k < st.len() - 1 {
                assert(!is_code_tag(st[k]));
            } else {
                assert(st[k] == st.last());
            }
        }
        lemma_push_keeps_wf(st, t);
    } else if i + 1 < c.len() && is_pair_marker(c[i], c[i + 1]) {
        let t = seq![c[i], c[i + 1]];
        assert(is_marker(t)) by {
            if c[i] == '*' {
                assert(t =~= seq!['*', '*']);
            } else if c[i] == '_' {
                assert(t =~= seq!['_', '_']);
            } else if c[i] == '~' {
                assert(t =~= seq!['~', '~']);
            } else {
                assert(t =~= seq!['|', '|']);
            }
        }
        lemma_toggle_keeps_wf(st, t);
    } else if c[i] == '`' {
        lemma_toggle_keeps_wf(st, inline_code_tag());
    }
}

proof fn lemma_scan_from_keeps_wf(c: Seq<char>, f: Seq<bool>, i: int, st: Seq<Seq<char>>)
    requires
        markers_well_formed(st),
        0 <= i,
    ensures
        markers_well_formed(scan_from(c, f, i, st)),
    decreases c.len() - i,
{
    if i < c.len() {
        lemma_step_keeps_wf(c, f, i, st);
        let (j, st2) = scan_step(c, f, i, st);
        if j <= c.len() {
            lemma_scan_from_keeps_wf(c, f, j, st2);
        }
    }
}

/// Scanning a line keeps the list of open markers well formed: it holds
/// only markers, none of them twice, and a code marker only innermost.
pub proof fn law_scan_keeps_markers_well_formed(c: Seq<char>, f: Seq<bool>, st: Seq<Seq<char>>)
    requires
        markers_well_formed(st),
    ensures
        markers_well_formed(scan_line(c, f, st)),
{
    lemma_scan_from_keeps_wf(c, f, 0, st);
}

spec fn all_nonempty(s: Seq<Seq<char>>) -> bool {
    forall|k: int| 0 <= k < s.len() ==> (#[trigger] s[k]).len() > 0
}

proof fn lemma_split_from_nonempty(c: Seq<char>, f: Seq<bool>, start: int, st: SplitState)
    requires
        all_nonempty(st.chunks),
    ensures
        all_nonempty(split_from(c, f, start, st).chunks),
    decreases c.len() - start,
{
    if 0 <= start < c.len() {
        let e = newline_from(c, start);
        let le = line_end(c, start);
        let line = c.subrange(start, le);
        let st2 = add_line(st, line, f.subrange(start, le));
        if needs_cut(st.current, line) {
            let chunk = st.current + closers(st.stack);
            assert(chunk.len() >= st.current.len());
            assert forall|k: int| 0 <= k < st2.chunks.len() implies (#[trigger] st2.chunks[k]).len() > 0 by {
                if k < st.chunks.len() {
                    assert(st2.chunks[k] == st.chunks[k]);
                }
            }
        }
        if e >= start && e < c.len() {
            lemma_split_from_nonempty(c, f, e + 1, st2);
        }
    }
}

/// No chunk of the splitter's output is empty.
pub proof fn law_chunks_are_nonempty(c: Seq<char>, f: Seq<bool>)
    ensures
        forall|k: int| 0 <= k < split_text(c, f).len() ==> (#[trigger] split_text(c, f)[k]).len() > 0,
{
    lemma_split_from_nonempty(c, f, 0, initial_split_state());
    let st = split_from(c, f, 0, initial_split_state());
    if st.current.len() > 0 {
        assert forall|k: int| 0 <= k < st.chunks.push(st.current).len() implies (
        #[trigger] st.chunks.push(st.current)[k]).len() > 0 by {
            if k < st.chunks.len() {
                assert(st.chunks.push(st.current)[k] == st.chunks[k]);
            }
        }
    }
}

/// The lines of `c` from `start` on, added one after another to `cur`.
pub open spec fn join_from(c: Seq<char>, start: int, cur: Seq<char>) -> Seq<char>
    decreases c.len() - start,
{
    if start < 0 || start >= c.len() {
        cur
    } else {
        let e = newline_from(c, start);
        let cur2 = append_line(cur, c.subrange(start, line_end(c, start)));
        if e < start || e >= c.len() {
            cur2
        } else {
            join_from(c, e + 1, cur2)
        }
    }
}

/// The lines of `c` put back together the way the splitter adds them to a chunk.
pub open spec fn joined_lines(c: Seq<char>) -> Seq<char> {
    join_from(c, 0, seq![])
}

proof fn lemma_byte_len_take_split(c: Seq<char>, a: int, b: int)
    requires
        0 <= a <= b <= c.len(),
    ensures
        byte_len(c.take(b)) == byte_len(c.take(a)) + byte_len(c.subrange(a, b)),
        byte_len(c.take(b)) <= byte_len(c),
{
    assert(c.take(b) =~= c.take(a) + c.subrange(a, b));
    lemma_byte_len_concat(c.take(a), c.subrange(a, b));
    assert(c =~= c.take(b) + c.skip(b));
    lemma_byte_len_concat(c.take(b), c.skip(b));
}

proof fn lemma_append_line_bytes(cur: Seq<char>, line: Seq<char>)
    ensures
        byte_len(append_line(cur, line)) <= byte_len(cur) + 1 + byte_len(line),
        cur.len() == 0 ==> append_line(cur, line) == line,
{
    if cur.len() > 0 && cur.last() != '\n' {
        lemma_byte_len_push(cur, '\n');
        lemma_byte_len_concat(cur.push('\n'), line);
    } else {
        lemma_byte_len_concat(cur, line);
        if cur.len() == 0 {
            assert(cur + line =~= line);
        }
    }
}

proof fn lemma_short_split_from(c: Seq<char>, f: Seq<bool>, start: int, st: SplitState)
    requires
        byte_len(c) <= MAX_CHUNK_BYTES,
        0 <= start <= c.len(),
        st.chunks.len() == 0,
        start == 0 ==> st.current.len() == 0,
        start > 0 ==> byte_len(st.current) + 1 <= byte_len(c.take(start)),
    ensures
        split_from(c, f, start, st).chunks.len() == 0,
        split_from(c, f, start, st).current == join_from(c, start, st.current),
    decreases c.len() - start,
{
    if start < c.len() {
        lemma_newline_from(c, start);
        let e = newline_from(c, start);
        let le = line_end(c, start);
        let line = c.subrange(start, le);
        let cur = st.current;
        lemma_byte_len_take_split(c, start, le);
        lemma_byte_len_take_split(c, le, e);
        assert(!needs_cut(cur, line));
        let st2 = add_line(st, line, f.subrange(start, le));
        lemma_append_line_bytes(cur, line);
        assert(byte_len(st2.current) <= byte_len(c.take(le)));
        if e < c.len() {
            assert(c.take(e + 1) =~= c.take(e).push(c[e]));
            lemma_byte_len_push(c.take(e), c[e]);
            lemma_short_split_from(c, f, e + 1, st2);
        }
    }
}

/// A text of at most `MAX_CHUNK_BYTES` bytes is never cut and gets no
/// marker added: it comes back as one chunk holding its lines, or as no
/// chunk when those lines hold no character.
pub proof fn law_short_text_is_one_chunk(c: Seq<char>, f: Seq<bool>)
    requires
        byte_len(c) <= MAX_CHUNK_BYTES,
    ensures
        split_text(c, f) == (if joined_lines(c).len() > 0 {
            seq![joined_lines(c)]
        } else {
            Seq::<Seq<char>>::empty()
        }),
{
    lemma_short_split_from(c, f, 0, initial_split_state());
    let st = split_from(c, f, 0, initial_split_state());
    assert(st.chunks =~= Seq::<Seq<char>>::empty());
    if st.current.len() > 0 {
        assert(st.chunks.push(st.current) =~= seq![joined_lines(c)]);
    }
}

/// `b` is a prefix of `a`.
pub open spec fn starts_with(a: Seq<char>, b: Seq<char>) -> bool {
    b.len() <= a.len() && a.take(b.len() as int) == b
}

/// `b` is a suffix of `a`.
pub open spec fn ends_with(a: Seq<char>, b: Seq<char>) -> bool {
    b.len() <= a.len() && a.skip(a.len() - b.len()) == b
}

/// The markers open at each cut, in the order of the cuts, when the lines
/// of `c` from `start` on are added to `st` and `cuts` holds the earlier
/// cuts: at a cut the splitter records the markers open after the lines it
/// has taken so far.
pub open spec fn cuts_from(
    c: Seq<char>,
    f: Seq<bool>,
    start: int,
    st: SplitState,
    cuts: Seq<Seq<Seq<char>>>,
) -> Seq<Seq<Seq<char>>>
    decreases c.len() - start,
{
    if start < 0 || start >= c.len() {
        cuts
    } else {
        let e = newline_from(c, start);
        let le = line_end(c, start);
        let line = c.subrange(start, le);
        let cuts2 = if needs_cut(st.current, line) {
            cuts.push(st.stack)
        } else {
            cuts
        };
        let st2 = add_line(st, line, f.subrange(start, le));
        if e < start || e >= c.len() {
            cuts2
        } else {
            cuts_from(c, f, e + 1, st2, cuts2)
        }
    }
}

/// The markers open at each cut of the text `c`, whose flags are `f`.
pub open spec fn split_cuts(c: Seq<char>, f: Seq<bool>) -> Seq<Seq<Seq<char>>> {
    cuts_from(c, f, 0, initial_split_state(), seq![])
}

/// Chunk `k` ends by closing the markers of cut `k`, and the chunk after
/// it starts by reopening them.
spec fn cuts_consistent(st: SplitState, cuts: Seq<Seq<Seq<char>>>) -> bool {
    &&& cuts.len() == st.chunks.len()
    &&& forall|k: int| 0 <= k < st.chunks.len() ==> ends_with(#[trigger] st.chunks[k], closers(cuts[k]))
    &&& forall|k: int|
        0 <= k < st.chunks.len() - 1 ==> starts_with(#[trigger] st.chunks[k + 1], openers(cuts[k]))
    &&& st.chunks.len() > 0 ==> starts_with(st.current, openers(cuts.last()))
}

proof fn lemma_prefix_extends(a: Seq<char>, b: Seq<char>, x: Seq<char>)
    requires
        starts_with(a, b),
    ensures
        starts_with(a + x, b),
{
    assert((a + x).take(b.len() as int) =~= a.take(b.len() as int));
}

proof fn lemma_append_line_extends(cur: Seq<char>, line: Seq<char>)
    ensures
        exists|x: Seq<char>| append_line(cur, line) == cur + x,
{
    if cur.len() > 0 && cur.last() != '\n' {
        assert(append_line(cur, line) =~= cur + seq!['\n'].add(line));
    } else {
        assert(append_line(cur, line) == cur + line);
    }
}

proof fn lemma_cuts_step(st: SplitState, cuts: Seq<Seq<Seq<char>>>, line: Seq<char>, lf: Seq<bool>)
    requires
        cuts_consistent(st, cuts),
    ensures
        cuts_consistent(
            add_line(st, line, lf),
            if needs_cut(st.current, line) {
                cuts.push(st.stack)
            } else {
                cuts
            },
        ),
{
    let st2 = add_line(st, line, lf);
    let cut = needs_cut(st.current, line);
    lemma_append_line_extends(if cut { openers(st.stack) } else { st.current }, line);
    if cut {
        let chunk = st.current + closers(st.stack);
        let cuts2 = cuts.push(st.stack);
        let n = st.chunks.len();
        assert(st2.chunks == st.chunks.push(chunk));
        assert(ends_with(chunk, closers(st.stack))) by {
            assert(chunk.skip(chunk.len() - closers(st.stack).len()) =~= closers(st.stack));
        }
        let x = choose|x: Seq<char>| append_line(openers(st.stack), line) == openers(st.stack) + x;
        assert(starts_with(openers(st.stack), openers(st.stack))) by {
            assert(openers(st.stack).take(openers(st.stack).len() as int) =~= openers(st.stack));
        }
        lemma_prefix_extends(openers(st.stack), openers(st.stack), x);
        assert forall|k: int| 0 <= k < st2.chunks.len() implies ends_with(
            #[trigger] st2.chunks[k],
            closers(cuts2[k]),
        ) by {
            if k < n {
                assert(st2.chunks[k] == st.chunks[k]);
                assert(cuts2[k] == cuts[k]);
            }
        }
        assert forall|k: int| 0 <= k < st2.chunks.len() - 1 implies starts_with(
            #[trigger] st2.chunks[k + 1],
            openers(cuts2[k]),
        ) by {
            assert(cuts2[k] == cuts[k]);
            if k < n - 1 {
                assert(st2.chunks[k + 1] == st.chunks[k + 1]);
            } else {
                assert(st2.chunks[k + 1] == chunk);
                assert(cuts[k] == cuts.last());
                lemma_prefix_extends(st.current, openers(cuts.last()), closers(st.stack));
            }
        }
    } else if st.chunks.len() > 0 {
        let x = choose|x: Seq<char>| append_line(st.current, line) == st.current + x;
        lemma_prefix_extends(st.current, openers(cuts.last()), x);
    }
}

proof fn lemma_split_from_cuts(
    c: Seq<char>,
    f: Seq<bool>,
    start: int,
    st: SplitState,
    cuts: Seq<Seq<Seq<char>>>,
)
    requires
        cuts_consistent(st, cuts),
    ensures
        cuts_consistent(split_from(c, f, start, st), cuts_from(c, f, start, st, cuts)),
    decreases c.len() - start,
{
    if 0 <= start < c.len() {
        let e = newline_from(c, start);
        let le = line_end(c, start);
        let line = c.subrange(start, le);
        let lf = f.subrange(start, le);
        let cuts2 = if needs_cut(st.current, line) {
            cuts.push(st.stack)
        } else {
            cuts
        };
        lemma_cuts_step(st, cuts, line, lf);
        if e >= start && e < c.len() {
            lemma_split_from_cuts(c, f, e + 1, add_line(st, line, lf), cuts2);
        }
    }
}

/// Whenever a chunk is cut, it ends with the closing markers of exactly the
/// markers that the scanner has open at that point of the text (cut `k`
/// of `split_cuts`), and the chunk after it starts with the opening
/// markers of the same list.
pub proof fn law_cut_closes_and_reopens(c: Seq<char>, f: Seq<bool>)
    ensures
        forall|k: int|
            0 <= k < split_text(c, f).len() - 1 ==> {
                &&& k < split_cuts(c, f).len()
                &&& ends_with(#[trigger] split_text(c, f)[k], closers(split_cuts(c, f)[k]))
                &&& starts_with(split_text(c, f)[k + 1], openers(split_cuts(c, f)[k]))
            },
{
    let st0 = initial_split_state();
    assert(cuts_consistent(st0, seq![]));
    lemma_split_from_cuts(c, f, 0, st0, seq![]);
    let st = split_from(c, f, 0, st0);
    let cuts = split_cuts(c, f);
    let r = split_text(c, f);
    assert forall|k: int| 0 <= k < r.len() - 1 implies {
        &&& k < cuts.len()
        &&& ends_with(#[trigger] r[k], closers(cuts[k]))
        &&& starts_with(r[k + 1], openers(cuts[k]))
    } by {
        if st.current.len() > 0 {
            assert(r == st.chunks.push(st.current));
            assert(r[k] == st.chunks[k]);
            if k < st.chunks.len() - 1 {
                assert(r[k + 1] == st.chunks[k + 1]);
            } else {
                assert(r[k + 1] == st.current);
                assert(cuts[k] == cuts.last());
            }
        }
    }
}

/// A chunk's text before its closing markers: it fits in
/// `MAX_CHUNK_BYTES` bytes, or it is a single line after the reopened markers.
pub open spec fn fits_or_single_line(body: Seq<char>) -> bool {
    ||| byte_len(body) <= MAX_CHUNK_BYTES
    ||| exists|st: Seq<Seq<char>>, line: Seq<char>|
        !line.contains('\n') && body == #[trigger] append_line(openers(st), line)
}

/// A chunk is a text that fits (or a single overlong line), followed by
/// the markers closed at its cut.
pub open spec fn sized_chunk(chunk: Seq<char>) -> bool {
    exists|body: Seq<char>, st: Seq<Seq<char>>|
        #![trigger fits_or_single_line(body), closers(st)]
        chunk == body + closers(st) && fits_or_single_line(body)
}

spec fn sized_state(st: SplitState) -> bool {
    &&& forall|k: int| 0 <= k < st.chunks.len() ==> sized_chunk(#[trigger] st.chunks[k])
    &&& fits_or_single_line(st.current)
}

proof fn lemma_line_has_no_newline(c: Seq<char>, start: int)
    requires
        0 <= start < c.len(),
    ensures
        start <= line_end(c, start) <= c.len(),
        !c.subrange(start, line_end(c, start)).contains('\n'),
{
    lemma_newline_from(c, start);
    let le = line_end(c, start);
    let line = c.subrange(start, le);
    assert forall|i: int| 0 <= i < line.len() implies line[i] != '\n' by {
        assert(line[i] == c[start + i]);
    }
}

proof fn lemma_split_from_sized(c: Seq<char>, f: Seq<bool>, start: int, st: SplitState)
    requires
        sized_state(st),
    ensures
        sized_state(split_from(c, f, start, st)),
    decreases c.len() - start,
{
    if 0 <= start < c.len() {
        let e = newline_from(c, start);
        lemma_line_has_no_newline(c, start);
        let le = line_end(c, start);
        let line = c.subrange(start, le);
        let st2 = add_line(st, line, f.subrange(start, le));
        if needs_cut(st.current, line) {
            let chunk = st.current + closers(st.stack);
            assert(sized_chunk(chunk));
            assert forall|k: int| 0 <= k < st2.chunks.len() implies sized_chunk(#[trigger] st2.chunks[k]) by {
                if k < st.chunks.len() {
                    assert(st2.chunks[k] == st.chunks[k]);
                } else {
                    assert(st2.chunks[k] == chunk);
                }
            }
            assert(st2.current == append_line(openers(st.stack), line));
        } else {
            assert(st2.chunks == st.chunks);
            if st.current.len() > 0 {
                lemma_append_line_bytes(st.current, line);
            } else {
                assert(openers(Seq::<Seq<char>>::empty()) =~= Seq::<char>::empty());
                assert(st.current =~= openers(Seq::<Seq<char>>::empty()));
                assert(st2.current == append_line(openers(Seq::<Seq<char>>::empty()), line));
            }
        }
        if e >= start && e < c.len() {
            lemma_split_from_sized(c, f, e + 1, st2);
        }
    }
}

/// Every chunk is text that fits in `MAX_CHUNK_BYTES` bytes, or a single
/// line (after the reopened markers) that is too long by itself, followed
/// by the markers closed at its cut: a line is only ever added to a chunk
/// that still has room for it.
pub proof fn law_chunks_fit_or_hold_one_line(c: Seq<char>, f: Seq<bool>)
    ensures
        forall|k: int| 0 <= k < split_text(c, f).len() ==> sized_chunk(#[trigger] split_text(c, f)[k]),
{
    let init = initial_split_state();
    assert(byte_len(init.current) <= MAX_CHUNK_BYTES) by {
        assert(init.current =~= Seq::<char>::empty());
        crate::text::lemma_byte_len_zero(init.current);
    }
    lemma_split_from_sized(c, f, 0, init);
    let st = split_from(c, f, 0, init);
    if st.current.len() > 0 {
        let r = st.chunks.push(st.current);
        assert(closers(Seq::<Seq<char>>::empty()) =~= Seq::<char>::empty());
        assert(st.current == st.current + closers(Seq::<Seq<char>>::empty()));
        assert(sized_chunk(st.current));
        assert forall|k: int| 0 <= k < r.len() implies sized_chunk(#[trigger] r[k]) by {
            if k < st.chunks.len() {
                assert(r[k] == st.chunks[k]);
            }
        }
    }
}

/// A line of `c` starts at `s`.
pub open spec fn is_line_start(c: Seq<char>, s: int) -> bool {
    0 <= s < c.len() && (s == 0 || c[s - 1] == '\n')
}

/// `part` occurs in `t` as a contiguous piece.
pub open spec fn occurs_in(t: Seq<char>, part: Seq<char>) -> bool {
    exists|p: int| 0 <= p && p + part.len() <= t.len() && #[trigger] t.subrange(p, p + part.len()) == part
}

spec fn located(st: SplitState, part: Seq<char>) -> bool {
    ||| exists|k: int| 0 <= k < st.chunks.len() && #[trigger] occurs_in(st.chunks[k], part)
    ||| occurs_in(st.current, part)
}

proof fn lemma_occurs_extends(t: Seq<char>, x: Seq<char>, part: Seq<char>)
    requires
        occurs_in(t, part),
    ensures
        occurs_in(t + x, part),
{
    let p = choose|p: int| 0 <= p && p + part.len() <= t.len() && #[trigger] t.subrange(p, p + part.len()) == part;
    assert((t + x).subrange(p, p + part.len()) =~= t.subrange(p, p + part.len()));
}

proof fn lemma_occurs_at_end(t: Seq<char>, part: Seq<char>)
    ensures
        occurs_in(t + part, part),
{
    assert((t + part).subrange(t.len() as int, t.len() + part.len() as int) =~= part);
}

proof fn lemma_line_in_appended(cur: Seq<char>, line: Seq<char>)
    ensures
        occurs_in(append_line(cur, line), line),
        occurs_in(cur, line) ==> occurs_in(append_line(cur, line), line),
{
    if cur.len() > 0 && cur.last() != '\n' {
        lemma_occurs_at_end(cur.push('\n'), line);
    } else {
        lemma_occurs_at_end(cur, line);
    }
}

proof fn lemma_located_after_add(st: SplitState, line: Seq<char>, lf: Seq<bool>, part: Seq<char>)
    requires
        located(st, part),
    ensures
        located(add_line(st, line, lf), part),
{
    let st2 = add_line(st, line, lf);
    let cut = needs_cut(st.current, line);
    lemma_append_line_extends(if cut { openers(st.stack) } else { st.current }, line);
    if exists|k: int| 0 <= k < st.chunks.len() && #[trigger] occurs_in(st.chunks[k], part) {
        let k = choose|k: int| 0 <= k < st.chunks.len() && #[trigger] occurs_in(st.chunks[k], part);
        if cut {
            assert(st2.chunks[k] == st.chunks[k]);
        }
        assert(occurs_in(st2.chunks[k], part));
    } else {
        if cut {
            lemma_occurs_extends(st.current, closers(st.stack), part);
            let n = st.chunks.len() as int;
            assert(st2.chunks[n] == st.current + closers(st.stack));
            assert(occurs_in(st2.chunks[n], part));
        } else {
            let x = choose|x: Seq<char>| append_line(st.current, line) == st.current + x;
            lemma_occurs_extends(st.current, x, part);
        }
    }
}

proof fn lemma_split_from_keeps_lines(c: Seq<char>, f: Seq<bool>, start: int, st: SplitState)
    requires
        0 <= start,
        forall|s: int|
            is_line_start(c, s) && s < start && line_end(c, s) > s ==> located(
                st,
                #[trigger] c.subrange(s, line_end(c, s)),
            ),
    ensures
        forall|s: int|
            is_line_start(c, s) && line_end(c, s) > s ==> located(
                split_from(c, f, start, st),
                #[trigger] c.subrange(s, line_end(c, s)),
            ),
    decreases c.len() - start,
{
    if start < c.len() {
        lemma_newline_from(c, start);
        let e = newline_from(c, start);
        let le = line_end(c, start);
        let line = c.subrange(start, le);
        let st2 = add_line(st, line, f.subrange(start, le));
        lemma_line_in_appended(if needs_cut(st.current, line) { openers(st.stack) } else { st.current }, line);
        assert(located(st2, line));
        assert forall|s: int|
            is_line_start(c, s) && s < e + 1 && line_end(c, s) > s implies located(
                st2,
                #[trigger] c.subrange(s, line_end(c, s)),
            ) by {
            if s < start {
                lemma_located_after_add(st, line, f.subrange(start, le), c.subrange(s, line_end(c, s)));
            } else if s > start {
                assert(c[s - 1] == '\n');
                assert(false);
            }
        }
        if e < c.len() {
            lemma_split_from_keeps_lines(c, f, e + 1, st2);
        } else {
            assert forall|s: int|
                is_line_start(c, s) && line_end(c, s) > s implies located(
                    st2,
                    #[trigger] c.subrange(s, line_end(c, s)),
                ) by {
                assert(s < e + 1);
            }
        }
    } else {
        assert forall|s: int|
            is_line_start(c, s) && line_end(c, s) > s implies located(
                st,
                #[trigger] c.subrange(s, line_end(c, s)),
            ) by {
            assert(s < start);
        }
    }
}

/// No line is lost: every non-empty line of the text occurs, whole, in
/// one of the chunks.
pub proof fn law_every_line_is_in_a_chunk(c: Seq<char>, f: Seq<bool>)
    ensures
        forall|s: int|
            is_line_start(c, s) && line_end(c, s) > s ==> exists|k: int|
                0 <= k < split_text(c, f).len() && #[trigger] occurs_in(
                    split_text(c, f)[k],
                    c.subrange(s, line_end(c, s)),
                ),
{
    let init = initial_split_state();
    lemma_split_from_keeps_lines(c, f, 0, init);
    let st = split_from(c, f, 0, init);
    assert forall|s: int| is_line_start(c, s) && line_end(c, s) > s implies exists|k: int|
        0 <= k < split_text(c, f).len() && #[trigger] occurs_in(
            split_text(c, f)[k],
            c.subrange(s, line_end(c, s)),
        ) by {
        lemma_line_has_no_newline(c, s);
        let part = c.subrange(s, line_end(c, s));
        assert(located(st, part));
        if exists|k: int| 0 <= k < st.chunks.len() && #[trigger] occurs_in(st.chunks[k], part) {
            let k = choose|k: int| 0 <= k < st.chunks.len() && #[trigger] occurs_in(st.chunks[k], part);
            if st.current.len() > 0 {
                assert(st.chunks.push(st.current)[k] == st.chunks[k]);
            }
            assert(occurs_in(split_text(c, f)[k], part));
        } else {
            let p = choose|p: int| 0 <= p && p + part.len() <= st.current.len() && #[trigger] st.current.subrange(p, p + part.len()) == part;
            assert(st.current.len() > 0);
            let n = st.chunks.len() as int;
            assert(st.chunks.push(st.current)[n] == st.current);
            assert(occurs_in(split_text(c, f)[n], part));
        }
    }
}

/// The language name of every open code block is made of letters and
/// digits.
pub open spec fn fence_languages_alphanumeric(st: Seq<Seq<char>>) -> bool {
    forall|i: int, k: int|
        0 <= i < st.len() && is_fence_tag(st[i]) && 3 <= k < st[i].len() ==> is_alphanumeric_char(
            #[trigger] st[i][k],
        )
}

/// The open markers as `update_markdown_state` leaves them: well formed,
/// and code-block languages made of letters and digits.
pub open spec fn markers_valid(st: Seq<Seq<char>>) -> bool {
    markers_well_formed(st) && fence_languages_alphanumeric(st)
}

proof fn lemma_word_run_flag_at(c: Seq<char>, f: Seq<bool>, j: int, m: int)
    requires
        0 <= j <= m < j + word_run(c, f, j),
    ensures
        m < c.len() && m < f.len() && f[m],
    decreases m - j,
{
    assert(0 <= j < c.len() && j < f.len() && f[j]);
    if m > j {
        lemma_word_run_flag_at(c, f, j + 1, m);
    }
}

proof fn lemma_step_keeps_languages(c: Seq<char>, i: int, st: Seq<Seq<char>>)
    requires
        fence_languages_alphanumeric(st),
        0 <= i < c.len(),
    ensures
        fence_languages_alphanumeric(scan_step(c, alnum_flags(c), i, st).1),
{
    let f = alnum_flags(c);
    let r2 = scan_step(c, f, i, st).1;
    // every marker after the step was there before, or is new
    if st.len() > 0 && is_fence_tag(st.last()) {
        if backticks3_at(c, i) {
            assert forall|x: int, k: int| 0 <= x < r2.len() && is_fence_tag(r2[x]) && 3 <= k < r2[x].len()
                implies is_alphanumeric_char(#[trigger] r2[x][k]) by {
                assert(r2[x] == st[x]);
            }
        }
    } else if st.len() > 0 && st.last() == inline_code_tag() {
        if c[i] == '`' && (i + 1 == c.len() || c[i + 1] != '`') {
            assert forall|x: int, k: int| 0 <= x < r2.len() && is_fence_tag(r2[x]) && 3 <= k < r2[x].len()
                implies is_alphanumeric_char(#[trigger] r2[x][k]) by {
                assert(r2[x] == st[x]);
            }
        }
    } else if backticks3_at(c, i) {
        let r = word_run(c, f, i + 3);
        let t = seq!['`', '`', '`'] + c.subrange(i + 3, i + 3 + r);
        lemma_word_run_bound(c, f, i + 3);
        assert forall|x: int, k: int| 0 <= x < r2.len() && is_fence_tag(r2[x]) && 3 <= k < r2[x].len()
            implies is_alphanumeric_char(#[trigger] r2[x][k]) by {
            if x < st.len() {
                assert(r2[x] == st[x]);
            } else {
                assert(r2[x] == t);
                assert(t[k] == c[i + k]);
                lemma_word_run_flag_at(c, f, i + 3, i + k);
            }
        }
    } else {
        let t = if i + 1 < c.len() && is_pair_marker(c[i], c[i + 1]) {
            seq![c[i], c[i + 1]]
        } else {
            inline_code_tag()
        };
        if (i + 1 < c.len() && is_pair_marker(c[i], c[i + 1])) || c[i] == '`' {
            assert(!is_fence_tag(t));
            lemma_last_index_of(st, t);
            let p = last_index_of(st, t);
            assert forall|x: int, k: int| 0 <= x < r2.len() && is_fence_tag(r2[x]) && 3 <= k < r2[x].len()
                implies is_alphanumeric_char(#[trigger] r2[x][k]) by {
                if p >= 0 {
                    if x < p {
                        assert(r2[x] == st[x]);
                    } else {
                        assert(r2[x] == st[x + 1]);
                    }
                } else if x < st.len() {
                    assert(r2[x] == st[x]);
                }
            }
        }
    }
}

proof fn lemma_scan_keeps_languages(c: Seq<char>, i: int, st: Seq<Seq<char>>)
    requires
        fence_languages_alphanumeric(st),
        0 <= i,
    ensures
        fence_languages_alphanumeric(scan_from(c, alnum_flags(c), i, st)),
    decreases c.len() - i,
{
    if i < c.len() {
        lemma_step_keeps_languages(c, i, st);
        let (j, st2) = scan_step(c, alnum_flags(c), i, st);
        if i < j <= c.len() {
            lemma_scan_keeps_languages(c, j, st2);
        }
    }
}

/// A well-formed list of open markers holds at most five: each of `**`,
/// `__`, `~~`, `||` at most once, and one code marker innermost.
pub proof fn law_at_most_five_markers(st: Seq<Seq<char>>)
    requires
        markers_well_formed(st),
    ensures
        st.len() <= 5,
{
    if st.len() > 0 {
        let p = st.drop_last();
        let pairs = set![seq!['*', '*'], seq!['_', '_'], seq!['~', '~'], seq!['|', '|']];
        assert forall|i: int| 0 <= i < p.len() implies pairs.contains(#[trigger] p[i]) by {
            assert(p[i] == st[i]);
            assert(is_marker(st[i]) && !is_code_tag(st[i]));
        }
        assert(p.no_duplicates()) by {
            assert forall|i: int, j: int| 0 <= i < p.len() && 0 <= j < p.len() && i != j implies p[i] != p[j] by {
                if i < j {
                    assert(st[i] != st[j]);
                } else {
                    assert(st[j] != st[i]);
                }
            }
        }
        p.unique_seq_to_set();
        assert(p.to_set().subset_of(pairs));
        assert(seq!['*', '*'] != seq!['_', '_'] && seq!['*', '*'] != seq!['~', '~'] && seq!['*', '*'] != seq!['|', '|']
            && seq!['_', '_'] != seq!['~', '~'] && seq!['_', '_'] != seq!['|', '|'] && seq!['~', '~'] != seq!['|', '|']) by {
            assert(seq!['*', '*'][0] != seq!['_', '_'][0]);
            assert(seq!['*', '*'][0] != seq!['~', '~'][0]);
            assert(seq!['*', '*'][0] != seq!['|', '|'][0]);
            assert(seq!['_', '_'][0] != seq!['~', '~'][0]);
            assert(seq!['_', '_'][0] != seq!['|', '|'][0]);
            assert(seq!['~', '~'][0] != seq!['|', '|'][0]);
        }
        assert(pairs.len() == 4);
        vstd::set_lib::lemma_len_subset(p.to_set(), pairs);
    }
}

/// `update_markdown_state` keeps the open markers valid: only the markers,
/// none twice, a code marker only innermost, every code-block language
/// made of letters and digits; so at most five markers are ever open.
pub proof fn law_update_keeps_markers_valid(c: Seq<char>, st: Seq<Seq<char>>)
    requires
        markers_valid(st),
    ensures
        markers_valid(scan_line(c, alnum_flags(c), st)),
        scan_line(c, alnum_flags(c), st).len() <= 5,
{
    law_scan_keeps_markers_well_formed(c, alnum_flags(c), st);
    lemma_scan_keeps_languages(c, 0, st);
    law_at_most_five_markers(scan_line(c, alnum_flags(c), st));
}

/// The number of lines of `c` from `start` on, as `str::lines` counts them.
pub open spec fn line_count_from(c: Seq<char>, start: int) -> nat
    decreases c.len() - start,
{
    if start < 0 || start >= c.len() {
        0
    } else {
        let e = newline_from(c, start);
        if e < start || e >= c.len() {
            1
        } else {
            1 + line_count_from(c, e + 1)
        }
    }
}

/// The number of lines of `c`.
pub open spec fn line_count(c: Seq<char>) -> nat {
    line_count_from(c, 0)
}

spec fn pieces(st: SplitState) -> nat {
    st.chunks.len() + if st.current.len() > 0 {
        1nat
    } else {
        0nat
    }
}

proof fn lemma_split_from_count(c: Seq<char>, f: Seq<bool>, start: int, st: SplitState)
    ensures
        pieces(split_from(c, f, start, st)) <= pieces(st) + line_count_from(c, start),
    decreases c.len() - start,
{
    if 0 <= start < c.len() {
        let e = newline_from(c, start);
        let le = line_end(c, start);
        let line = c.subrange(start, le);
        let st2 = add_line(st, line, f.subrange(start, le));
        assert(pieces(st2) <= pieces(st) + 1);
        if e >= start && e < c.len() {
            lemma_split_from_count(c, f, e + 1, st2);
        }
    }
}

/// There are never more chunks than lines.
pub proof fn law_at_most_one_chunk_per_line(c: Seq<char>, f: Seq<bool>)
    ensures
        split_text(c, f).len() <= line_count(c),
{
    lemma_split_from_count(c, f, 0, initial_split_state());
}

proof fn lemma_split_from_all_empty(c: Seq<char>, f: Seq<bool>, start: int, st: SplitState)
    requires
        forall|s: int| is_line_start(c, s) ==> line_end(c, s) <= s,
        start >= 0,
        start == 0 || (start <= c.len() && c[start - 1] == '\n'),
        st.chunks.len() == 0,
        st.current.len() == 0,
    ensures
        split_from(c, f, start, st).chunks.len() == 0,
        split_from(c, f, start, st).current.len() == 0,
    decreases c.len() - start,
{
    if start < c.len() {
        lemma_newline_from(c, start);
        assert(is_line_start(c, start));
        let e = newline_from(c, start);
        let le = line_end(c, start);
        let line = c.subrange(start, le);
        assert(line.len() == 0);
        let st2 = add_line(st, line, f.subrange(start, le));
        assert(st2.current =~= Seq::<char>::empty());
        if e < c.len() {
            lemma_split_from_all_empty(c, f, e + 1, st2);
        }
    }
}

/// There is no chunk exactly when every line of the text is empty.
pub proof fn law_no_chunk_iff_all_lines_empty(c: Seq<char>, f: Seq<bool>)
    ensures
        split_text(c, f).len() == 0 <==> (forall|s: int| is_line_start(c, s) ==> line_end(c, s) <= s),
{
    if forall|s: int| is_line_start(c, s) ==> line_end(c, s) <= s {
        lemma_split_from_all_empty(c, f, 0, initial_split_state());
    } else {
        let s = choose|s: int| !(is_line_start(c, s) ==> line_end(c, s) <= s);
        law_every_line_is_in_a_chunk(c, f);
        assert(is_line_start(c, s) && line_end(c, s) > s);
        assert(exists|k: int|
            0 <= k < split_text(c, f).len() && #[trigger] occurs_in(
                split_text(c, f)[k],
                c.subrange(s, line_end(c, s)),
            ));
    }
}

/// `c` holds none of the characters that make a marker.
pub open spec fn has_no_markers(c: Seq<char>) -> bool {
    forall|i: int|
        0 <= i < c.len() ==> #[trigger] c[i] != '*' && c[i] != '_' && c[i] != '~' && c[i] != '|' && c[i]
            != '`'
}

/// Every line of `c` holds at least one character.
pub open spec fn all_lines_nonempty(c: Seq<char>) -> bool {
    forall|s: int| is_line_start(c, s) ==> line_end(c, s) > s
}

/// The lines of `c` from `start` on, as `str::lines` gives them.
pub open spec fn lines_from(c: Seq<char>, start: int) -> Seq<Seq<char>>
    decreases c.len() - start,
{
    if start < 0 || start >= c.len() {
        seq![]
    } else {
        let e = newline_from(c, start);
        let line = c.subrange(start, line_end(c, start));
        if e < start || e >= c.len() {
            seq![line]
        } else {
            seq![line] + lines_from(c, e + 1)
        }
    }
}

/// Pieces of text joined by line breaks.
pub open spec fn join_with_newlines(s: Seq<Seq<char>>) -> Seq<char>
    decreases s.len(),
{
    if s.len() == 0 {
        seq![]
    } else if s.len() == 1 {
        s[0]
    } else {
        join_with_newlines(s.drop_last()) + seq!['\n'] + s.last()
    }
}

proof fn lemma_join_push(s: Seq<Seq<char>>, x: Seq<char>)
    ensures
        join_with_newlines(s.push(x)) == if s.len() == 0 {
            x
        } else {
            join_with_newlines(s) + seq!['\n'] + x
        },
{
    assert(s.push(x).drop_last() =~= s);
}

proof fn lemma_plain_scan(c: Seq<char>, f: Seq<bool>, i: int)
    requires
        has_no_markers(c),
        0 <= i,
    ensures
        scan_from(c, f, i, seq![]) == Seq::<Seq<char>>::empty(),
    decreases c.len() - i,
{
    if i < c.len() {
        assert(c[i] != '`' && c[i] != '*' && c[i] != '_' && c[i] != '~' && c[i] != '|');
        if i + 1 < c.len() {
            assert(c[i + 1] != '*');
        }
        assert(scan_step(c, f, i, seq![]) == (i + 1, Seq::<Seq<char>>::empty()));
        lemma_plain_scan(c, f, i + 1);
    }
}

proof fn lemma_plain_line(c: Seq<char>, f: Seq<bool>, start: int)
    requires
        has_no_markers(c),
        0 <= start < c.len(),
    ensures
        scan_line(c.subrange(start, line_end(c, start)), f.subrange(start, line_end(c, start)), seq![])
            == Seq::<Seq<char>>::empty(),
        has_no_markers(c.subrange(start, line_end(c, start))),
        !c.subrange(start, line_end(c, start)).contains('\n'),
{
    lemma_line_has_no_newline(c, start);
    let line = c.subrange(start, line_end(c, start));
    assert forall|i: int| 0 <= i < line.len() implies #[trigger] line[i] != '*' && line[i] != '_'
        && line[i] != '~' && line[i] != '|' && line[i] != '`' by {
        assert(line[i] == c[start + i]);
    }
    lemma_plain_scan(line, f.subrange(start, line_end(c, start)), 0);
}

spec fn plain_joined(st: SplitState, done: Seq<Seq<char>>) -> bool {
    &&& st.stack.len() == 0
    &&& done.len() == 0 ==> st.chunks.len() == 0 && st.current.len() == 0
    &&& done.len() > 0 ==> st.current.len() > 0 && st.current.last() != '\n' && join_with_newlines(
        st.chunks.push(st.current),
    ) == join_with_newlines(done)
}

proof fn lemma_plain_step(st: SplitState, done: Seq<Seq<char>>, line: Seq<char>, lf: Seq<bool>)
    requires
        plain_joined(st, done),
        line.len() > 0,
        line.last() != '\n',
        scan_line(line, lf, seq![]) == Seq::<Seq<char>>::empty(),
    ensures
        plain_joined(add_line(st, line, lf), done.push(line)),
{
    assert(st.stack =~= Seq::<Seq<char>>::empty());
    let st2 = add_line(st, line, lf);
    assert(st2.stack.len() == 0);
    assert(closers(Seq::<Seq<char>>::empty()) =~= Seq::<char>::empty());
    assert(openers(Seq::<Seq<char>>::empty()) =~= Seq::<char>::empty());
    let done2 = done.push(line);
    if done.len() == 0 {
        assert(st2.current =~= line);
        assert(st2.chunks.len() == 0);
        lemma_join_push(st2.chunks, st2.current);
        lemma_join_push(done, line);
    } else if needs_cut(st.current, line) {
        assert(st2.chunks == st.chunks.push(st.current + Seq::<char>::empty()));
        assert(st.current + Seq::<char>::empty() =~= st.current);
        assert(st2.current =~= line);
        lemma_join_push(st2.chunks, line);
        lemma_join_push(done, line);
    } else {
        assert(st2.current == st.current.push('\n') + line);
        assert(st2.current.last() == line.last());
        lemma_join_push(st.chunks, st.current);
        lemma_join_push(st.chunks, st2.current);
        lemma_join_push(done, line);
        assert(join_with_newlines(st2.chunks.push(st2.current)) =~= join_with_newlines(done2));
    }
}

proof fn lemma_split_from_plain(c: Seq<char>, f: Seq<bool>, start: int, st: SplitState, done: Seq<Seq<char>>)
    requires
        has_no_markers(c),
        all_lines_nonempty(c),
        start >= 0,
        start == 0 || (start <= c.len() && c[start - 1] == '\n'),
        plain_joined(st, done),
    ensures
        plain_joined(split_from(c, f, start, st), done + lines_from(c, start)),
    decreases c.len() - start,
{
    if start < c.len() {
        lemma_newline_from(c, start);
        assert(is_line_start(c, start));
        lemma_plain_line(c, f, start);
        let e = newline_from(c, start);
        let le = line_end(c, start);
        let line = c.subrange(start, le);
        assert(line.len() > 0);
        assert(line[line.len() - 1] == line.last());
        assert(line.last() != '\n');
        lemma_plain_step(st, done, line, f.subrange(start, le));
        let st2 = add_line(st, line, f.subrange(start, le));
        let done2 = done.push(line);
        if e < c.len() {
            lemma_split_from_plain(c, f, e + 1, st2, done2);
            assert(done + lines_from(c, start) =~= done2 + lines_from(c, e + 1));
        } else {
            assert(done + lines_from(c, start) =~= done2);
        }
    } else {
        assert(done + lines_from(c, start) =~= done);
    }
}

/// A text without formatting and without empty lines comes back whole:
/// its chunks joined by line breaks are its lines joined by line breaks.
pub proof fn law_plain_text_is_preserved(c: Seq<char>, f: Seq<bool>)
    requires
        has_no_markers(c),
        all_lines_nonempty(c),
    ensures
        join_with_newlines(split_text(c, f)) == join_with_newlines(lines_from(c, 0)),
{
    let init = initial_split_state();
    assert(plain_joined(init, Seq::<Seq<char>>::empty()));
    lemma_split_from_plain(c, f, 0, init, Seq::<Seq<char>>::empty());
    assert(Seq::<Seq<char>>::empty() + lines_from(c, 0) =~= lines_from(c, 0));
}

/// The first line of a chunk.
pub open spec fn first_line(x: Seq<char>) -> Seq<char> {
    x.take(newline_from(x, 0))
}

/// Every line of `c` takes at most `bound` bytes.
pub open spec fn all_lines_short(c: Seq<char>, bound: nat) -> bool {
    forall|s: int| is_line_start(c, s) ==> byte_len(#[trigger] c.subrange(s, line_end(c, s))) <= bound
}

/// Every line of `c` fits in `MAX_CHUNK_BYTES` bytes.
pub open spec fn all_lines_fit(c: Seq<char>) -> bool {
    all_lines_short(c, MAX_CHUNK_BYTES as nat)
}

proof fn lemma_newline_from_concat(x: Seq<char>, y: Seq<char>, i: int)
    requires
        0 <= i <= x.len(),
        y.len() > 0,
        y[0] == '\n',
    ensures
        newline_from(x + y, i) == newline_from(x, i),
    decreases x.len() - i,
{
    if i < x.len() {
        assert((x + y)[i] == x[i]);
        lemma_newline_from_concat(x, y, i + 1);
    } else {
        assert((x + y)[i] == y[0]);
    }
}

proof fn lemma_first_line_extends(x: Seq<char>, l: Seq<char>)
    requires
        x.len() > 0,
    ensures
        first_line(x.push('\n') + l) == first_line(x),
{
    let y = seq!['\n'] + l;
    assert(x.push('\n') + l =~= x + y);
    lemma_newline_from_concat(x, y, 0);
    lemma_newline_from(x, 0);
    assert((x + y).take(newline_from(x, 0)) =~= x.take(newline_from(x, 0)));
}

proof fn lemma_first_line_of_line(l: Seq<char>)
    requires
        !l.contains('\n'),
    ensures
        first_line(l) == l,
{
    lemma_newline_from(l, 0);
    if newline_from(l, 0) < l.len() {
        assert(l[newline_from(l, 0)] == '\n');
        assert(l.contains('\n'));
    }
    assert(l.take(l.len() as int) =~= l);
}

spec fn plain_sized(st: SplitState) -> bool {
    &&& st.stack.len() == 0
    &&& forall|k: int| 0 <= k < st.chunks.len() ==> byte_len(#[trigger] st.chunks[k]) <= MAX_CHUNK_BYTES
    &&& byte_len(st.current) <= MAX_CHUNK_BYTES
    &&& forall|k: int|
        0 <= k < st.chunks.len() - 1 ==> byte_len(#[trigger] st.chunks[k]) + 1 + byte_len(
            first_line(st.chunks[k + 1]),
        ) > MAX_CHUNK_BYTES
    &&& st.chunks.len() > 0 ==> st.current.len() > 0 && byte_len(st.chunks.last()) + 1 + byte_len(
        first_line(st.current),
    ) > MAX_CHUNK_BYTES
    &&& st.current.len() > 0 ==> st.current.last() != '\n'
}

proof fn lemma_sized_step(st: SplitState, line: Seq<char>, lf: Seq<bool>)
    requires
        plain_sized(st),
        line.len() > 0,
        !line.contains('\n'),
        byte_len(line) <= MAX_CHUNK_BYTES,
        scan_line(line, lf, seq![]) == Seq::<Seq<char>>::empty(),
    ensures
        plain_sized(add_line(st, line, lf)),
{
    assert(st.stack =~= Seq::<Seq<char>>::empty());
    let st2 = add_line(st, line, lf);
    assert(closers(Seq::<Seq<char>>::empty()) =~= Seq::<char>::empty());
    assert(openers(Seq::<Seq<char>>::empty()) =~= Seq::<char>::empty());
    assert(line[line.len() - 1] == line.last());
    assert(line.last() != '\n');
    lemma_first_line_of_line(line);
    if needs_cut(st.current, line) {
        assert(st.current + Seq::<char>::empty() =~= st.current);
        assert(st2.chunks == st.chunks.push(st.current));
        assert(st2.current =~= line);
        let n = st.chunks.len() as int;
        assert forall|k: int| 0 <= k < st2.chunks.len() implies byte_len(#[trigger] st2.chunks[k]) <= MAX_CHUNK_BYTES by {
            if k < n {
                assert(st2.chunks[k] == st.chunks[k]);
            }
        }
        assert forall|k: int| 0 <= k < st2.chunks.len() - 1 implies byte_len(#[trigger] st2.chunks[k]) + 1
            + byte_len(first_line(st2.chunks[k + 1])) > MAX_CHUNK_BYTES by {
            assert(st2.chunks[k] == st.chunks[k]);
            if k + 1 < n {
                assert(st2.chunks[k + 1] == st.chunks[k + 1]);
            } else {
                assert(st2.chunks[k + 1] == st.current);
            }
        }
    } else if st.current.len() == 0 {
        assert(st2.current =~= line);
        assert(st.chunks.len() == 0);
    } else {
        assert(st2.current == st.current.push('\n') + line);
        lemma_append_line_bytes(st.current, line);
        lemma_first_line_extends(st.current, line);
        assert(st2.current.last() == line.last());
    }
}

proof fn lemma_split_from_sized_plain(c: Seq<char>, f: Seq<bool>, start: int, st: SplitState)
    requires
        has_no_markers(c),
        all_lines_nonempty(c),
        all_lines_fit(c),
        start >= 0,
        start == 0 || (start <= c.len() && c[start - 1] == '\n'),
        plain_sized(st),
    ensures
        plain_sized(split_from(c, f, start, st)),
    decreases c.len() - start,
{
    if start < c.len() {
        lemma_newline_from(c, start);
        assert(is_line_start(c, start));
        lemma_plain_line(c, f, start);
        let e = newline_from(c, start);
        let le = line_end(c, start);
        let line = c.subrange(start, le);
        lemma_sized_step(st, line, f.subrange(start, le));
        if e < c.len() {
            lemma_split_from_sized_plain(c, f, e + 1, add_line(st, line, f.subrange(start, le)));
        }
    }
}

/// For a text without formatting whose lines are not empty and fit in
/// `MAX_CHUNK_BYTES` bytes, every chunk fits too, and a chunk is cut only
/// where the next chunk's first line would not have fitted after it.
pub proof fn law_cut_only_when_needed(c: Seq<char>, f: Seq<bool>)
    requires
        has_no_markers(c),
        all_lines_nonempty(c),
        all_lines_fit(c),
    ensures
        forall|k: int| 0 <= k < split_text(c, f).len() ==> byte_len(#[trigger] split_text(c, f)[k]) <= MAX_CHUNK_BYTES,
        forall|k: int|
            0 <= k < split_text(c, f).len() - 1 ==> byte_len(#[trigger] split_text(c, f)[k]) + 1 + byte_len(
                first_line(split_text(c, f)[k + 1]),
            ) > MAX_CHUNK_BYTES,
{
    let init = initial_split_state();
    crate::text::lemma_byte_len_zero(init.current);
    assert(plain_sized(init));
    lemma_split_from_sized_plain(c, f, 0, init);
    let st = split_from(c, f, 0, init);
    if st.current.len() > 0 {
        let r = st.chunks.push(st.current);
        let n = st.chunks.len() as int;
        assert forall|k: int| 0 <= k < r.len() implies byte_len(#[trigger] r[k]) <= MAX_CHUNK_BYTES by {
            if k < n {
                assert(r[k] == st.chunks[k]);
            }
        }
        assert forall|k: int| 0 <= k < r.len() - 1 implies byte_len(#[trigger] r[k]) + 1 + byte_len(
            first_line(r[k + 1]),
        ) > MAX_CHUNK_BYTES by {
            assert(r[k] == st.chunks[k]);
            if k + 1 < n {
                assert(r[k + 1] == st.chunks[k + 1]);
            }
        }
    }
}

pub(crate) proof fn lemma_last_index_bounds(st: Seq<Seq<char>>, t: Seq<char>)
    ensures
        -1 <= last_index_of(st, t) < st.len(),
{
    lemma_last_index_of(st, t);
}

pub(crate) proof fn lemma_append_line_bytes_pub(cur: Seq<char>, line: Seq<char>)
    ensures
        byte_len(append_line(cur, line)) <= byte_len(cur) + 1 + byte_len(line),
{
    lemma_append_line_bytes(cur, line);
}

} // verus!
