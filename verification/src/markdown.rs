//! Splitting a long Markdown message into pieces that fit a chat message,
//! closing the formatting that is open at each cut and reopening it in the
//! next piece.
use vstd::prelude::*;
use crate::text::{byte_len, chars_of, chars_of_string, lemma_byte_len_concat, lemma_byte_len_push, push_chars, push_str_chars, string_from_chars, char_width};

verus! {

// ---------------------------------------------------------------------
// The per-line scanner: which formatting markers are open.
// ---------------------------------------------------------------------

/// Unicode "alphabetic or numeric" classification of a character, as
/// `char::is_alphanumeric` computes it.
pub uninterp spec fn is_alphanumeric_char(c: char) -> bool;

/// Calls std's `char::is_alphanumeric`. The contract only names its result
/// `is_alphanumeric_char(c)`, a function of `c` alone; which characters it
/// accepts (Unicode's Alphabetic property and numeric categories) is not
/// stated here.
#[verifier::external_body]
fn char_is_alphanumeric(c: char) -> (r: bool)
    ensures
        r == is_alphanumeric_char(c),
{
    c.is_alphanumeric()
}

/// The classification of every character of `s`.
pub open spec fn alnum_flags(s: Seq<char>) -> Seq<bool> {
    Seq::new(s.len(), |k: int| is_alphanumeric_char(s[k]))
}

/// Three backticks start at position `i` of `c`.
pub open spec fn backticks3_at(c: Seq<char>, i: int) -> bool {
    0 <= i && i + 2 < c.len() && c[i] == '`' && c[i + 1] == '`' && c[i + 2] == '`'
}

/// A code-block marker: three backticks, then the block's language.
pub open spec fn is_fence_tag(t: Seq<char>) -> bool {
    t.len() >= 3 && t[0] == '`' && t[1] == '`' && t[2] == '`'
}

/// The inline-code marker.
pub open spec fn inline_code_tag() -> Seq<char> {
    seq!['`']
}

/// `a` and `b` form one of the two-character markers `**`, `__`, `~~`, `||`.
pub open spec fn is_pair_marker(a: char, b: char) -> bool {
    a == b && (a == '*' || a == '_' || a == '~' || a == '|')
}

/// Position of the last occurrence of `t` in `st`, or -1.
pub open spec fn last_index_of(st: Seq<Seq<char>>, t: Seq<char>) -> int
    decreases st.len(),
{
    if st.len() == 0 {
        -1
    } else if st.last() == t {
        st.len() - 1
    } else {
        last_index_of(st.drop_last(), t)
    }
}

/// Closes the last open `t` if there is one, else opens `t`.
pub open spec fn toggle_tag(st: Seq<Seq<char>>, t: Seq<char>) -> Seq<Seq<char>> {
    let p = last_index_of(st, t);
    if p >= 0 {
        st.remove(p)
    } else {
        st.push(t)
    }
}

/// Number of consecutive positions from `j` on whose flag is set.
pub open spec fn word_run(c: Seq<char>, f: Seq<bool>, j: int) -> nat
    decreases c.len() - j,
{
    if 0 <= j < c.len() && j < f.len() && f[j] {
        1 + word_run(c, f, j + 1)
    } else {
        0
    }
}

/// One step of the scanner at position `i`: the next position and the new
/// list of open markers. `f[k]` says whether `c[k]` may belong to the
/// language name of a code block.
pub open spec fn scan_step(c: Seq<char>, f: Seq<bool>, i: int, st: Seq<Seq<char>>) -> (
    int,
    Seq<Seq<char>>,
) {
    if st.len() > 0 && is_fence_tag(st.last()) {
        // inside a code block only its end counts
        if backticks3_at(c, i) {
            (i + 3, st.drop_last())
        } else {
            (i + 1, st)
        }
    } else if st.len() > 0 && st.last() == inline_code_tag() {
        // inside inline code only a single closing backtick counts
        if c[i] == '`' && (i + 1 == c.len() || c[i + 1] != '`') {
            (i + 1, st.drop_last())
        } else {
            (i + 1, st)
        }
    } else if backticks3_at(c, i) {
        let r = word_run(c, f, i + 3);
        (i + 3 + r, st.push(seq!['`', '`', '`'] + c.subrange(i + 3, i + 3 + r)))
    } else if i + 1 < c.len() && is_pair_marker(c[i], c[i + 1]) {
        (i + 2, toggle_tag(st, seq![c[i], c[i + 1]]))
    } else if c[i] == '`' {
        (i + 1, toggle_tag(st, inline_code_tag()))
    } else {
        (i + 1, st)
    }
}

/// The open markers after scanning `c` from position `i` on, starting from `st`.
pub open spec fn scan_from(c: Seq<char>, f: Seq<bool>, i: int, st: Seq<Seq<char>>) -> Seq<
    Seq<char>,
>
    decreases c.len() - i,
{
    if i < 0 || i >= c.len() {
        st
    } else {
        let (j, st2) = scan_step(c, f, i, st);
        if j <= i || j > c.len() {
            st2
        } else {
            scan_from(c, f, j, st2)
        }
    }
}

/// The open markers after scanning the whole line `c`.
pub open spec fn scan_line(c: Seq<char>, f: Seq<bool>, st: Seq<Seq<char>>) -> Seq<Seq<char>> {
    scan_from(c, f, 0, st)
}

fn is_fence_string(s: &String) -> (b: bool)
    ensures
        b == is_fence_tag(s@),
{
    let v = chars_of_string(s);
    v.len() >= 3 && v[0] == '`' && v[1] == '`' && v[2] == '`'
}

fn is_inline_code_string(s: &String) -> (b: bool)
    ensures
        b == (s@ == inline_code_tag()),
{
    let v = chars_of_string(s);
    let r = v.len() == 1 && v[0] == '`';
    assert(r ==> v@ =~= inline_code_tag());
    r
}

/// Closes the last open `t`, or opens it when it is not open.
fn toggle_in_stack(stack: &mut Vec<String>, t: String)
    ensures
        final(stack).deep_view() == toggle_tag(old(stack).deep_view(), t@),
{
    let ghost st0 = stack.deep_view();
    let pos = last_position(stack, &t);
    match pos {
        Some(p) => {
            stack.remove(p);
            assert(stack.deep_view() =~= st0.remove(p as int));
        },
        None => {
            stack.push(t);
            assert(stack.deep_view() =~= st0.push(t@));
        },
    }
}

/// Position of the last element of `stack` equal to `t`.
fn last_position(stack: &Vec<String>, t: &String) -> (pos: Option<usize>)
    ensures
        match pos {
            Some(p) => p < stack.len() && p == last_index_of(stack.deep_view(), t@),
            None => last_index_of(stack.deep_view(), t@) == -1,
        },
{
    let ghost st0 = stack.deep_view();
    let mut k = stack.len();
    assert(st0.take(k as int) =~= st0);
    while k > 0
        invariant
            k <= stack.len(),
            stack.deep_view() == st0,
            last_index_of(st0, t@) == last_index_of(st0.take(k as int), t@),
        decreases k,
    {
        assert(st0.take(k as int).drop_last() =~= st0.take(k - 1));
        if stack[k - 1] == *t {
            assert(st0.take(k as int).last() == st0[k - 1]);
            return Some(k - 1);
        }
        k = k - 1;
    }
    assert(st0.take(0) =~= Seq::<Seq<char>>::empty());
    None
}

fn word_run_exec(c: &Vec<char>, f: &Vec<bool>, j: usize) -> (r: usize)
    requires
        c.len() == f.len(),
        j <= c.len(),
    ensures
        r == word_run(c@, f@, j as int),
        j + r <= c.len(),
{
    let mut stop = j;
    while stop < c.len() && f[stop]
        invariant
            j <= stop <= c.len(),
            c.len() == f.len(),
            word_run(c@, f@, j as int) == (stop - j) + word_run(c@, f@, stop as int),
        decreases c.len() - stop,
    {
        stop = stop + 1;
    }
    stop - j
}

/// Scans the characters `chars` of one line and updates the list of open
/// formatting markers; `alnum[k]` says whether `chars[k]` may belong to a
/// code block's language name.
pub fn scan_markdown(chars: &Vec<char>, alnum: &Vec<bool>, stack: &mut Vec<String>)
    requires
        chars.len() == alnum.len(),
    ensures
        final(stack).deep_view() == scan_line(chars@, alnum@, old(stack).deep_view()),
{
    let ghost c = chars@;
    let ghost f = alnum@;
    let ghost st_init = stack.deep_view();
    let n = chars.len();
    let mut i: usize = 0;
    while i < n
        invariant
            n == chars.len(),
            chars@ == c,
            alnum@ == f,
            c.len() == f.len(),
            i <= n,
            scan_from(c, f, i as int, stack.deep_view()) == scan_from(c, f, 0, st_init),
        decreases n - i,
    {
        let ghost st0 = stack.deep_view();
        let ghost step = scan_step(c, f, i as int, st0);
        let len = stack.len();
        let top_fence = len > 0 && is_fence_string(&stack[len - 1]);
        let top_inline = len > 0 && !top_fence && is_inline_code_string(&stack[len - 1]);
        let three = n - i > 2 && chars[i] == '`' && chars[i + 1] == '`' && chars[i + 2] == '`';
        let next: usize;
        if top_fence {
            if three {
                stack.pop();
                assert(stack.deep_view() =~= st0.drop_last());
                next = i + 3;
            } else {
                next = i + 1;
            }
        } else if top_inline {
            if chars[i] == '`' && (i + 1 == n || chars[i + 1] != '`') {
                stack.pop();
                assert(stack.deep_view() =~= st0.drop_last());
            }
            next = i + 1;
        } else if three {
            let r = word_run_exec(chars, alnum, i + 3);
            let mut tag: Vec<char> = Vec::new();
            tag.push('`');
            tag.push('`');
            tag.push('`');
            let mut j = i + 3;
            while j < i + 3 + r
                invariant
                    i + 3 <= j <= i + 3 + r <= n,
                    n == chars.len(),
                    chars@ == c,
                    tag@ == seq!['`', '`', '`'] + c.subrange(i + 3, j as int),
                decreases i + 3 + r - j,
            {
                tag.push(chars[j]);
                assert(c.subrange(i + 3, j + 1) =~= c.subrange(i + 3, j as int).push(c[j as int]));
                assert(seq!['`', '`', '`'] + c.subrange(i + 3, j + 1) =~= (seq!['`', '`', '`'] + c.subrange(i + 3, j as int)).push(c[j as int]));
                j = j + 1;
            }
            let s = string_from_chars(&tag);
            stack.push(s);
            assert(stack.deep_view() =~= st0.push(tag@));
            next = i + 3 + r;
        } else if i + 1 < n && chars[i] == chars[i + 1] && (chars[i] == '*' || chars[i] == '_'
            || chars[i] == '~' || chars[i] == '|') {
            let mut tag: Vec<char> = Vec::new();
            tag.push(chars[i]);
            tag.push(chars[i + 1]);
            assert(tag@ =~= seq![c[i as int], c[i + 1]]);
            toggle_in_stack(stack, string_from_chars(&tag));
            next = i + 2;
        } else if chars[i] == '`' {
            let mut tag: Vec<char> = Vec::new();
            tag.push('`');
            assert(tag@ =~= inline_code_tag());
            toggle_in_stack(stack, string_from_chars(&tag));
            next = i + 1;
        } else {
            next = i + 1;
        }
        assert(step == (next as int, stack.deep_view()));
        i = next;
    }
}

/// Updates `stack`, the formatting markers open before `line`, to those
/// open after it.
pub fn update_markdown_state(line: &str, stack: &mut Vec<String>)
    ensures
        final(stack).deep_view() == scan_line(line@, alnum_flags(line@), old(stack).deep_view()),
{
    let chars = chars_of(line);
    let flags = alnum_flags_of(&chars);
    scan_markdown(&chars, &flags, stack);
}

/// The classification of every character of `chars`.
pub fn alnum_flags_of(chars: &Vec<char>) -> (flags: Vec<bool>)
    ensures
        flags@ == alnum_flags(chars@),
{
    let mut flags: Vec<bool> = Vec::new();
    let n = chars.len();
    let mut i: usize = 0;
    while i < n
        invariant
            n == chars.len(),
            i <= n,
            flags@ =~= alnum_flags(chars@).take(i as int),
        decreases n - i,
    {
        flags.push(char_is_alphanumeric(chars[i]));
        i = i + 1;
    }
    flags
}

// ---------------------------------------------------------------------
// Splitting a text into chunks.
// ---------------------------------------------------------------------

/// A chunk is cut when it would grow beyond this many bytes; the rest of
/// the 2000 bytes of a message leaves room for the markers that are
/// closed at the cut.
pub const MAX_CHUNK_BYTES: usize = 1900;

/// What closes a marker at the end of a chunk.
pub open spec fn close_tag(t: Seq<char>) -> Seq<char> {
    if is_fence_tag(t) {
        seq!['\n', '`', '`', '`']
    } else {
        t
    }
}

/// What reopens a marker at the start of the next chunk.
pub open spec fn open_tag(t: Seq<char>) -> Seq<char> {
    if is_fence_tag(t) {
        t.push('\n')
    } else {
        t
    }
}

/// The closing markers of all open markers, innermost first.
pub open spec fn closers(st: Seq<Seq<char>>) -> Seq<char>
    decreases st.len(),
{
    if st.len() == 0 {
        seq![]
    } else {
        close_tag(st.last()) + closers(st.drop_last())
    }
}

/// The opening markers of all open markers, outermost first.
pub open spec fn openers(st: Seq<Seq<char>>) -> Seq<char>
    decreases st.len(),
{
    if st.len() == 0 {
        seq![]
    } else {
        openers(st.drop_last()) + open_tag(st.last())
    }
}

/// Position of the first `'\n'` at or after `i`, or the length of `c`.
pub open spec fn newline_from(c: Seq<char>, i: int) -> int
    decreases c.len() - i,
{
    if i < 0 || i >= c.len() {
        c.len() as int
    } else if c[i] == '\n' {
        i
    } else {
        newline_from(c, i + 1)
    }
}

/// End of the line that starts at `start`, as `str::lines` cuts it: the
/// line ends before its `'\n'`, and before a `'\r'` that precedes that `'\n'`.
pub open spec fn line_end(c: Seq<char>, start: int) -> int {
    let e = newline_from(c, start);
    if e < c.len() && e > start && c[e - 1] == '\r' {
        e - 1
    } else {
        e
    }
}

/// Adds a line to a chunk: on a new line of its own unless the chunk is
/// empty or already ends with a line break.
pub open spec fn append_line(cur: Seq<char>, line: Seq<char>) -> Seq<char> {
    if cur.len() > 0 && cur.last() != '\n' {
        cur.push('\n') + line
    } else {
        cur + line
    }
}

/// The chunk in progress must be cut before `line` is added.
pub open spec fn needs_cut(cur: Seq<char>, line: Seq<char>) -> bool {
    byte_len(cur) + byte_len(line) + 1 > MAX_CHUNK_BYTES && cur.len() > 0
}

/// The state of the splitter between two lines.
pub struct SplitState {
    /// The finished chunks.
    pub chunks: Seq<Seq<char>>,
    /// The chunk in progress.
    pub current: Seq<char>,
    /// The markers open at this point of the text.
    pub stack: Seq<Seq<char>>,
}

pub open spec fn initial_split_state() -> SplitState {
    SplitState { chunks: seq![], current: seq![], stack: seq![] }
}

/// The splitter takes one more line `line`, whose flags are `lf`.
pub open spec fn add_line(st: SplitState, line: Seq<char>, lf: Seq<bool>) -> SplitState {
    let cut = needs_cut(st.current, line);
    let chunks = if cut {
        st.chunks.push(st.current + closers(st.stack))
    } else {
        st.chunks
    };
    let cur = if cut {
        openers(st.stack)
    } else {
        st.current
    };
    SplitState { chunks, current: append_line(cur, line), stack: scan_line(line, lf, st.stack) }
}

/// The splitter's state after the lines of `c` that start at or after `start`.
pub open spec fn split_from(c: Seq<char>, f: Seq<bool>, start: int, st: SplitState) -> SplitState
    decreases c.len() - start,
{
    if start < 0 || start >= c.len() {
        st
    } else {
        let e = newline_from(c, start);
        let le = line_end(c, start);
        let st2 = add_line(st, c.subrange(start, le), f.subrange(start, le));
        if e < start || e >= c.len() {
            st2
        } else {
            split_from(c, f, e + 1, st2)
        }
    }
}

/// The chunks of the text `c`, whose flags are `f`.
pub open spec fn split_text(c: Seq<char>, f: Seq<bool>) -> Seq<Seq<char>> {
    let st = split_from(c, f, 0, initial_split_state());
    if st.current.len() > 0 {
        st.chunks.push(st.current)
    } else {
        st.chunks
    }
}

pub proof fn lemma_newline_from(c: Seq<char>, i: int)
    requires
        0 <= i <= c.len(),
    ensures
        i <= newline_from(c, i) <= c.len(),
        newline_from(c, i) < c.len() ==> c[newline_from(c, i)] == '\n',
        forall|k: int| i <= k < newline_from(c, i) ==> c[k] != '\n',
    decreases c.len() - i,
{
    if i < c.len() && c[i] != '\n' {
        lemma_newline_from(c, i + 1);
    }
}

fn find_newline(chars: &Vec<char>, start: usize) -> (e: usize)
    requires
        start <= chars.len(),
    ensures
        e == newline_from(chars@, start as int),
        start <= e <= chars.len(),
{
    let mut k = start;
    while k < chars.len() && chars[k] != '\n'
        invariant
            start <= k <= chars.len(),
            newline_from(chars@, start as int) == newline_from(chars@, k as int),
        decreases chars.len() - k,
    {
        k = k + 1;
    }
    k
}

fn copy_range<T: Copy>(v: &Vec<T>, a: usize, b: usize) -> (r: Vec<T>)
    requires
        a <= b <= v.len(),
    ensures
        r@ == v@.subrange(a as int, b as int),
{
    let mut r: Vec<T> = Vec::new();
    let mut i = a;
    while i < b
        invariant
            a <= i <= b <= v.len(),
            r@ == v@.subrange(a as int, i as int),
        decreases b - i,
    {
        r.push(v[i]);
        assert(v@.subrange(a as int, i + 1) =~= v@.subrange(a as int, i as int).push(v@[i as int]));
        i = i + 1;
    }
    r
}

/// `min(byte_len(v), cap)`, computed without looking further than needed.
fn capped_byte_len(v: &Vec<char>, cap: usize) -> (r: usize)
    ensures
        r == if byte_len(v@) < cap {
            byte_len(v@)
        } else {
            cap as nat
        },
{
    let mut sum: usize = 0;
    let mut i: usize = 0;
    assert(v@.take(0) =~= Seq::<char>::empty());
    while i < v.len() && sum < cap
        invariant
            i <= v.len(),
            sum == byte_len(v@.take(i as int)),
            sum < cap || (i == 0 && cap == 0),
        decreases v.len() - i,
    {
        proof {
            assert(v@.take(i + 1) =~= v@.take(i as int).push(v@[i as int]));
            lemma_byte_len_push(v@.take(i as int), v@[i as int]);
        }
        let w = char_width(v[i]);
        if w >= cap - sum {
            proof {
                assert(v@ =~= v@.take(i + 1) + v@.skip(i + 1));
                lemma_byte_len_concat(v@.take(i + 1), v@.skip(i + 1));
            }
            return cap;
        }
        sum = sum + w;
        i = i + 1;
    }
    proof {
        if sum >= cap {
            assert(cap == 0);
        } else {
            assert(v@.take(i as int) =~= v@);
        }
    }
    if sum >= cap {
        cap
    } else {
        sum
    }
}

/// Appends the closing markers of `stack` to `v`.
fn push_closers(v: &mut Vec<char>, stack: &Vec<String>)
    ensures
        final(v)@ == old(v)@ + closers(stack.deep_view()),
{
    let ghost st = stack.deep_view();
    let ghost v0 = v@;
    let mut k = stack.len();
    assert(st.take(k as int) =~= st);
    assert(v0 =~= v0 + Seq::<char>::empty());
    while k > 0
        invariant
            k <= stack.len(),
            st == stack.deep_view(),
            v0 + closers(st) == v@ + closers(st.take(k as int)),
        decreases k,
    {
        let ghost before = v@;
        assert(st.take(k as int).drop_last() =~= st.take(k - 1));
        assert(st.take(k as int).last() == st[k - 1]);
        if is_fence_string(&stack[k - 1]) {
            v.push('\n');
            v.push('`');
            v.push('`');
            v.push('`');
            assert(v@ =~= before + close_tag(st[k - 1]));
        } else {
            push_str_chars(v, stack[k - 1].as_str());
            assert(v@ =~= before + close_tag(st[k - 1]));
        }
        assert(before + closers(st.take(k as int)) =~= before + close_tag(st[k - 1]) + closers(st.take(k - 1)));
        k = k - 1;
    }
    assert(st.take(0) =~= Seq::<Seq<char>>::empty());
    assert(v@ + closers(st.take(0)) =~= v@);
}

/// The opening markers of `stack`.
fn openers_of(stack: &Vec<String>) -> (v: Vec<char>)
    ensures
        v@ == openers(stack.deep_view()),
{
    let ghost st = stack.deep_view();
    let mut v: Vec<char> = Vec::new();
    let mut k: usize = 0;
    assert(st.take(0) =~= Seq::<Seq<char>>::empty());
    while k < stack.len()
        invariant
            k <= stack.len(),
            st == stack.deep_view(),
            v@ == openers(st.take(k as int)),
        decreases stack.len() - k,
    {
        let ghost before = v@;
        assert(st.take(k + 1).drop_last() =~= st.take(k as int));
        assert(st.take(k + 1).last() == st[k as int]);
        push_str_chars(&mut v, stack[k].as_str());
        if is_fence_string(&stack[k]) {
            v.push('\n');
        }
        assert(v@ =~= before + open_tag(st[k as int]));
        k = k + 1;
    }
    assert(st.take(k as int) =~= st);
    v
}

/// Splits the text whose characters are `chars` into chunks; `alnum[k]`
/// says whether `chars[k]` may belong to a code block's language name.
pub fn split_smart_with(chars: &Vec<char>, alnum: &Vec<bool>) -> (chunks: Vec<String>)
    requires
        chars.len() == alnum.len(),
    ensures
        chunks.deep_view() == split_text(chars@, alnum@),
{
    let ghost c = chars@;
    let ghost f = alnum@;
    let n = chars.len();
    let mut chunks: Vec<String> = Vec::new();
    let mut current: Vec<char> = Vec::new();
    let mut stack: Vec<String> = Vec::new();
    let mut start: usize = 0;
    proof {
        assert(chunks.deep_view() =~= Seq::<Seq<char>>::empty());
        assert(stack.deep_view() =~= Seq::<Seq<char>>::empty());
        assert(current@ =~= Seq::<char>::empty());
    }
    while start < n
        invariant
            n == chars.len(),
            chars@ == c,
            alnum@ == f,
            c.len() == f.len(),
            start <= n,
            split_from(c, f, start as int, SplitState { chunks: chunks.deep_view(), current: current@, stack: stack.deep_view() })
                == split_from(c, f, 0, initial_split_state()),
        decreases n - start,
    {
        let ghost st0 = SplitState { chunks: chunks.deep_view(), current: current@, stack: stack.deep_view() };
        proof {
            lemma_newline_from(c, start as int);
        }
        let e = find_newline(chars, start);
        let le = if e < n && e > start && chars[e - 1] == '\r' {
            e - 1
        } else {
            e
        };
        let line = copy_range(chars, start, le);
        let lf = copy_range(alnum, start, le);
        let ghost line_v = line@;
        let cur_b = capped_byte_len(&current, MAX_CHUNK_BYTES);
        let line_b = capped_byte_len(&line, MAX_CHUNK_BYTES);
        let cut = cur_b + line_b + 1 > MAX_CHUNK_BYTES && current.len() > 0;
        assert(cut == needs_cut(st0.current, line_v));
        if cut {
            push_closers(&mut current, &stack);
            let s = string_from_chars(&current);
            chunks.push(s);
            assert(chunks.deep_view() =~= st0.chunks.push(st0.current + closers(st0.stack)));
            current = openers_of(&stack);
        }
        let ghost cur_before = current@;
        scan_markdown(&line, &lf, &mut stack);
        if current.len() > 0 && current[current.len() - 1] != '\n' {
            current.push('\n');
        }
        push_chars(&mut current, &line);
        assert(current@ =~= append_line(cur_before, line_v));
        assert(SplitState { chunks: chunks.deep_view(), current: current@, stack: stack.deep_view() }
            == add_line(st0, line_v, lf@));
        if e >= n {
            start = n;
        } else {
            start = e + 1;
        }
    }
    if current.len() > 0 {
        let ghost before = chunks.deep_view();
        let s = string_from_chars(&current);
        chunks.push(s);
        assert(chunks.deep_view() =~= before.push(current@));
    }
    chunks
}

/// Splits `text` into chunks of at most about 1900 bytes each, cut between
/// lines; Markdown formatting open at a cut (bold, underline, strike,
/// spoiler, inline code, code blocks) is closed at the end of the chunk and
/// reopened at the start of the next.
pub fn split_smart(text: &str) -> (chunks: Vec<String>)
    ensures
        chunks.deep_view() == split_text(text@, alnum_flags(text@)),
{
    let chars = chars_of(text);
    let flags = alnum_flags_of(&chars);
    split_smart_with(&chars, &flags)
}

} // verus!
