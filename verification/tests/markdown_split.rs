use rizubot::markdown::{scan_markdown, split_smart, split_smart_with, update_markdown_state};

fn strings(v: &[&str]) -> Vec<String> {
    v.iter().map(|s| s.to_string()).collect()
}

#[test]
fn empty_text_gives_no_chunk() {
    assert_eq!(split_smart(""), Vec::<String>::new());
}

#[test]
fn only_newlines_give_no_chunk() {
    assert_eq!(split_smart("\n\n"), Vec::<String>::new());
}

#[test]
fn short_text_is_one_chunk() {
    assert_eq!(split_smart("hello"), strings(&["hello"]));
    assert_eq!(split_smart("a\nb\n"), strings(&["a\nb"]));
}

#[test]
fn empty_lines_after_a_line_are_dropped() {
    assert_eq!(split_smart("a\n\nb"), strings(&["a\nb"]));
    assert_eq!(split_smart("\nb"), strings(&["b"]));
}

#[test]
fn carriage_return_before_newline_is_dropped() {
    assert_eq!(split_smart("a\r\nb"), strings(&["a\nb"]));
    assert_eq!(split_smart("a\r"), strings(&["a\r"]));
}

#[test]
fn bold_is_closed_and_reopened_at_a_cut() {
    let a = "a".repeat(1000);
    let b = "b".repeat(1000);
    let text = format!("**{}\n{}**", a, b);
    let chunks = split_smart(&text);
    assert_eq!(chunks, vec![format!("**{}**", a), format!("**\n{}**", b)]);
}

#[test]
fn code_block_is_closed_and_reopened_at_a_cut() {
    let x = "x".repeat(1000);
    let y = "y".repeat(1000);
    let text = format!("```rust\n{}\n{}\n```", x, y);
    let chunks = split_smart(&text);
    assert_eq!(
        chunks,
        vec![format!("```rust\n{}\n```", x), format!("```rust\n{}\n```", y)]
    );
}

#[test]
fn lengths_are_counted_in_bytes() {
    let e = "é".repeat(700);
    let text = format!("{}\n{}", e, e);
    assert_eq!(split_smart(&text), vec![e.clone(), e.clone()]);
}

#[test]
fn exactly_at_the_limit_is_not_cut() {
    let a = "a".repeat(949);
    let b = "b".repeat(950);
    let text = format!("{}\n{}", a, b);
    assert_eq!(split_smart(&text), vec![text.clone()]);
    let c = "c".repeat(951);
    let text2 = format!("{}\n{}", a, c);
    assert_eq!(split_smart(&text2), vec![a.clone(), c.clone()]);
}

#[test]
fn a_long_line_stays_whole() {
    let a = "a".repeat(2500);
    assert_eq!(split_smart(&a), vec![a.clone()]);
}

#[test]
fn state_tracks_pair_markers() {
    let mut stack: Vec<String> = Vec::new();
    update_markdown_state("**bold __under", &mut stack);
    assert_eq!(stack, strings(&["**", "__"]));
    update_markdown_state("end** ~~x", &mut stack);
    assert_eq!(stack, strings(&["__", "~~"]));
    update_markdown_state("||s|| __", &mut stack);
    assert_eq!(stack, strings(&["~~"]));
}

#[test]
fn state_ignores_markers_inside_inline_code() {
    let mut stack: Vec<String> = Vec::new();
    update_markdown_state("`code ** here", &mut stack);
    assert_eq!(stack, strings(&["`"]));
    update_markdown_state("still `` then ** x", &mut stack);
    assert_eq!(stack, strings(&["**"]));
}

#[test]
fn state_opens_code_block_with_language() {
    let mut stack: Vec<String> = Vec::new();
    update_markdown_state("```py3 rest", &mut stack);
    assert_eq!(stack, strings(&["```py3"]));
    update_markdown_state("** ` inside", &mut stack);
    assert_eq!(stack, strings(&["```py3"]));
    update_markdown_state("done```", &mut stack);
    assert_eq!(stack, Vec::<String>::new());
}

#[test]
fn two_backticks_at_line_end_do_not_open_a_block() {
    let mut stack: Vec<String> = Vec::new();
    update_markdown_state("``", &mut stack);
    assert_eq!(stack, Vec::<String>::new());
}

#[test]
fn scan_uses_given_flags_for_language() {
    let chars: Vec<char> = "```ab".chars().collect();
    let mut stack: Vec<String> = Vec::new();
    scan_markdown(&chars, &vec![false, false, false, true, false], &mut stack);
    assert_eq!(stack, strings(&["```a"]));
}

#[test]
fn split_with_flags_matches_split() {
    let text = "```x1\nbody\n```";
    let chars: Vec<char> = text.chars().collect();
    let flags: Vec<bool> = chars.iter().map(|c| c.is_alphanumeric()).collect();
    assert_eq!(split_smart_with(&chars, &flags), split_smart(text));
}

#[test]
fn every_chunk_is_nonempty_and_short_text_untouched() {
    let text = "**open\nline two\n`code`";
    let chunks = split_smart(text);
    assert_eq!(chunks, vec![text.to_string()]);
    for c in &chunks {
        assert!(!c.is_empty());
    }
}
