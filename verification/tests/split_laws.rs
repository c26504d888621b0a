use rizubot::markdown::{split_smart, update_markdown_state};

fn scan_lines(lines: &[&str]) -> Vec<String> {
    let mut s = Vec::new();
    for l in lines {
        update_markdown_state(l, &mut s);
    }
    s
}

#[test]
fn two_lines_scan_as_one() {
    let cases = [("**a `b", "c` ~~d"), ("```rs", "x```"), ("*", "*"), ("``", "`"), ("__x", "||y||__")];
    for (a, b) in cases {
        let mut joined = Vec::new();
        update_markdown_state(&format!("{}\n{}", a, b), &mut joined);
        assert_eq!(scan_lines(&[a, b]), joined, "{:?} {:?}", a, b);
    }
}

#[test]
fn at_most_five_markers_open() {
    let s = scan_lines(&["** __ ~~ || ```py", "** __"]);
    assert_eq!(s, vec!["**", "__", "~~", "||", "```py"]);
    assert!(s.len() <= 5);
}

#[test]
fn no_chunk_iff_all_lines_empty() {
    assert!(split_smart("\n\n\r\n").is_empty());
    assert_eq!(split_smart("\n\nx\n"), vec!["x".to_string()]);
}

#[test]
fn at_most_one_chunk_per_line() {
    let text = format!("{}\n{}\n{}", "a".repeat(1500), "b".repeat(1500), "c".repeat(1500));
    let chunks = split_smart(&text);
    assert_eq!(chunks.len(), 3);
    assert!(chunks.len() <= text.lines().count());
}

#[test]
fn plain_text_is_preserved() {
    let lines: Vec<String> = (0..60).map(|i| format!("baris nomor {} {}", i, "kata ".repeat(i % 9))).collect();
    let text = lines.join("\n");
    let chunks = split_smart(&text);
    assert!(chunks.len() > 1);
    assert_eq!(chunks.join("\n"), lines.join("\n"));
}

#[test]
fn plain_cut_only_when_needed() {
    let lines: Vec<String> = (0..30).map(|i| "q".repeat(100 + 37 * i)).collect();
    let text = lines.join("\n");
    let chunks = split_smart(&text);
    for c in &chunks {
        assert!(c.len() <= 1900);
    }
    for pair in chunks.windows(2) {
        let first = pair[1].split('\n').next().unwrap();
        assert!(pair[0].len() + 1 + first.len() > 1900);
    }
}

#[test]
fn formatted_chunks_fit_a_message() {
    let mut lines = Vec::new();
    for i in 0..50 {
        let l = match i % 4 {
            0 => format!("**{}", "x".repeat(890)),
            1 => format!("```{}", "lang".repeat(200)),
            2 => format!("__~~{}", "y".repeat(800)),
            _ => format!("`{}", "z".repeat(850)),
        };
        lines.push(l);
    }
    let text = lines.join("\n");
    for c in split_smart(&text) {
        assert!(c.len() <= 2000, "{}", c.len());
    }
}
