use rizubot::channels::{channel_group_keys, ChannelInfo};
use rizubot::markdown::{split_smart, update_markdown_state};
use rizubot::music::drop_before;
use rizubot::reaction_role::parse_u64;
use rizubot::text::u64_to_decimal;
use std::collections::VecDeque;

#[test]
fn decimal_text_reads_back() {
    for n in [0u64, 7, 10, 99, 1234567890, u64::MAX] {
        assert_eq!(parse_u64(&u64_to_decimal(n)), Some(n));
    }
}

#[test]
fn cut_chunks_close_and_reopen_markers() {
    let body = "word ".repeat(300);
    let text = format!("~~**{}\n{}\n{}**~~", body, body, body);
    let chunks = split_smart(&text);
    assert_eq!(chunks.len(), 3);
    for pair in chunks.windows(2) {
        assert!(pair[0].ends_with("**~~"));
        assert!(pair[1].starts_with("~~**"));
    }
}

#[test]
fn every_chunk_but_the_last_closes_its_markers() {
    let mut text = String::from("__~~intro\n```rust\n");
    for i in 0..400 {
        text.push_str(&format!("let value_{} = {};\n", i, i));
    }
    text.push_str("```\nplain `code ");
    text.push_str(&"z ".repeat(1200));
    text.push_str("\nmore* text*\nend~~__");
    let chunks = split_smart(&text);
    assert!(chunks.len() >= 4);
    for chunk in &chunks[..chunks.len() - 1] {
        let mut stack: Vec<String> = Vec::new();
        for line in chunk.lines() {
            update_markdown_state(line, &mut stack);
        }
        assert!(stack.is_empty(), "chunk left {:?} open", stack);
    }
    let closing = "\n```~~__";
    assert!(chunks[0].ends_with(closing));
    assert!(chunks[1].starts_with("__~~```rust\n"));
    let body = &chunks[0][..chunks[0].len() - closing.len()];
    let mut open: Vec<String> = Vec::new();
    for line in body.lines() {
        update_markdown_state(line, &mut open);
    }
    assert_eq!(open, vec!["__".to_string(), "~~".to_string(), "```rust".to_string()]);
}

#[test]
fn chunks_fit_unless_one_long_line() {
    let line = "x".repeat(600);
    let text = vec![line.clone(); 10].join("\n");
    let chunks = split_smart(&text);
    assert_eq!(chunks.len(), 4);
    for c in &chunks {
        assert!(c.len() <= 1900);
    }
    let long = "y".repeat(2100);
    let text2 = format!("a\n{}\nb", long);
    assert_eq!(split_smart(&text2), vec!["a".to_string(), long.clone(), "b".to_string()]);
}

#[test]
fn category_groups_once_each() {
    let chans = vec![
        ChannelInfo { id: 5, name: "a".into(), is_category: false, parent_id: Some(9) },
        ChannelInfo { id: 9, name: "cat".into(), is_category: true, parent_id: None },
        ChannelInfo { id: 6, name: "b".into(), is_category: false, parent_id: Some(9) },
        ChannelInfo { id: 7, name: "c".into(), is_category: false, parent_id: Some(8) },
    ];
    assert_eq!(channel_group_keys(&chans), vec![9, 8]);
}

#[test]
fn jump_makes_chosen_track_next() {
    for index in 2..=5usize {
        let mut q: VecDeque<usize> = (1..=5).collect();
        drop_before(&mut q, index);
        assert_eq!(q[1], index);
        q.pop_front();
        assert_eq!(q, (index..=5).collect::<VecDeque<usize>>());
    }
}

#[test]
fn every_line_is_in_some_chunk() {
    let mut lines = Vec::new();
    for i in 0..40 {
        lines.push(format!("line {} `{}` **{}**", i, "z".repeat(i * 7), i));
    }
    let text = lines.join("\n");
    let chunks = split_smart(&text);
    assert!(chunks.len() > 1);
    for l in &lines {
        assert!(chunks.iter().any(|c| c.contains(l.as_str())), "{}", l);
    }
}
