use rizubot::channels::{channel_group_keys, channel_listing, channel_listing_messages, ChannelInfo};
use rizubot::chat::{
    agent_messages, agent_reply_messages, chat_messages, chat_reply_messages, status_error_reply, waifu_prompt,
};
use rizubot::json::{extract_agent_output, extract_chat_content, JsonValue};
use rizubot::music::{
    clear_upcoming, drop_before, joined_reply, jump_allowed, jump_done_reply, jump_refused_reply,
    queue_listing, queued_reply, resolve_failed_reply, track_title,
};
use rizubot::reaction_role::{
    listing_reply, may_manage_reaction_roles, parse_u64, reaction_roles_listing, remove_reply,
    react_failed_reply, role_change, save_reply, ReactionRole, RoleChange,
};
use rizubot::text::u64_to_decimal;
use rizubot::user::{
    new_user, next_user_action, profile_reply, work_reply, User, UserAction, UserEvent, NEW_USER_LEVEL,
    NEW_USER_XP, WORK_XP,
};
use std::collections::VecDeque;

fn s(x: &str) -> String {
    x.to_string()
}

fn obj(members: Vec<(&str, JsonValue)>) -> JsonValue {
    JsonValue::Object(members.into_iter().map(|(k, v)| (k.to_string(), v)).collect())
}

fn rr(id: i64, role_id: &str, name: Option<&str>, emoji: &str) -> ReactionRole {
    ReactionRole {
        id,
        message_id: s("111"),
        channel_id: s("222"),
        role_id: s(role_id),
        role_name: name.map(|n| n.to_string()),
        emoji: s(emoji),
    }
}

#[test]
fn parse_u64_follows_std() {
    for text in ["0", "123", "+7", "007", "18446744073709551615", "18446744073709551616", "", "+", "-1", "12a", " 1", "1 "] {
        assert_eq!(parse_u64(text), text.parse::<u64>().ok(), "{:?}", text);
    }
    assert_eq!(parse_u64("+42"), Some(42));
    assert_eq!(parse_u64("99999999999999999999"), None);
}

#[test]
fn role_change_needs_record_number_guild_and_user() {
    let r = rr(1, "555", None, "x");
    assert_eq!(
        role_change(Some(&r), true, Some(9), Some(8)),
        Some(RoleChange { guild_id: 9, user_id: 8, role_id: 555, grant: true })
    );
    assert_eq!(
        role_change(Some(&r), false, Some(9), Some(8)),
        Some(RoleChange { guild_id: 9, user_id: 8, role_id: 555, grant: false })
    );
    assert_eq!(role_change(None, true, Some(9), Some(8)), None);
    assert_eq!(role_change(Some(&r), true, None, Some(8)), None);
    assert_eq!(role_change(Some(&r), true, Some(9), None), None);
    let bad = rr(1, "<@&555>", None, "x");
    assert_eq!(role_change(Some(&bad), true, Some(9), Some(8)), None);
}

#[test]
fn permission_check() {
    assert!(may_manage_reaction_roles(None));
    assert!(may_manage_reaction_roles(Some((true, false))));
    assert!(may_manage_reaction_roles(Some((false, true))));
    assert!(!may_manage_reaction_roles(Some((false, false))));
}

#[test]
fn reaction_role_listing_text() {
    assert_eq!(reaction_roles_listing(&vec![]), "No reaction roles found.");
    let roles = vec![rr(3, "555", Some("Gamer"), "🎮"), rr(-4, "666", None, "👍")];
    assert_eq!(
        reaction_roles_listing(&roles),
        "**Reaction Roles:**\n**🎮** - Gamer (Role ID: 555, ID: 3)\n**👍** - Unknown (Role ID: 666, ID: -4)\n"
    );
    assert_eq!(listing_reply(Err(s("db down"))), "Error fetching reaction roles: db down");
    assert_eq!(listing_reply(Ok(vec![])), "No reaction roles found.");
}

#[test]
fn reaction_role_replies() {
    assert_eq!(remove_reply(Ok(true), 12), "Removed reaction role for ID 12");
    assert_eq!(remove_reply(Ok(false), 12), "Could not find reaction role with ID 12");
    assert_eq!(remove_reply(Err(s("boom")), 12), "Error deleting reaction role: boom");
    assert_eq!(save_reply(Ok(())), "Success added reaction role!");
    assert_eq!(save_reply(Err(s("locked"))), "Failed to save reaction role to database: locked");
    assert_eq!(react_failed_reply("Unknown Emoji"), "Failed to add reaction: Unknown Emoji");
}

#[test]
fn decimal_text() {
    assert_eq!(u64_to_decimal(0), "0");
    assert_eq!(u64_to_decimal(1234567890123), "1234567890123");
    assert_eq!(u64_to_decimal(u64::MAX), u64::MAX.to_string());
    let r = rr(i64::MIN, "1", None, "e");
    assert_eq!(
        reaction_roles_listing(&vec![r]),
        format!("**Reaction Roles:**\n**e** - Unknown (Role ID: 1, ID: {})\n", i64::MIN)
    );
}

#[test]
fn user_flow_for_profile() {
    assert!(matches!(next_user_action(None, UserEvent::Started), UserAction::LookUp));
    assert!(matches!(next_user_action(None, UserEvent::LookedUp(None)), UserAction::Create));
    let u = new_user(s("42"), s("rizu"));
    assert_eq!((u.xp, u.level), (NEW_USER_XP, NEW_USER_LEVEL));
    match next_user_action(None, UserEvent::Created(u)) {
        UserAction::Done(d) => assert_eq!(d.username, "rizu"),
        _ => panic!("expected Done"),
    }
}

#[test]
fn user_flow_for_work() {
    let u = User { discord_id: s("42"), username: s("rizu"), xp: 5, level: 1 };
    match next_user_action(Some(WORK_XP), UserEvent::LookedUp(Some(u))) {
        UserAction::AddXp(n) => assert_eq!(n, 10),
        _ => panic!("expected AddXp"),
    }
    let v = User { discord_id: s("42"), username: s("rizu"), xp: 0, level: 1 };
    assert!(matches!(next_user_action(Some(WORK_XP), UserEvent::Created(v)), UserAction::AddXp(10)));
    let w = User { discord_id: s("42"), username: s("rizu"), xp: 15, level: 1 };
    match next_user_action(Some(WORK_XP), UserEvent::XpAdded(w)) {
        UserAction::Done(d) => assert_eq!(d.xp, 15),
        _ => panic!("expected Done"),
    }
}

#[test]
fn user_replies() {
    let u = User { discord_id: s("42"), username: s("rizu"), xp: 25, level: 3 };
    assert_eq!(profile_reply(&u), "**Profile for rizu**\nLevel: 3\nXP: 25");
    assert_eq!(work_reply(&u), "You worked hard and gained 10 XP! Total XP: 25");
}

#[test]
fn chat_content_extraction() {
    let reply = obj(vec![(
        "choices",
        JsonValue::Array(vec![obj(vec![("message", obj(vec![("role", JsonValue::Str(s("assistant"))), ("content", JsonValue::Str(s("Halo!")))]))])]),
    )]);
    assert_eq!(extract_chat_content(&reply), Some(s("Halo!")));
    assert_eq!(chat_messages(Some(&reply)), vec![s("Halo!")]);
    let no_choices = obj(vec![("choices", JsonValue::Array(vec![]))]);
    assert_eq!(extract_chat_content(&no_choices), None);
    assert_eq!(chat_messages(Some(&no_choices)), vec![s("Error parsing AI response.")]);
    let number = obj(vec![(
        "choices",
        JsonValue::Array(vec![obj(vec![("message", obj(vec![("content", JsonValue::Number(s("3")))]))])]),
    )]);
    assert_eq!(extract_chat_content(&number), None);
    assert_eq!(chat_messages(None), vec![s("Error parsing AI response JSON.")]);
}

#[test]
fn agent_output_extraction() {
    assert_eq!(extract_agent_output(&obj(vec![("output", JsonValue::Str(s("o")))])), Some(s("o")));
    assert_eq!(
        extract_agent_output(&obj(vec![("output", JsonValue::Null), ("text", JsonValue::Str(s("t")))])),
        Some(s("t"))
    );
    let arr = JsonValue::Array(vec![obj(vec![("text", JsonValue::Str(s("first")))]), obj(vec![("output", JsonValue::Str(s("second")))])]);
    assert_eq!(extract_agent_output(&arr), Some(s("first")));
    assert_eq!(extract_agent_output(&JsonValue::Array(vec![])), None);
    assert_eq!(extract_agent_output(&JsonValue::Bool(true)), None);
    let other = obj(vec![("result", JsonValue::Str(s("x")))]);
    assert_eq!(
        agent_messages(Some(&other), "{\n  \"result\": \"x\"\n}"),
        vec![s("**N8N Response (No 'output' or 'text' string field):**\n```json\n{\n  \"result\": \"x\"\n}\n```")]
    );
    assert_eq!(agent_messages(None, ""), vec![s("Error parsing N8N response JSON.")]);
}

#[test]
fn service_status_reply() {
    assert_eq!(status_error_reply("Hermes API", "500 Internal Server Error"), "Error from Hermes API: 500 Internal Server Error");
}

#[test]
fn waifu_prompt_mentions_ids() {
    let p = waifu_prompt(123, 456);
    assert!(p.starts_with("Kamu adalah asisten pencari gambar waifu Rizubot.\n"));
    assert!(p.contains("channel dengan ID: 123\n- PASTIKAN hasil pencarian dikirim sebagai reply ke pesan dengan ID: 456\n\nATURAN JAWABAN:"));
    assert!(p.ends_with("- Pastikan kamu melakukan reply ke pesan ID: 456\n"));
}

fn ch(id: u64, name: &str, is_category: bool, parent: Option<u64>) -> ChannelInfo {
    ChannelInfo { id, name: s(name), is_category, parent_id: parent }
}

#[test]
fn channel_listing_groups_by_category() {
    let chans = vec![
        ch(1, "general", false, Some(10)),
        ch(2, "loose", false, None),
        ch(10, "Text", true, None),
        ch(20, "Voice", true, None),
        ch(3, "music", false, Some(20)),
        ch(4, "memes", false, Some(10)),
    ];
    assert_eq!(channel_group_keys(&chans), vec![10, 20]);
    let names = vec![Some(s("Text")), None];
    assert_eq!(
        channel_listing(&chans, &names),
        "**Uncategorized**\n1. **loose** - <#2>\n\n\n**Text**\n1. **general** - <#1>\n2. **memes** - <#4>\n\n\n**Unknown Category**\n1. **music** - <#3>\n\n\n"
    );
    assert_eq!(
        channel_listing_messages(&chans, &names),
        vec![s("**Uncategorized**\n1. **loose** - <#2>\n**Text**\n1. **general** - <#1>\n2. **memes** - <#4>\n**Unknown Category**\n1. **music** - <#3>\n")]
    );
}

#[test]
fn empty_category_still_listed_and_no_channels_note() {
    let chans = vec![ch(10, "Empty", true, None)];
    assert_eq!(channel_listing(&chans, &vec![Some(s("Empty"))]), "**Empty**\n\n\n");
    assert_eq!(channel_listing_messages(&vec![], &vec![]), vec![s("No channels found.")]);
}

#[test]
fn clear_keeps_playing_track() {
    let mut q: VecDeque<u32> = VecDeque::from(vec![1, 2, 3, 4]);
    clear_upcoming(&mut q);
    assert_eq!(q, VecDeque::from(vec![1]));
    let mut one: VecDeque<u32> = VecDeque::from(vec![7]);
    clear_upcoming(&mut one);
    assert_eq!(one, VecDeque::from(vec![7]));
    let mut none: VecDeque<u32> = VecDeque::new();
    clear_upcoming(&mut none);
    assert!(none.is_empty());
}

#[test]
fn jump_drops_tracks_before_target() {
    assert!(!jump_allowed(1, 5));
    assert!(!jump_allowed(0, 5));
    assert!(!jump_allowed(6, 5));
    assert!(jump_allowed(2, 5));
    assert!(jump_allowed(5, 5));
    let mut q: VecDeque<u32> = VecDeque::from(vec![1, 2, 3, 4, 5]);
    drop_before(&mut q, 4);
    assert_eq!(q, VecDeque::from(vec![1, 4, 5]));
    let mut r: VecDeque<u32> = VecDeque::from(vec![1, 2, 3]);
    drop_before(&mut r, 2);
    assert_eq!(r, VecDeque::from(vec![1, 2, 3]));
    assert_eq!(jump_refused_reply(3), "Nomor lagu tidak valid. Antrean saat ini memiliki 3 lagu. (Gunakan angka > 1)");
    assert_eq!(jump_done_reply(4), "⏭️ Melompat ke lagu nomor 4.");
}

#[test]
fn queue_listing_text() {
    assert_eq!(queue_listing(&vec![]), "Antrean saat ini kosong.");
    assert_eq!(
        queue_listing(&vec![Some(s("Song A")), None, Some(s("Song C"))]),
        "🎶 **Antrean Lagu:**\n**1.** Song A (Sedang diputar)\n**2.** Unknown Title\n**3.** Song C\n"
    );
}

#[test]
fn play_replies() {
    assert_eq!(track_title(None, &s("https://x")), "https://x");
    assert_eq!(track_title(Some(s("T")), &s("https://x")), "T");
    assert_eq!(queued_reply(1, "T"), "▶️ Memutar: **T**");
    assert_eq!(queued_reply(3, "T"), "🎵 Ditambahkan ke antrean (posisi #3): **T**");
    assert_eq!(resolve_failed_reply("bad"), "❌ Gagal memproses URL: ```bad```");
    assert_eq!(joined_reply(77), "Berhasil! Bot telah bergabung ke voice channel <#77>.");
}

#[test]
fn chat_reply_body_is_decoded() {
    let body = r#"{"id":"x","choices":[{"index":0,"message":{"role":"assistant","content":"Jawaban **tebal**"}}]}"#;
    assert_eq!(chat_reply_messages(body), vec![s("Jawaban **tebal**")]);
    assert_eq!(chat_reply_messages("not json"), vec![s("Error parsing AI response JSON.")]);
    assert_eq!(chat_reply_messages(r#"{"choices":[]}"#), vec![s("Error parsing AI response.")]);
    assert_eq!(chat_reply_messages(r#"{"choices":[{"message":{"content":"a\nb"}}]}"#), vec![s("a\nb")]);
}

#[test]
fn agent_reply_body_is_decoded() {
    assert_eq!(agent_reply_messages(r#"{"output":"hasil"}"#), vec![s("hasil")]);
    assert_eq!(agent_reply_messages(r#"[{"text":"dari array"}]"#), vec![s("dari array")]);
    assert_eq!(agent_reply_messages("<html>"), vec![s("Error parsing N8N response JSON.")]);
    assert_eq!(
        agent_reply_messages(r#"{"result":"x","n":1}"#),
        vec![s("**N8N Response (No 'output' or 'text' string field):**\n```json\n{\n  \"n\": 1,\n  \"result\": \"x\"\n}\n```")]
    );
}
