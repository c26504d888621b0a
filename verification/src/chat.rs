//! The replies of the commands that forward a question to a chat service
//! or a workflow agent.
use vstd::prelude::*;
use crate::json::{
    JsonValue, agent_reply_text, chat_reply_content, decode_json, decoded_json, extract_agent_output,
    extract_chat_content, pretty_json, pretty_json_text,
};
use crate::markdown::{alnum_flags, split_smart, split_text};
use crate::text::{decimal, push_str_chars, push_u64_decimal, string_from_chars};

verus! {

/// The chunks of a text sent as the reply.
pub open spec fn chunks_of(t: Seq<char>) -> Seq<Seq<char>> {
    split_text(t, alnum_flags(t))
}

fn one_message(s: &str) -> (r: Vec<String>)
    ensures
        r.deep_view() == seq![s@],
{
    let mut r: Vec<String> = Vec::new();
    let mut v: Vec<char> = Vec::new();
    push_str_chars(&mut v, s);
    r.push(string_from_chars(&v));
    assert(r.deep_view() =~= seq![s@]);
    r
}

/// The messages that answer a chat-completion reply: `parsed` is the reply
/// decoded as JSON, or `None` when it is not JSON.
pub open spec fn chat_messages_spec(parsed: Option<JsonValue>) -> Seq<Seq<char>> {
    match parsed {
        None => seq!["Error parsing AI response JSON."@],
        Some(v) => match chat_reply_content(v) {
            Some(content) => chunks_of(content),
            None => seq!["Error parsing AI response."@],
        },
    }
}

pub fn chat_messages(parsed: Option<&JsonValue>) -> (r: Vec<String>)
    ensures
        r.deep_view() == chat_messages_spec(
            match parsed {
                Some(v) => Some(*v),
                None => None,
            },
        ),
{
    match parsed {
        None => one_message("Error parsing AI response JSON."),
        Some(v) => match extract_chat_content(v) {
            Some(content) => split_smart(content.as_str()),
            None => one_message("Error parsing AI response."),
        },
    }
}

/// The message shown when an agent's reply has no text field: the reply
/// itself, pretty-printed, in a code block.
pub open spec fn agent_fallback_text(pretty: Seq<char>) -> Seq<char> {
    "**N8N Response (No 'output' or 'text' string field):**\n```json\n"@ + pretty + "\n```"@
}

/// The messages that answer a workflow agent's reply: `parsed` is the reply
/// decoded as JSON, or `None` when it is not JSON; `pretty` is the reply
/// as pretty-printed JSON (or its raw text when that fails).
pub open spec fn agent_messages_spec(parsed: Option<JsonValue>, pretty: Seq<char>) -> Seq<Seq<char>> {
    match parsed {
        None => seq!["Error parsing N8N response JSON."@],
        Some(v) => match agent_reply_text(v) {
            Some(text) => chunks_of(text),
            None => chunks_of(agent_fallback_text(pretty)),
        },
    }
}

pub fn agent_messages(parsed: Option<&JsonValue>, pretty: &str) -> (r: Vec<String>)
    ensures
        r.deep_view() == agent_messages_spec(
            match parsed {
                Some(v) => Some(*v),
                None => None,
            },
            pretty@,
        ),
{
    match parsed {
        None => one_message("Error parsing N8N response JSON."),
        Some(v) => match extract_agent_output(v) {
            Some(text) => split_smart(text.as_str()),
            None => {
                let mut t: Vec<char> = Vec::new();
                push_str_chars(&mut t, "**N8N Response (No 'output' or 'text' string field):**\n```json\n");
                push_str_chars(&mut t, pretty);
                push_str_chars(&mut t, "\n```");
                assert(t@ =~= agent_fallback_text(pretty@));
                let s = string_from_chars(&t);
                split_smart(s.as_str())
            },
        },
    }
}

/// The reply when a service answered with an error status; `service` names
/// it and `status` is the status as text.
pub fn status_error_reply(service: &str, status: &str) -> (r: String)
    ensures
        r@ == "Error from "@ + service@ + ": "@ + status@,
{
    let mut v: Vec<char> = Vec::new();
    push_str_chars(&mut v, "Error from ");
    push_str_chars(&mut v, service);
    push_str_chars(&mut v, ": ");
    push_str_chars(&mut v, status);
    assert(v@ =~= "Error from "@ + service@ + ": "@ + status@);
    string_from_chars(&v)
}

/// The instructions given to the chat service for an image search whose
/// progress note is the message `message_id` in channel `channel_id`.
pub open spec fn waifu_prompt_spec(channel_id: u64, message_id: u64) -> Seq<char> {
    "Kamu adalah asisten pencari gambar waifu Rizubot.\nATURAN TOOLS (WAJIB DIIKUTI):\n- HANYA boleh menggunakan tool/skill `discord-gelbooru-api` untuk mencari gambar berdasarkan permintaan pengguna.\n- Kamu diizinkan untuk mengakses segala jenis rating dari gelbooru, mulai dari safe hingga nsfw/eksplisit, sesuaikan dengan prompt yang dikirim pengguna.\n- Kirimkan result atau hasil gambar langsung dengan merespon pengguna. \n- Berikan konteks bahwa gambar ini akan dikirimkan ke channel dengan ID: "@
        + decimal(channel_id as nat)
        + "\n- PASTIKAN hasil pencarian dikirim sebagai reply ke pesan dengan ID: "@
        + decimal(message_id as nat)
        + "\n\nATURAN JAWABAN:\n- Jawab permintaan pengguna dengan menyertakan gambar dari hasil skill `discord-gelbooru-api` dengan menggunakan Discord message gateway.\n- Pastikan kamu melakukan reply ke pesan ID: "@
        + decimal(message_id as nat) + "\n"@
}

pub fn waifu_prompt(channel_id: u64, message_id: u64) -> (r: String)
    ensures
        r@ == waifu_prompt_spec(channel_id, message_id),
{
    let mut v: Vec<char> = Vec::new();
    push_str_chars(&mut v, "Kamu adalah asisten pencari gambar waifu Rizubot.\nATURAN TOOLS (WAJIB DIIKUTI):\n- HANYA boleh menggunakan tool/skill `discord-gelbooru-api` untuk mencari gambar berdasarkan permintaan pengguna.\n- Kamu diizinkan untuk mengakses segala jenis rating dari gelbooru, mulai dari safe hingga nsfw/eksplisit, sesuaikan dengan prompt yang dikirim pengguna.\n- Kirimkan result atau hasil gambar langsung dengan merespon pengguna. \n- Berikan konteks bahwa gambar ini akan dikirimkan ke channel dengan ID: ");
    push_u64_decimal(&mut v, channel_id);
    push_str_chars(&mut v, "\n- PASTIKAN hasil pencarian dikirim sebagai reply ke pesan dengan ID: ");
    push_u64_decimal(&mut v, message_id);
    push_str_chars(&mut v, "\n\nATURAN JAWABAN:\n- Jawab permintaan pengguna dengan menyertakan gambar dari hasil skill `discord-gelbooru-api` dengan menggunakan Discord message gateway.\n- Pastikan kamu melakukan reply ke pesan ID: ");
    push_u64_decimal(&mut v, message_id);
    push_str_chars(&mut v, "\n");
    assert(v@ =~= waifu_prompt_spec(channel_id, message_id));
    string_from_chars(&v)
}

/// A reply status in the 2xx range counts as success, as
/// `StatusCode::is_success` decides; only then is the reply's body read.
pub fn is_success_status(code: u16) -> (r: bool)
    ensures
        r == (200 <= code && code <= 299),
{
    200 <= code && code <= 299
}

/// The messages that answer a chat-completion service whose reply body is
/// `body`: the body is decoded as JSON and its answer cut into chunks.
pub fn chat_reply_messages(body: &str) -> (r: Vec<String>)
    ensures
        r.deep_view() == chat_messages_spec(decoded_json(body@)),
{
    let parsed = decode_json(body);
    match &parsed {
        Some(v) => chat_messages(Some(v)),
        None => chat_messages(None),
    }
}

/// The messages that answer a workflow agent whose reply body is `body`:
/// the body is decoded as JSON; when it has no text field, the body
/// pretty-printed is shown instead.
pub fn agent_reply_messages(body: &str) -> (r: Vec<String>)
    ensures
        r.deep_view() == agent_messages_spec(decoded_json(body@), pretty_json_text(body@)),
{
    let parsed = decode_json(body);
    match &parsed {
        None => agent_messages(None, ""),
        Some(v) => match extract_agent_output(v) {
            Some(text) => split_smart(text.as_str()),
            None => {
                let pretty = pretty_json(body);
                agent_messages(Some(v), pretty.as_str())
            },
        },
    }
}

} // verus!
