//! The music queue: what the queue commands do to the list of tracks, and
//! what they answer. The first track of a queue is the one playing.
use vstd::prelude::*;
use std::collections::VecDeque;
use crate::text::{decimal, push_str_chars, push_u64_decimal, push_usize_decimal, string_from_chars};

verus! {

/// The queue after the clear command: only the playing track stays; an
/// empty queue stays empty.
pub open spec fn cleared_queue<T>(q: Seq<T>) -> Seq<T> {
    if q.len() == 0 {
        q
    } else {
        q.take(1)
    }
}

/// Removes every track but the playing one.
pub fn clear_upcoming<T>(q: &mut VecDeque<T>)
    ensures
        final(q)@ == cleared_queue(old(q)@),
{
    q.truncate(1);
}

/// A jump to the track numbered `index` (counting from 1, the playing
/// track being number 1) is accepted when that track is queued after the
/// playing one.
pub open spec fn jump_allowed_spec(index: usize, queue_len: usize) -> bool {
    1 < index && index <= queue_len
}

pub fn jump_allowed(index: usize, queue_len: usize) -> (r: bool)
    ensures
        r == jump_allowed_spec(index, queue_len),
{
    !(index <= 1 || index > queue_len)
}

/// The queue after the tracks between the playing one and number `index`
/// are dropped (`q.drain(1..index - 1)`).
pub open spec fn jump_queue<T>(q: Seq<T>, index: int) -> Seq<T> {
    q.take(1) + q.skip(index - 1)
}

/// Drops the tracks between the playing one and number `index`, so that
/// track `index` plays next.
pub fn drop_before<T>(q: &mut VecDeque<T>, index: usize)
    requires
        2 <= index,
        index - 1 <= old(q)@.len(),
    ensures
        final(q)@ == jump_queue(old(q)@, index as int),
{
    let ghost q0 = q@;
    let mut removed: usize = 0;
    assert(q0.take(1) + q0.skip(1) =~= q0);
    while removed < index - 2
        invariant
            removed <= index - 2,
            2 <= index,
            index - 1 <= q0.len(),
            q@ == q0.take(1) + q0.skip(1 + removed),
        decreases index - 2 - removed,
    {
        let ghost before = q@;
        let r = q.remove(1);
        assert(q@ =~= q0.take(1) + q0.skip(1 + removed + 1));
        removed = removed + 1;
    }
}

/// After a jump to track `index` and the skip of the playing track, the
/// queue goes on from track `index`: it plays next.
pub proof fn law_jump_plays_chosen_track<T>(q: Seq<T>, index: int)
    requires
        2 <= index <= q.len(),
    ensures
        jump_queue(q, index).len() >= 2,
        jump_queue(q, index)[1] == q[index - 1],
        jump_queue(q, index).drop_first() == q.skip(index - 1),
{
    assert(jump_queue(q, index).drop_first() =~= q.skip(index - 1));
}

/// Clearing keeps the playing track and drops everything else; on an
/// empty queue it does nothing.
pub proof fn law_clear_keeps_only_playing<T>(q: Seq<T>)
    ensures
        q.len() >= 1 ==> cleared_queue(q).len() == 1 && cleared_queue(q)[0] == q[0],
        q.len() == 0 ==> cleared_queue(q).len() == 0,
{
}

/// The reply to a jump to `index` that is not accepted.
pub open spec fn jump_refused_reply_spec(queue_len: usize) -> Seq<char> {
    "Nomor lagu tidak valid. Antrean saat ini memiliki "@ + decimal(queue_len as nat)
        + " lagu. (Gunakan angka > 1)"@
}

pub fn jump_refused_reply(queue_len: usize) -> (r: String)
    ensures
        r@ == jump_refused_reply_spec(queue_len),
{
    let mut v: Vec<char> = Vec::new();
    push_str_chars(&mut v, "Nomor lagu tidak valid. Antrean saat ini memiliki ");
    push_usize_decimal(&mut v, queue_len);
    push_str_chars(&mut v, " lagu. (Gunakan angka > 1)");
    assert(v@ =~= jump_refused_reply_spec(queue_len));
    string_from_chars(&v)
}

/// The reply to an accepted jump to `index`.
pub fn jump_done_reply(index: usize) -> (r: String)
    ensures
        r@ == "⏭️ Melompat ke lagu nomor "@ + decimal(index as nat) + "."@,
{
    let mut v: Vec<char> = Vec::new();
    push_str_chars(&mut v, "⏭️ Melompat ke lagu nomor ");
    push_usize_decimal(&mut v, index);
    push_str_chars(&mut v, ".");
    assert(v@ =~= "⏭️ Melompat ke lagu nomor "@ + decimal(index as nat) + "."@);
    string_from_chars(&v)
}

/// The title shown for a queued track whose title could not be read.
pub open spec fn title_text(t: Option<String>) -> Seq<char> {
    match t {
        Some(s) => s@,
        None => "Unknown Title"@,
    }
}

/// The line of the `k`-th queued track (counting from 0).
pub open spec fn queue_line(k: int, t: Option<String>) -> Seq<char> {
    if k == 0 {
        "**1.** "@ + title_text(t) + " (Sedang diputar)\n"@
    } else {
        "**"@ + decimal((k + 1) as nat) + ".** "@ + title_text(t) + "\n"@
    }
}

/// The lines of the first `n` queued tracks.
pub open spec fn queue_lines(ts: Seq<Option<String>>, n: int) -> Seq<char>
    decreases n,
{
    if n <= 0 {
        seq![]
    } else {
        queue_lines(ts, n - 1) + queue_line(n - 1, ts[n - 1])
    }
}

/// The reply of the queue command for the titles `ts` of the queued tracks.
pub open spec fn queue_listing_spec(ts: Seq<Option<String>>) -> Seq<char> {
    if ts.len() == 0 {
        "Antrean saat ini kosong."@
    } else {
        "🎶 **Antrean Lagu:**\n"@ + queue_lines(ts, ts.len() as int)
    }
}

pub fn queue_listing(titles: &Vec<Option<String>>) -> (r: String)
    ensures
        r@ == queue_listing_spec(titles@),
{
    let mut v: Vec<char> = Vec::new();
    if titles.len() == 0 {
        push_str_chars(&mut v, "Antrean saat ini kosong.");
        return string_from_chars(&v);
    }
    push_str_chars(&mut v, "🎶 **Antrean Lagu:**\n");
    let ghost head = v@;
    let mut k: usize = 0;
    while k < titles.len()
        invariant
            k <= titles.len(),
            v@ == head + queue_lines(titles@, k as int),
        decreases titles.len() - k,
    {
        let ghost before = v@;
        if k == 0 {
            push_str_chars(&mut v, "**1.** ");
        } else {
            push_str_chars(&mut v, "**");
            push_usize_decimal(&mut v, k + 1);
            push_str_chars(&mut v, ".** ");
        }
        match &titles[k] {
            Some(t) => push_str_chars(&mut v, t.as_str()),
            None => push_str_chars(&mut v, "Unknown Title"),
        }
        if k == 0 {
            push_str_chars(&mut v, " (Sedang diputar)\n");
        } else {
            push_str_chars(&mut v, "\n");
        }
        assert(v@ =~= before + queue_line(k as int, titles@[k as int]));
        assert(head + queue_lines(titles@, k + 1) =~= head + queue_lines(titles@, k as int) + queue_line(k as int, titles@[k as int]));
        k = k + 1;
    }
    string_from_chars(&v)
}

/// The title of a newly queued track: the one its metadata gives, else its URL.
pub fn track_title(metadata_title: Option<String>, url: &String) -> (t: String)
    ensures
        t@ == match metadata_title {
            Some(s) => s@,
            None => url@,
        },
{
    match metadata_title {
        Some(s) => s,
        None => url.clone(),
    }
}

/// The reply after a track was queued: it plays now when it is alone in
/// the queue, else its position is given.
pub open spec fn queued_reply_spec(queue_len: usize, title: Seq<char>) -> Seq<char> {
    if queue_len > 1 {
        "🎵 Ditambahkan ke antrean (posisi #"@ + decimal(queue_len as nat) + "): **"@ + title + "**"@
    } else {
        "▶️ Memutar: **"@ + title + "**"@
    }
}

pub fn queued_reply(queue_len: usize, title: &str) -> (r: String)
    ensures
        r@ == queued_reply_spec(queue_len, title@),
{
    let mut v: Vec<char> = Vec::new();
    if queue_len > 1 {
        push_str_chars(&mut v, "🎵 Ditambahkan ke antrean (posisi #");
        push_usize_decimal(&mut v, queue_len);
        push_str_chars(&mut v, "): **");
    } else {
        push_str_chars(&mut v, "▶️ Memutar: **");
    }
    push_str_chars(&mut v, title);
    push_str_chars(&mut v, "**");
    assert(v@ =~= queued_reply_spec(queue_len, title@));
    string_from_chars(&v)
}

/// The reply when a URL could not be resolved to a track.
pub fn resolve_failed_reply(error: &str) -> (r: String)
    ensures
        r@ == "❌ Gagal memproses URL: ```"@ + error@ + "```"@,
{
    let mut v: Vec<char> = Vec::new();
    push_str_chars(&mut v, "❌ Gagal memproses URL: ```");
    push_str_chars(&mut v, error);
    push_str_chars(&mut v, "```");
    assert(v@ =~= "❌ Gagal memproses URL: ```"@ + error@ + "```"@);
    string_from_chars(&v)
}

/// The reply after the bot joined the voice channel `channel_id`.
pub fn joined_reply(channel_id: u64) -> (r: String)
    ensures
        r@ == "Berhasil! Bot telah bergabung ke voice channel <#"@ + decimal(channel_id as nat) + ">."@,
{
    let mut v: Vec<char> = Vec::new();
    push_str_chars(&mut v, "Berhasil! Bot telah bergabung ke voice channel <#");
    push_u64_decimal(&mut v, channel_id);
    push_str_chars(&mut v, ">.");
    assert(v@ =~= "Berhasil! Bot telah bergabung ke voice channel <#"@ + decimal(channel_id as nat) + ">."@);
    string_from_chars(&v)
}

/// A track queued behind others is reported with its position in the
/// queue; only a track alone in the queue is reported as playing now.
pub proof fn law_queued_reply_position(queue_len: usize, title: Seq<char>)
    ensures
        queue_len >= 2 ==> queued_reply_spec(queue_len, title) == "🎵 Ditambahkan ke antrean (posisi #"@
            + decimal(queue_len as nat) + "): **"@ + title + "**"@,
        queue_len <= 1 ==> queued_reply_spec(queue_len, title) == "▶️ Memutar: **"@ + title + "**"@,
{
}

} // verus!
