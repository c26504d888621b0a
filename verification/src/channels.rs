//! The channel listing: a server's channels grouped by category.
use vstd::prelude::*;
use crate::markdown::{alnum_flags, split_smart, split_text};
use crate::reaction_role::{law_parse_reads_back_decimal, parse_u64_spec};
use crate::text::{decimal, push_str_chars, push_u64_decimal, push_usize_decimal, string_from_chars};

verus! {

/// What the listing reads of a channel.
#[derive(Debug, Clone)]
pub struct ChannelInfo {
    pub id: u64,
    pub name: String,
    /// The channel is a category, which holds other channels.
    pub is_category: bool,
    /// The category the channel belongs to, if any.
    pub parent_id: Option<u64>,
}

/// The group a channel counts for: a category is the key of its own
/// group, any other channel belongs to its parent's.
pub open spec fn group_key(c: ChannelInfo) -> Option<u64> {
    if c.is_category {
        Some(c.id)
    } else {
        c.parent_id
    }
}

/// The category groups, each once, in the order in which they first appear.
pub open spec fn group_keys(chs: Seq<ChannelInfo>) -> Seq<u64>
    decreases chs.len(),
{
    if chs.len() == 0 {
        seq![]
    } else {
        let ks = group_keys(chs.drop_last());
        match group_key(chs.last()) {
            Some(id) => if ks.contains(id) {
                ks
            } else {
                ks.push(id)
            },
            None => ks,
        }
    }
}

/// The channels (not categories) under `key`, in order; `None` gathers
/// those without a category.
pub open spec fn members_of(chs: Seq<ChannelInfo>, key: Option<u64>) -> Seq<ChannelInfo>
    decreases chs.len(),
{
    if chs.len() == 0 {
        seq![]
    } else {
        let rest = members_of(chs.drop_last(), key);
        if !chs.last().is_category && chs.last().parent_id == key {
            rest.push(chs.last())
        } else {
            rest
        }
    }
}

/// The line of the `idx`-th channel of a group.
pub open spec fn item_line(idx: nat, c: ChannelInfo) -> Seq<char> {
    decimal(idx) + ". **"@ + c.name@ + "** - <#"@ + decimal(c.id as nat) + ">\n"@
}

/// The numbered lines of a group's channels.
pub open spec fn item_lines(chs: Seq<ChannelInfo>) -> Seq<char>
    decreases chs.len(),
{
    if chs.len() == 0 {
        seq![]
    } else {
        item_lines(chs.drop_last()) + item_line(chs.len(), chs.last())
    }
}

/// A group under its title.
pub open spec fn section(title: Seq<char>, chs: Seq<ChannelInfo>) -> Seq<char> {
    "**"@ + title + "**\n"@ + item_lines(chs) + "\n\n"@
}

/// The title of a category: its name, when it could be fetched.
pub open spec fn category_title(name: Option<String>) -> Seq<char> {
    match name {
        Some(s) => s@,
        None => "Unknown Category"@,
    }
}

/// The sections of the first `n` categories.
pub open spec fn category_sections(
    chs: Seq<ChannelInfo>,
    keys: Seq<u64>,
    names: Seq<Option<String>>,
    n: int,
) -> Seq<char>
    decreases n,
{
    if n <= 0 {
        seq![]
    } else {
        category_sections(chs, keys, names, n - 1) + section(
            category_title(names[n - 1]),
            members_of(chs, Some(keys[n - 1])),
        )
    }
}

/// The listing: channels without a category first (when there are any),
/// then each category with its channels; `names[k]` is the name fetched
/// for the `k`-th category.
pub open spec fn channel_listing_spec(chs: Seq<ChannelInfo>, names: Seq<Option<String>>) -> Seq<char> {
    let loose = members_of(chs, None);
    let keys = group_keys(chs);
    (if loose.len() > 0 {
        section("Uncategorized"@, loose)
    } else {
        seq![]
    }) + category_sections(chs, keys, names, keys.len() as int)
}

fn key_of(c: &ChannelInfo) -> (k: Option<u64>)
    ensures
        k == group_key(*c),
{
    if c.is_category {
        Some(c.id)
    } else {
        c.parent_id
    }
}

fn contains_u64(v: &Vec<u64>, x: u64) -> (r: bool)
    ensures
        r == v@.contains(x),
{
    let mut i: usize = 0;
    while i < v.len()
        invariant
            i <= v.len(),
            forall|k: int| 0 <= k < i ==> v@[k] != x,
        decreases v.len() - i,
    {
        if v[i] == x {
            assert(v@[i as int] == x);
            return true;
        }
        i = i + 1;
    }
    false
}

/// The category groups of `channels`, each once, in order of first appearance.
pub fn channel_group_keys(channels: &Vec<ChannelInfo>) -> (keys: Vec<u64>)
    ensures
        keys@ == group_keys(channels@),
{
    let mut keys: Vec<u64> = Vec::new();
    let mut i: usize = 0;
    assert(channels@.take(0) =~= Seq::<ChannelInfo>::empty());
    while i < channels.len()
        invariant
            i <= channels.len(),
            keys@ == group_keys(channels@.take(i as int)),
        decreases channels.len() - i,
    {
        assert(channels@.take(i + 1).drop_last() =~= channels@.take(i as int));
        assert(channels@.take(i + 1).last() == channels@[i as int]);
        match key_of(&channels[i]) {
            Some(id) => {
                if !contains_u64(&keys, id) {
                    keys.push(id);
                }
            },
            None => {},
        }
        i = i + 1;
    }
    assert(channels@.take(i as int) =~= channels@);
    keys
}

fn members_exec(channels: &Vec<ChannelInfo>, key: Option<u64>) -> (r: Vec<&ChannelInfo>)
    ensures
        r@.len() == members_of(channels@, key).len(),
        forall|k: int| 0 <= k < r@.len() ==> *r@[k] == #[trigger] members_of(channels@, key)[k],
{
    let mut r: Vec<&ChannelInfo> = Vec::new();
    let mut i: usize = 0;
    assert(channels@.take(0) =~= Seq::<ChannelInfo>::empty());
    while i < channels.len()
        invariant
            i <= channels.len(),
            r@.len() == members_of(channels@.take(i as int), key).len(),
            forall|k: int| 0 <= k < r@.len() ==> *r@[k] == #[trigger] members_of(channels@.take(i as int), key)[k],
        decreases channels.len() - i,
    {
        assert(channels@.take(i + 1).drop_last() =~= channels@.take(i as int));
        assert(channels@.take(i + 1).last() == channels@[i as int]);
        let c = &channels[i];
        if !c.is_category && c.parent_id == key {
            r.push(c);
        }
        i = i + 1;
    }
    assert(channels@.take(i as int) =~= channels@);
    r
}

fn push_section(v: &mut Vec<char>, title: &str, chs: &Vec<&ChannelInfo>, ghost_chs: Ghost<Seq<ChannelInfo>>)
    requires
        chs@.len() == ghost_chs@.len(),
        forall|k: int| 0 <= k < chs@.len() ==> *chs@[k] == #[trigger] ghost_chs@[k],
    ensures
        final(v)@ == old(v)@ + section(title@, ghost_chs@),
{
    let ghost g = ghost_chs@;
    push_str_chars(v, "**");
    push_str_chars(v, title);
    push_str_chars(v, "**\n");
    let ghost head = v@;
    let mut i: usize = 0;
    assert(g.take(0) =~= Seq::<ChannelInfo>::empty());
    while i < chs.len()
        invariant
            i <= chs@.len(),
            chs@.len() == g.len(),
            forall|k: int| 0 <= k < chs@.len() ==> *chs@[k] == #[trigger] g[k],
            v@ == head + item_lines(g.take(i as int)),
        decreases chs.len() - i,
    {
        let ghost before = v@;
        assert(g.take(i + 1).drop_last() =~= g.take(i as int));
        assert(g.take(i + 1).last() == g[i as int]);
        let c = chs[i];
        assert(*c == g[i as int]);
        push_usize_decimal(v, i + 1);
        push_str_chars(v, ". **");
        push_str_chars(v, c.name.as_str());
        push_str_chars(v, "** - <#");
        push_u64_decimal(v, c.id);
        push_str_chars(v, ">\n");
        assert(v@ =~= before + item_line((i + 1) as nat, g[i as int]));
        assert(head + item_lines(g.take(i + 1)) =~= head + item_lines(g.take(i as int)) + item_line((i + 1) as nat, g[i as int]));
        i = i + 1;
    }
    assert(g.take(i as int) =~= g);
    push_str_chars(v, "\n\n");
    assert(final(v)@ =~= old(v)@ + section(title@, g));
}

/// The listing of `channels`, where `names[k]` is the name fetched for the
/// `k`-th category group (`None` when it could not be fetched).
pub fn channel_listing(channels: &Vec<ChannelInfo>, names: &Vec<Option<String>>) -> (r: String)
    requires
        names.len() == group_keys(channels@).len(),
    ensures
        r@ == channel_listing_spec(channels@, names@),
{
    let mut v: Vec<char> = Vec::new();
    let loose = members_exec(channels, None);
    if loose.len() > 0 {
        push_section(&mut v, "Uncategorized", &loose, Ghost(members_of(channels@, None)));
    }
    let ghost head = v@;
    let keys = channel_group_keys(channels);
    let mut k: usize = 0;
    while k < keys.len()
        invariant
            k <= keys.len(),
            keys@ == group_keys(channels@),
            names.len() == keys.len(),
            v@ == head + category_sections(channels@, keys@, names@, k as int),
        decreases keys.len() - k,
    {
        let ghost before = v@;
        let members = members_exec(channels, Some(keys[k]));
        match &names[k] {
            Some(name) => push_section(&mut v, name.as_str(), &members, Ghost(members_of(channels@, Some(keys@[k as int])))),
            None => push_section(&mut v, "Unknown Category", &members, Ghost(members_of(channels@, Some(keys@[k as int])))),
        }
        assert(v@ =~= head + category_sections(channels@, keys@, names@, k + 1));
        k = k + 1;
    }
    proof {
        let loose_s = members_of(channels@, None);
        if loose_s.len() > 0 {
        } else {
            assert(head =~= Seq::<char>::empty());
        }
    }
    assert(v@ =~= channel_listing_spec(channels@, names@));
    string_from_chars(&v)
}

/// The messages of the channel listing: the listing cut into chunks, or a
/// note that there is no channel.
pub fn channel_listing_messages(channels: &Vec<ChannelInfo>, names: &Vec<Option<String>>) -> (r: Vec<String>)
    requires
        names.len() == group_keys(channels@).len(),
    ensures
        r.deep_view() == (if channel_listing_spec(channels@, names@).len() == 0 {
            seq!["No channels found."@]
        } else {
            split_text(channel_listing_spec(channels@, names@), alnum_flags(channel_listing_spec(channels@, names@)))
        }),
{
    let listing = channel_listing(channels, names);
    let chars_empty = listing.as_str().is_empty();
    if chars_empty {
        let mut r: Vec<String> = Vec::new();
        let mut v: Vec<char> = Vec::new();
        push_str_chars(&mut v, "No channels found.");
        r.push(string_from_chars(&v));
        assert(r.deep_view() =~= seq!["No channels found."@]);
        r
    } else {
        split_smart(listing.as_str())
    }
}

/// Every category, and every category that a channel names as its
/// parent, has a group in the listing, and no group comes twice.
pub proof fn law_every_category_listed_once(chs: Seq<ChannelInfo>)
    ensures
        forall|k: int| 0 <= k < chs.len() && (#[trigger] group_key(chs[k])) is Some
            ==> group_keys(chs).contains(group_key(chs[k])->0),
        forall|i: int, j: int| 0 <= i < j < group_keys(chs).len()
            ==> group_keys(chs)[i] != group_keys(chs)[j],
    decreases chs.len(),
{
    if chs.len() > 0 {
        let prev = chs.drop_last();
        law_every_category_listed_once(prev);
        let ks = group_keys(prev);
        assert forall|k: int| 0 <= k < chs.len() && (#[trigger] group_key(chs[k])) is Some
            implies group_keys(chs).contains(group_key(chs[k])->0) by {
            if k < chs.len() - 1 {
                assert(chs[k] == prev[k]);
                let x = group_key(chs[k])->0;
                let w = choose|w: int| 0 <= w < ks.len() && ks[w] == x;
                match group_key(chs.last()) {
                    Some(id) => {
                        if !ks.contains(id) {
                            assert(ks.push(id)[w] == x);
                        }
                    },
                    None => {},
                }
            } else {
                assert(chs[k] == chs.last());
                let id = group_key(chs.last())->0;
                if !ks.contains(id) {
                    assert(ks.push(id)[ks.len() as int] == id);
                }
            }
        }
        match group_key(chs.last()) {
            Some(id) => {
                if !ks.contains(id) {
                    let r = ks.push(id);
                    assert forall|i: int, j: int| 0 <= i < j < r.len() implies r[i] != r[j] by {
                        if j == ks.len() {
                            assert(r[i] == ks[i]);
                        } else {
                            assert(r[i] == ks[i]);
                            assert(r[j] == ks[j]);
                        }
                    }
                }
            },
            None => {},
        }
    }
}

/// Each channel's line mentions the channel by its whole id: the text
/// between `<#` and `>` reads back, as a `u64`, to the channel's id.
pub proof fn law_mention_reads_back_to_id(idx: nat, c: ChannelInfo)
    ensures
        ({
            let line = item_line(idx, c);
            let pre = decimal(idx) + ". **"@ + c.name@ + "** - <#"@;
            &&& pre.len() + 2 <= line.len()
            &&& line.take(pre.len() as int) == pre
            &&& line.skip(line.len() - 2) == ">\n"@
            &&& parse_u64_spec(line.subrange(pre.len() as int, line.len() - 2)) == Some(c.id)
        }),
{
    let line = item_line(idx, c);
    let pre = decimal(idx) + ". **"@ + c.name@ + "** - <#"@;
    let d = decimal(c.id as nat);
    reveal_strlit(">\n");
    assert(line == pre + d + ">\n"@);
    assert(line.take(pre.len() as int) =~= pre);
    assert(line.skip(line.len() - 2) =~= ">\n"@);
    assert(line.subrange(pre.len() as int, line.len() - 2) =~= d);
    law_parse_reads_back_decimal(c.id);
}

} // verus!
