//! Reaction roles: a member who reacts to a message with an emoji gets a
//! role, and loses it when the reaction is taken back.
use vstd::prelude::*;
use crate::text::{chars_of, decimal, digit_char, join2, join_i64, push_i64_decimal, push_str_chars, signed_decimal, string_from_chars};

verus! {

/// A stored reaction role: reacting with `emoji` to the message
/// `message_id` in channel `channel_id` grants the role `role_id`.
#[derive(Debug, Clone)]
pub struct ReactionRole {
    pub id: i64,
    pub message_id: String,
    pub channel_id: String,
    pub role_id: String,
    pub role_name: Option<String>,
    pub emoji: String,
}

/// `c` is an ASCII decimal digit.
pub open spec fn is_digit(c: char) -> bool {
    '0' <= c && c <= '9'
}

/// The number written by the decimal digits `d`.
pub open spec fn digits_value(d: Seq<char>) -> nat
    decreases d.len(),
{
    if d.len() == 0 {
        0
    } else {
        digits_value(d.drop_last()) * 10 + ((d.last() as u32) - ('0' as u32)) as nat
    }
}

/// What follows an optional leading `+`.
pub open spec fn unsigned_digits(s: Seq<char>) -> Seq<char> {
    if s.len() > 0 && s[0] == '+' {
        s.drop_first()
    } else {
        s
    }
}

/// `s.parse::<u64>()`: an optional `+` and then one or more decimal digits
/// whose value fits in a `u64`; anything else is an error.
pub open spec fn parse_u64_spec(s: Seq<char>) -> Option<u64> {
    let d = unsigned_digits(s);
    if d.len() > 0 && (forall|i: int| 0 <= i < d.len() ==> is_digit(#[trigger] d[i]))
        && digits_value(d) <= u64::MAX {
        Some(digits_value(d) as u64)
    } else {
        None
    }
}

proof fn lemma_digits_value_grows(d: Seq<char>, k: int)
    requires
        0 <= k <= d.len(),
        forall|i: int| 0 <= i < d.len() ==> is_digit(#[trigger] d[i]),
    ensures
        digits_value(d.take(k)) <= digits_value(d),
    decreases d.len() - k,
{
    if k < d.len() {
        lemma_digits_value_grows(d, k + 1);
        assert(d.take(k + 1).drop_last() =~= d.take(k));
        assert(d.take(k + 1).last() == d[k]);
        assert(is_digit(d[k]));
    } else {
        assert(d.take(k) =~= d);
    }
}

/// Parses a decimal `u64` as `str::parse::<u64>` does.
pub fn parse_u64(s: &str) -> (r: Option<u64>)
    ensures
        r == parse_u64_spec(s@),
{
    let chars = chars_of(s);
    let mut i: usize = 0;
    if chars.len() > 0 && chars[0] == '+' {
        i = 1;
    }
    let ghost d = unsigned_digits(s@);
    assert(d =~= chars@.skip(i as int));
    if i >= chars.len() {
        return None;
    }
    let start = i;
    let mut acc: u64 = 0;
    assert(d.take(0) =~= Seq::<char>::empty());
    while i < chars.len()
        invariant
            start <= i <= chars.len(),
            start < chars.len(),
            chars@ == s@,
            d == chars@.skip(start as int),
            d == unsigned_digits(s@),
            d.len() > 0,
            forall|k: int| 0 <= k < i - start ==> is_digit(#[trigger] d[k]),
            acc == digits_value(d.take(i - start)),
        decreases chars.len() - i,
    {
        let c = chars[i];
        if !('0' <= c && c <= '9') {
            assert(!is_digit(d[i - start]));
            return None;
        }
        let dv = (c as u32 - '0' as u32) as u64;
        assert(d.take(i - start + 1).drop_last() =~= d.take(i - start));
        assert(d.take(i - start + 1).last() == c);
        match acc.checked_mul(10) {
            None => {
                proof {
                    assert(digits_value(d.take(i - start + 1)) > u64::MAX);
                    if forall|k: int| 0 <= k < d.len() ==> is_digit(#[trigger] d[k]) {
                        lemma_digits_value_grows(d, i - start + 1);
                    }
                }
                return None;
            },
            Some(m) => match m.checked_add(dv) {
                None => {
                    proof {
                        if forall|k: int| 0 <= k < d.len() ==> is_digit(#[trigger] d[k]) {
                            lemma_digits_value_grows(d, i - start + 1);
                        }
                    }
                    return None;
                },
                Some(a) => {
                    acc = a;
                },
            },
        }
        i = i + 1;
    }
    assert(d.take(i - start) =~= d);
    Some(acc)
}

/// A role to give or take back after a reaction.
#[derive(Debug, Clone, Copy, PartialEq, Eq)]
pub struct RoleChange {
    pub guild_id: u64,
    pub user_id: u64,
    pub role_id: u64,
    /// The role is given (a reaction was added) or taken back (removed).
    pub grant: bool,
}

/// What a reaction on `record`'s message changes: nothing unless a record
/// was found, its role id is a number, and the reaction came from a member
/// of a server.
pub open spec fn role_change_spec(
    record: Option<ReactionRole>,
    added: bool,
    guild_id: Option<u64>,
    user_id: Option<u64>,
) -> Option<RoleChange> {
    match record {
        Some(rr) => match parse_u64_spec(rr.role_id@) {
            Some(role) => match (guild_id, user_id) {
                (Some(g), Some(u)) => Some(RoleChange { guild_id: g, user_id: u, role_id: role, grant: added }),
                _ => None,
            },
            None => None,
        },
        None => None,
    }
}

/// The role change for a reaction that was `added` (or removed), given the
/// stored reaction role found for its message and emoji.
pub fn role_change(record: Option<&ReactionRole>, added: bool, guild_id: Option<u64>, user_id: Option<u64>) -> (r: Option<RoleChange>)
    ensures
        r == role_change_spec(
            match record {
                Some(x) => Some(*x),
                None => None,
            },
            added,
            guild_id,
            user_id,
        ),
{
    match record {
        Some(rr) => match parse_u64(rr.role_id.as_str()) {
            Some(role) => match (guild_id, user_id) {
                (Some(g), Some(u)) => Some(RoleChange { guild_id: g, user_id: u, role_id: role, grant: added }),
                _ => None,
            },
            None => None,
        },
        None => None,
    }
}

/// Whether the author may manage reaction roles: `perms` holds the
/// author's "manage roles" and "administrator" permissions when they could
/// be read; when they could not, the command goes ahead.
pub open spec fn may_manage_spec(perms: Option<(bool, bool)>) -> bool {
    match perms {
        Some((manage_roles, administrator)) => manage_roles || administrator,
        None => true,
    }
}

pub fn may_manage_reaction_roles(perms: Option<(bool, bool)>) -> (r: bool)
    ensures
        r == may_manage_spec(perms),
{
    match perms {
        Some((manage_roles, administrator)) => manage_roles || administrator,
        None => true,
    }
}

/// The name shown for a role whose name is not stored.
pub open spec fn role_name_text(name: Option<String>) -> Seq<char> {
    match name {
        Some(s) => s@,
        None => "Unknown"@,
    }
}

/// One line of the listing of reaction roles.
pub open spec fn role_line(rr: ReactionRole) -> Seq<char> {
    "**"@ + rr.emoji@ + "** - "@ + role_name_text(rr.role_name) + " (Role ID: "@ + rr.role_id@
        + ", ID: "@ + signed_decimal(rr.id as int) + ")\n"@
}

/// The lines of the listing of `rs`, in order.
pub open spec fn role_lines(rs: Seq<ReactionRole>) -> Seq<char>
    decreases rs.len(),
{
    if rs.len() == 0 {
        seq![]
    } else {
        role_lines(rs.drop_last()) + role_line(rs.last())
    }
}

/// The reply listing the reaction roles `rs`.
pub open spec fn roles_listing(rs: Seq<ReactionRole>) -> Seq<char> {
    if rs.len() == 0 {
        "No reaction roles found."@
    } else {
        "**Reaction Roles:**\n"@ + role_lines(rs)
    }
}

fn push_role_line(v: &mut Vec<char>, rr: &ReactionRole)
    ensures
        final(v)@ == old(v)@ + role_line(*rr),
{
    push_str_chars(v, "**");
    push_str_chars(v, rr.emoji.as_str());
    push_str_chars(v, "** - ");
    match &rr.role_name {
        Some(name) => push_str_chars(v, name.as_str()),
        None => push_str_chars(v, "Unknown"),
    }
    push_str_chars(v, " (Role ID: ");
    push_str_chars(v, rr.role_id.as_str());
    push_str_chars(v, ", ID: ");
    push_i64_decimal(v, rr.id);
    push_str_chars(v, ")\n");
    assert(final(v)@ =~= old(v)@ + role_line(*rr));
}

/// The reply to the listing command, for the stored reaction roles `roles`.
pub fn reaction_roles_listing(roles: &Vec<ReactionRole>) -> (r: String)
    ensures
        r@ == roles_listing(roles@),
{
    let mut v: Vec<char> = Vec::new();
    if roles.len() == 0 {
        push_str_chars(&mut v, "No reaction roles found.");
        return string_from_chars(&v);
    }
    push_str_chars(&mut v, "**Reaction Roles:**\n");
    let ghost head = v@;
    let mut i: usize = 0;
    assert(roles@.take(0) =~= Seq::<ReactionRole>::empty());
    while i < roles.len()
        invariant
            i <= roles.len(),
            v@ == head + role_lines(roles@.take(i as int)),
        decreases roles.len() - i,
    {
        assert(roles@.take(i + 1).drop_last() =~= roles@.take(i as int));
        push_role_line(&mut v, &roles[i]);
        assert(head + role_lines(roles@.take(i + 1)) =~= head + role_lines(roles@.take(i as int)) + role_line(roles@[i as int]));
        i = i + 1;
    }
    assert(roles@.take(i as int) =~= roles@);
    string_from_chars(&v)
}

} // verus!

verus! {

/// The reply after trying to delete reaction role `id`: whether one was
/// deleted, or the store's error message.
pub open spec fn remove_reply_spec(outcome: Result<bool, Seq<char>>, id: i64) -> Seq<char> {
    match outcome {
        Ok(true) => "Removed reaction role for ID "@ + signed_decimal(id as int),
        Ok(false) => "Could not find reaction role with ID "@ + signed_decimal(id as int),
        Err(e) => "Error deleting reaction role: "@ + e,
    }
}

pub fn remove_reply(outcome: Result<bool, String>, id: i64) -> (r: String)
    ensures
        r@ == remove_reply_spec(
            match outcome {
                Ok(b) => Ok(b),
                Err(e) => Err(e@),
            },
            id,
        ),
{
    match outcome {
        Ok(true) => {
            proof {
                reveal_strlit("");
            }
            join_i64("Removed reaction role for ID ", id, "")
        },
        Ok(false) => {
            proof {
                reveal_strlit("");
            }
            join_i64("Could not find reaction role with ID ", id, "")
        },
        Err(e) => join2("Error deleting reaction role: ", e.as_str()),
    }
}

/// The reply after trying to store a new reaction role.
pub open spec fn save_reply_spec(outcome: Result<(), Seq<char>>) -> Seq<char> {
    match outcome {
        Ok(()) => "Success added reaction role!"@,
        Err(e) => "Failed to save reaction role to database: "@ + e,
    }
}

pub fn save_reply(outcome: Result<(), String>) -> (r: String)
    ensures
        r@ == save_reply_spec(
            match outcome {
                Ok(()) => Ok(()),
                Err(e) => Err(e@),
            },
        ),
{
    match outcome {
        Ok(()) => {
            proof {
                reveal_strlit("");
            }
            join2("Success added reaction role!", "")
        },
        Err(e) => join2("Failed to save reaction role to database: ", e.as_str()),
    }
}

/// The reply when the bot could not react to its own message.
pub fn react_failed_reply(error: &str) -> (r: String)
    ensures
        r@ == "Failed to add reaction: "@ + error@,
{
    join2("Failed to add reaction: ", error)
}

/// The reply to the listing command: the listing, or the store's error.
pub fn listing_reply(outcome: Result<Vec<ReactionRole>, String>) -> (r: String)
    ensures
        r@ == match outcome {
            Ok(roles) => roles_listing(roles@),
            Err(e) => "Error fetching reaction roles: "@ + e@,
        },
{
    match outcome {
        Ok(roles) => reaction_roles_listing(&roles),
        Err(e) => join2("Error fetching reaction roles: ", e.as_str()),
    }
}

proof fn lemma_digit_value(d: nat)
    requires
        d < 10,
    ensures
        is_digit(digit_char(d)),
        ((digit_char(d) as u32) - ('0' as u32)) as nat == d,
{
    let t = seq!['0', '1', '2', '3', '4', '5', '6', '7', '8', '9'];
    assert(digit_char(d) == t[d as int]);
    if d == 0 {
        assert(t[0] == '0');
    } else if d == 1 {
        assert(t[1] == '1');
    } else if d == 2 {
        assert(t[2] == '2');
    } else if d == 3 {
        assert(t[3] == '3');
    } else if d == 4 {
        assert(t[4] == '4');
    } else if d == 5 {
        assert(t[5] == '5');
    } else if d == 6 {
        assert(t[6] == '6');
    } else if d == 7 {
        assert(t[7] == '7');
    } else if d == 8 {
        assert(t[8] == '8');
    } else {
        assert(t[9] == '9');
    }
}

proof fn lemma_decimal_digits(n: nat)
    ensures
        decimal(n).len() > 0,
        forall|i: int| 0 <= i < decimal(n).len() ==> is_digit(#[trigger] decimal(n)[i]),
        digits_value(decimal(n)) == n,
        decimal(n)[0] != '+',
    decreases n,
{
    let t = seq!['0', '1', '2', '3', '4', '5', '6', '7', '8', '9'];
    if n < 10 {
        lemma_digit_value(n);
        assert(decimal(n) =~= seq![digit_char(n)]);
        assert(decimal(n).drop_last() =~= Seq::<char>::empty());
        assert(decimal(n).last() == digit_char(n));
        assert(digits_value(decimal(n)) == digits_value(Seq::<char>::empty()) * 10 + ((digit_char(n) as u32) - ('0' as u32)) as nat);
    } else {
        lemma_decimal_digits(n / 10);
        let d = (n % 10) as nat;
        lemma_digit_value(d);
        let s = decimal(n / 10).push(digit_char(d));
        assert(decimal(n) == s);
        assert(s.drop_last() =~= decimal(n / 10));
        assert forall|i: int| 0 <= i < s.len() implies is_digit(#[trigger] s[i]) by {
            if i < s.len() - 1 {
                assert(s[i] == decimal(n / 10)[i]);
            }
        }
        assert(s[0] == decimal(n / 10)[0]);
        assert(s.last() == digit_char(d));
        assert(digits_value(s) == digits_value(decimal(n / 10)) * 10 + d);
        assert(n == (n / 10) * 10 + n % 10);
    }
}

/// Reading back the decimal text of a number gives the number: the ids
/// that the bot stores as text are found again as numbers.
pub proof fn law_parse_reads_back_decimal(n: u64)
    ensures
        parse_u64_spec(decimal(n as nat)) == Some(n),
{
    lemma_decimal_digits(n as nat);
}

/// Taking a reaction back undoes adding it: for the same stored record,
/// server and member, a removed reaction takes back exactly the role that
/// the added reaction gives, and adding one gives it.
pub proof fn law_remove_undoes_add(
    record: Option<ReactionRole>,
    guild_id: Option<u64>,
    user_id: Option<u64>,
)
    ensures
        role_change_spec(record, true, guild_id, user_id) is Some
            <==> role_change_spec(record, false, guild_id, user_id) is Some,
        role_change_spec(record, true, guild_id, user_id) matches Some(add) ==> {
            &&& add.grant
            &&& role_change_spec(record, false, guild_id, user_id) == Some(
                RoleChange { grant: false, ..add },
            )
        },
{
}

/// Either permission, "manage roles" or "administrator", lets the author
/// manage reaction roles, and so do both; an author with neither is
/// refused; when the permissions could not be read the command goes ahead.
pub proof fn law_either_permission_allows(manage_roles: bool, administrator: bool)
    ensures
        manage_roles ==> may_manage_spec(Some((manage_roles, administrator))),
        administrator ==> may_manage_spec(Some((manage_roles, administrator))),
        !manage_roles && !administrator ==> !may_manage_spec(Some((manage_roles, administrator))),
        may_manage_spec(None),
{
}

} // verus!
