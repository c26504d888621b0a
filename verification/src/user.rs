//! Member profiles with experience points: the decisions of the user
//! service between its store queries, and the replies of the profile and
//! work commands.
use vstd::prelude::*;
use crate::text::{push_i64_decimal, push_str_chars, signed_decimal, string_from_chars};

verus! {

/// A member's stored profile.
#[derive(Debug, Clone)]
pub struct User {
    pub discord_id: String,
    pub username: String,
    pub xp: i64,
    pub level: i64,
}

/// Experience points of a newly registered member.
pub const NEW_USER_XP: i64 = 0;

/// Level of a newly registered member.
pub const NEW_USER_LEVEL: i64 = 1;

/// Experience points that the work command grants.
pub const WORK_XP: i64 = 10;

/// The profile stored for a member seen for the first time.
pub fn new_user(discord_id: String, username: String) -> (u: User)
    ensures
        u.discord_id == discord_id,
        u.username == username,
        u.xp == NEW_USER_XP,
        u.level == NEW_USER_LEVEL,
{
    User { discord_id, username, xp: NEW_USER_XP, level: NEW_USER_LEVEL }
}

/// What the user service learned from its store.
pub enum UserEvent {
    /// The request begins.
    Started,
    /// The member was looked up by their id.
    LookedUp(Option<User>),
    /// The member was registered.
    Created(User),
    /// The member's experience points were raised.
    XpAdded(User),
}

/// What the user service does next.
pub enum UserAction {
    /// Look the member up by their id.
    LookUp,
    /// Register the member.
    Create,
    /// Raise the member's experience points by this much.
    AddXp(i64),
    /// Answer with this profile.
    Done(User),
}

/// The next step of a request for a member's profile (`xp_to_add` is
/// `None`) or of one that adds experience points to it: the member is
/// looked up, registered when not found, and only then given the points.
pub open spec fn next_user_action_spec(xp_to_add: Option<i64>, event: UserEvent) -> UserAction {
    match event {
        UserEvent::Started => UserAction::LookUp,
        UserEvent::LookedUp(None) => UserAction::Create,
        UserEvent::LookedUp(Some(u)) => match xp_to_add {
            Some(n) => UserAction::AddXp(n),
            None => UserAction::Done(u),
        },
        UserEvent::Created(u) => match xp_to_add {
            Some(n) => UserAction::AddXp(n),
            None => UserAction::Done(u),
        },
        UserEvent::XpAdded(u) => UserAction::Done(u),
    }
}

pub fn next_user_action(xp_to_add: Option<i64>, event: UserEvent) -> (a: UserAction)
    ensures
        a == next_user_action_spec(xp_to_add, event),
{
    match event {
        UserEvent::Started => UserAction::LookUp,
        UserEvent::LookedUp(None) => UserAction::Create,
        UserEvent::LookedUp(Some(u)) => match xp_to_add {
            Some(n) => UserAction::AddXp(n),
            None => UserAction::Done(u),
        },
        UserEvent::Created(u) => match xp_to_add {
            Some(n) => UserAction::AddXp(n),
            None => UserAction::Done(u),
        },
        UserEvent::XpAdded(u) => UserAction::Done(u),
    }
}

/// Experience points are only added to a member who has been found or
/// registered, and a profile request never adds any.
pub proof fn law_xp_added_only_to_known_members(xp_to_add: Option<i64>, event: UserEvent)
    ensures
        next_user_action_spec(xp_to_add, event) is AddXp ==> (event is Created || (event is LookedUp
            && event->LookedUp_0 is Some)),
        xp_to_add is None ==> !(next_user_action_spec(xp_to_add, event) is AddXp),
{
}

/// The reply of the profile command.
pub open spec fn profile_reply_spec(u: User) -> Seq<char> {
    "**Profile for "@ + u.username@ + "**\nLevel: "@ + signed_decimal(u.level as int) + "\nXP: "@
        + signed_decimal(u.xp as int)
}

pub fn profile_reply(u: &User) -> (r: String)
    ensures
        r@ == profile_reply_spec(*u),
{
    let mut v: Vec<char> = Vec::new();
    push_str_chars(&mut v, "**Profile for ");
    push_str_chars(&mut v, u.username.as_str());
    push_str_chars(&mut v, "**\nLevel: ");
    push_i64_decimal(&mut v, u.level);
    push_str_chars(&mut v, "\nXP: ");
    push_i64_decimal(&mut v, u.xp);
    assert(v@ =~= profile_reply_spec(*u));
    string_from_chars(&v)
}

/// The reply of the work command, given the member's profile after the
/// points were added.
pub open spec fn work_reply_spec(u: User) -> Seq<char> {
    "You worked hard and gained 10 XP! Total XP: "@ + signed_decimal(u.xp as int)
}

pub fn work_reply(u: &User) -> (r: String)
    ensures
        r@ == work_reply_spec(*u),
{
    let mut v: Vec<char> = Vec::new();
    push_str_chars(&mut v, "You worked hard and gained 10 XP! Total XP: ");
    push_i64_decimal(&mut v, u.xp);
    assert(v@ =~= work_reply_spec(*u));
    string_from_chars(&v)
}

/// A member found in the store is answered as stored: a profile request
/// after a lookup that found `u` is done with `u`, and a member is
/// registered only after a lookup that found nobody.
pub proof fn law_found_member_is_not_registered_again(xp_to_add: Option<i64>, event: UserEvent, u: User)
    ensures
        next_user_action_spec(None, UserEvent::LookedUp(Some(u))) == UserAction::Done(u),
        next_user_action_spec(xp_to_add, event) is Create ==> event == UserEvent::LookedUp(None),
        next_user_action_spec(xp_to_add, UserEvent::LookedUp(Option::<User>::None)) == UserAction::Create,
        xp_to_add is Some && event is LookedUp && event->LookedUp_0 is Some ==> next_user_action_spec(
            xp_to_add,
            event,
        ) == UserAction::AddXp(xp_to_add.unwrap()),
{
}

} // verus!
