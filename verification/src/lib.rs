//! The logic of Rizubot, a community chat bot: splitting long Markdown
//! replies into message-sized chunks, reaction roles, member profiles,
//! the music queue commands, the channel listing and the replies of the
//! chat-service commands.
use vstd::prelude::*;

pub mod channels;
pub mod chunk_size_laws;
pub mod chat;
pub mod json;
pub mod markdown;
pub mod markdown_laws;
pub mod music;
pub mod reaction_role;
pub mod rescan_laws;
pub mod scan_laws;
pub mod text;
pub mod user;

verus! {

} // verus!
