//! The board vocabulary shared by every module: node states, stop reasons,
//! board summaries, and the limits a board enforces.

use vstd::prelude::*;

use crate::strings::owned;

verus! {

pub const MAX_ATTACHMENTS: usize = 8;

pub const MAX_ATTACHMENT_BYTES: u64 = 8 * 1024 * 1024;

pub const MAX_ATTACHMENT_TOTAL_BYTES: u64 = 32 * 1024 * 1024;

pub const MAX_ACTIVE_PER_BOARD: usize = 20;

/// Where a node's generation stands.
#[derive(Clone, Copy, Debug, PartialEq, Eq, Structural)]
pub enum NodeStatus {
    Running,
    Done,
    Error,
    Stopped,
}

impl Default for NodeStatus {
    fn default() -> (status: Self)
        ensures
            status == NodeStatus::Done,
    {
        NodeStatus::Done
    }
}

/// Why a running node was stopped.
#[derive(Clone, Copy, Debug, PartialEq, Eq, Structural)]
pub enum StopReason {
    User,
    AppQuit,
    Deleted,
}

/// Who said a line of a card's conversation.
#[derive(Clone, Copy, Debug, PartialEq, Eq, Structural)]
pub enum ChatRole {
    User,
    Agent,
    Error,
}

/// One line of the conversation about a card.
#[derive(Clone, Debug)]
pub struct ChatMessage {
    pub role: ChatRole,
    pub text: String,
    /// When the line was said, in milliseconds since the Unix epoch.
    pub at: i64,
}

/// What the board list shows about one board.
#[derive(Clone, Debug, PartialEq, Eq)]
pub struct BoardSummary {
    pub id: String,
    pub title: String,
    pub created_at: i64,
    pub updated_at: i64,
    pub image_count: usize,
    pub last_image: Option<String>,
    pub generating: bool,
    pub total_tokens: u64,
}

/// The aspect a node gets when its request names none.
pub fn default_aspect() -> (aspect: String)
    ensures
        aspect@ == "auto"@,
{
    owned("auto")
}

} // verus!
