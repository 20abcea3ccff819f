//! The dialogue transition table: which handler takes the next update.
//!
//! An update is either private or from a group chat; a group chat is either
//! on the relay list or not. Every transition is enumerable: private
//! updates go to the private handler, listed group chats to the chat
//! buffer, unlisted group chats to the echo handler.

use vstd::prelude::*;

verus! {

/// The handler a dialogue currently sits in.
#[derive(Debug, Clone, Copy, PartialEq, Eq, Structural)]
pub enum DialogueKind {
    /// The initial handler, echoing unlisted traffic.
    Echo,
    /// The per-user private handler.
    Private,
    /// The per-chat buffering handler.
    Chat,
}

/// The handler that takes the next update, from whether the update is
/// private, the current handler, and whether the chat is on the relay
/// list. A private update in a chat dialogue, or a group update in a
/// private dialogue, cannot occur: the transport keys dialogues by chat.
pub fn next_dialogue(is_private: bool, current: DialogueKind, chat_known: bool) -> (r: DialogueKind)
    requires
        !(is_private && current == DialogueKind::Chat),
        !(!is_private && current == DialogueKind::Private),
    ensures
        is_private ==> r == DialogueKind::Private,
        !is_private && chat_known ==> r == DialogueKind::Chat,
        !is_private && !chat_known ==> r == DialogueKind::Echo,
{
    if is_private {
        DialogueKind::Private
    } else if chat_known {
        DialogueKind::Chat
    } else {
        DialogueKind::Echo
    }
}

} // verus!
