//! The chat commands that the moderation bot answers.
use vstd::prelude::*;

verus! {

/// A command sent to the bot in chat.
#[derive(Clone, Copy, Debug, PartialEq, Eq, Structural)]
pub enum Command {
    /// Start the bot.
    Start,
}

} // verus!
