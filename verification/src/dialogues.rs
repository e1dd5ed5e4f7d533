//! The chat bot's entry dialogue. The dialogue protocol itself belongs
//! to the chat front end; the core only carries the dialogue's (empty)
//! state.

use vstd::prelude::*;

verus! {

/// The greeting dialogue a chat session starts in; it holds no state.
#[derive(Default)]
pub struct HelloDialogue {}

impl HelloDialogue {
    pub fn new() -> (r: HelloDialogue) {
        HelloDialogue {  }
    }
}

} // verus!
