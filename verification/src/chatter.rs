//! A chat session around a language model.
use vstd::prelude::*;
use crate::fnn_lm::LM;

verus! {

/// A chat bot that answers with its model.
pub struct ChatFNN {
    lm: LM,
}

impl ChatFNN {
    /// The model the bot answers with.
    pub closed spec fn model(&self) -> LM {
        self.lm
    }

    pub fn new(lm: LM) -> (r: ChatFNN)
        ensures
            r.model() == lm,
    {
        ChatFNN { lm }
    }
}

} // verus!
