use vstd::prelude::*;

verus! {

/// An edit of the form that defines how to reach bitcoind.
#[derive(Debug, Clone)]
pub enum DefineBitcoind {
    CookiePathEdited(String),
    AddressEdited(String),
}

/// The number of words of a mnemonic.
pub const MNEMONIC_WORDS: usize = 12;

/// The events that the mnemonic backup step reacts to.
#[derive(Debug, Clone, Copy)]
pub enum StepMessage {
    UserActionDone(bool),
    Other,
}

/// The installer step that shows the hot signer's mnemonic for backup.
#[derive(Debug)]
pub struct BackupMnemonic {
    pub words: Vec<String>,
    pub done: bool,
}

impl Default for BackupMnemonic {
    fn default() -> (r: BackupMnemonic)
        ensures
            r.words@.len() == MNEMONIC_WORDS,
            forall|i: int| 0 <= i < r.words@.len() ==> (#[trigger] r.words@[i])@.len() == 0,
            !r.done,
    {
        let mut words: Vec<String> = Vec::new();
        let mut i: usize = 0;
        while i < MNEMONIC_WORDS
            invariant
                0 <= i <= MNEMONIC_WORDS,
                words@.len() == i,
                forall|j: int| 0 <= j < i ==> (#[trigger] words@[j])@.len() == 0,
            decreases MNEMONIC_WORDS - i,
        {
            words.push(String::new());
            i = i + 1;
        }
        BackupMnemonic { words, done: false }
    }
}

impl BackupMnemonic {
    /// Take the signer's mnemonic, if the installation has a hot signer.
    pub fn load_context(&mut self, signer_words: Option<Vec<String>>)
        ensures
            match signer_words {
                Some(w) => final(self).words@ == w@,
                None => final(self).words@ == old(self).words@,
            },
            final(self).done == old(self).done,
    {
        if let Some(w) = signer_words {
            self.words = w;
        }
    }

    pub fn update(&mut self, message: StepMessage)
        ensures
            final(self).words@ == old(self).words@,
            final(self).done == match message {
                StepMessage::UserActionDone(d) => d,
                StepMessage::Other => old(self).done,
            },
    {
        if let StepMessage::UserActionDone(done) = message {
            self.done = done;
        }
    }

    /// The step is skipped when there is no hot signer to back up.
    pub fn skip(&self, has_signer: bool) -> (r: bool)
        ensures
            r == !has_signer,
    {
        !has_signer
    }
}

} // verus!
