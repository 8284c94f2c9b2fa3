use vstd::prelude::*;

verus! {

/// Where a spend transaction stands for the wallet.
#[derive(Debug, Clone, Copy, PartialEq, Eq, Structural)]
pub enum SpendStatus {
    Pending,
    Broadcast,
    Spent,
    Deprecated,
}

/// The events that an action on a spend transaction reacts to.
#[derive(Debug)]
pub enum ActionMessage {
    /// The user confirmed the action.
    Confirm,
    /// The daemon answered the request that the action made.
    Updated(Result<(), String>),
    /// Anything else.
    Other,
}

/// The request to the daemon that an action asks to be performed; its
/// answer comes back as `ActionMessage::Updated`.
#[derive(Debug, Clone, Copy, PartialEq, Eq, Structural)]
pub enum ActionCommand {
    Nothing,
    UpdateSpendTx,
    BroadcastSpendTx,
    DeleteSpendTx,
}

/// Saving a spend transaction to the daemon.
#[derive(Debug)]
pub struct SaveAction {
    pub saved: bool,
    pub error: Option<String>,
}

impl Default for SaveAction {
    fn default() -> (r: SaveAction)
        ensures
            !r.saved && r.error is None,
    {
        SaveAction { saved: false, error: None }
    }
}

impl SaveAction {
    pub fn update(&mut self, message: ActionMessage) -> (r: ActionCommand)
        ensures
            match message {
                ActionMessage::Confirm => r == ActionCommand::UpdateSpendTx && *final(self) == *old(self),
                ActionMessage::Updated(Ok(())) => r == ActionCommand::Nothing && final(self).saved
                    && final(self).error == old(self).error,
                ActionMessage::Updated(Err(e)) => r == ActionCommand::Nothing && final(self).error
                    == Some(e) && final(self).saved == old(self).saved,
                ActionMessage::Other => r == ActionCommand::Nothing && *final(self) == *old(self),
            },
    {
        match message {
            ActionMessage::Confirm => ActionCommand::UpdateSpendTx,
            ActionMessage::Updated(Ok(())) => {
                self.saved = true;
                ActionCommand::Nothing
            },
            ActionMessage::Updated(Err(e)) => {
                self.error = Some(e);
                ActionCommand::Nothing
            },
            ActionMessage::Other => ActionCommand::Nothing,
        }
    }
}

/// Broadcasting a spend transaction through the daemon.
#[derive(Debug)]
pub struct BroadcastAction {
    pub broadcast: bool,
    pub error: Option<String>,
}

impl Default for BroadcastAction {
    fn default() -> (r: BroadcastAction)
        ensures
            !r.broadcast && r.error is None,
    {
        BroadcastAction { broadcast: false, error: None }
    }
}

impl BroadcastAction {
    pub fn update(&mut self, message: ActionMessage, status: &mut SpendStatus) -> (r: ActionCommand)
        ensures
            match message {
                ActionMessage::Confirm => r == ActionCommand::BroadcastSpendTx && final(self).error is None
                    && final(self).broadcast == old(self).broadcast && *final(status) == *old(status),
                ActionMessage::Updated(Ok(())) => r == ActionCommand::Nothing && final(self).broadcast
                    && final(self).error == old(self).error && *final(status) == SpendStatus::Broadcast,
                ActionMessage::Updated(Err(e)) => r == ActionCommand::Nothing && final(self).error
                    == Some(e) && final(self).broadcast == old(self).broadcast && *final(status)
                    == *old(status),
                ActionMessage::Other => r == ActionCommand::Nothing && *final(self) == *old(self)
                    && *final(status) == *old(status),
            },
    {
        match message {
            ActionMessage::Confirm => {
                self.error = None;
                ActionCommand::BroadcastSpendTx
            },
            ActionMessage::Updated(Ok(())) => {
                *status = SpendStatus::Broadcast;
                self.broadcast = true;
                ActionCommand::Nothing
            },
            ActionMessage::Updated(Err(e)) => {
                self.error = Some(e);
                ActionCommand::Nothing
            },
            ActionMessage::Other => ActionCommand::Nothing,
        }
    }
}

/// Deleting a spend transaction from the daemon.
#[derive(Debug)]
pub struct DeleteAction {
    pub deleted: bool,
    pub error: Option<String>,
}

impl Default for DeleteAction {
    fn default() -> (r: DeleteAction)
        ensures
            !r.deleted && r.error is None,
    {
        DeleteAction { deleted: false, error: None }
    }
}

impl DeleteAction {
    pub fn update(&mut self, message: ActionMessage) -> (r: ActionCommand)
        ensures
            match message {
                ActionMessage::Confirm => r == ActionCommand::DeleteSpendTx && final(self).error is None
                    && final(self).deleted == old(self).deleted,
                ActionMessage::Updated(Ok(())) => r == ActionCommand::Nothing && final(self).deleted
                    && final(self).error == old(self).error,
                ActionMessage::Updated(Err(e)) => r == ActionCommand::Nothing && final(self).error
                    == Some(e) && final(self).deleted == old(self).deleted,
                ActionMessage::Other => r == ActionCommand::Nothing && *final(self) == *old(self),
            },
    {
        match message {
            ActionMessage::Confirm => {
                self.error = None;
                ActionCommand::DeleteSpendTx
            },
            ActionMessage::Updated(Ok(())) => {
                self.deleted = true;
                ActionCommand::Nothing
            },
            ActionMessage::Updated(Err(e)) => {
                self.error = Some(e);
                ActionCommand::Nothing
            },
            ActionMessage::Other => ActionCommand::Nothing,
        }
    }
}

/// Why a wallet could not be loaded.
#[derive(Debug)]
pub enum WalletError {
    Settings(String),
    HotSigner(String),
}

} // verus!
