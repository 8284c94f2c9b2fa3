use liana_sync::actions::{
    ActionCommand, ActionMessage, BroadcastAction, DeleteAction, SaveAction, SpendStatus,
    WalletError,
};
use liana_sync::installer::{BackupMnemonic, DefineBitcoind, StepMessage};

#[test]
fn save_action_flow() {
    let mut a = SaveAction::default();
    assert_eq!(a.update(ActionMessage::Confirm), ActionCommand::UpdateSpendTx);
    assert!(!a.saved);
    assert_eq!(a.update(ActionMessage::Updated(Err("db locked".to_string()))), ActionCommand::Nothing);
    assert_eq!(a.error, Some("db locked".to_string()));
    assert_eq!(a.update(ActionMessage::Updated(Ok(()))), ActionCommand::Nothing);
    assert!(a.saved);
    assert_eq!(a.update(ActionMessage::Other), ActionCommand::Nothing);
}

#[test]
fn broadcast_action_marks_status() {
    let mut a = BroadcastAction::default();
    let mut status = SpendStatus::Pending;
    a.error = Some("old".to_string());
    assert_eq!(a.update(ActionMessage::Confirm, &mut status), ActionCommand::BroadcastSpendTx);
    assert_eq!(a.error, None);
    assert_eq!(status, SpendStatus::Pending);
    a.update(ActionMessage::Updated(Err("rejected".to_string())), &mut status);
    assert_eq!(a.error, Some("rejected".to_string()));
    assert_eq!(status, SpendStatus::Pending);
    a.update(ActionMessage::Updated(Ok(())), &mut status);
    assert!(a.broadcast);
    assert_eq!(status, SpendStatus::Broadcast);
}

#[test]
fn delete_action_flow() {
    let mut a = DeleteAction::default();
    assert_eq!(a.update(ActionMessage::Confirm), ActionCommand::DeleteSpendTx);
    assert!(!a.deleted);
    a.update(ActionMessage::Updated(Ok(())));
    assert!(a.deleted);
    a.update(ActionMessage::Updated(Err("gone".to_string())));
    assert_eq!(a.error, Some("gone".to_string()));
}

#[test]
fn backup_mnemonic_step() {
    let mut step = BackupMnemonic::default();
    assert_eq!(step.words.len(), 12);
    assert!(step.words.iter().all(|w| w.is_empty()));
    assert!(step.skip(false));
    assert!(!step.skip(true));
    step.load_context(None);
    assert!(step.words.iter().all(|w| w.is_empty()));
    let words: Vec<String> = (0..12).map(|i| format!("word{}", i)).collect();
    step.load_context(Some(words.clone()));
    assert_eq!(step.words, words);
    step.update(StepMessage::UserActionDone(true));
    assert!(step.done);
    step.update(StepMessage::Other);
    assert!(step.done);
    step.update(StepMessage::UserActionDone(false));
    assert!(!step.done);
}

#[test]
fn plain_enums() {
    let e = WalletError::HotSigner("no signer".to_string());
    assert!(matches!(e, WalletError::HotSigner(ref m) if m == "no signer"));
    let d = DefineBitcoind::AddressEdited("127.0.0.1:8332".to_string());
    assert!(matches!(d, DefineBitcoind::AddressEdited(_)));
    assert!(matches!(DefineBitcoind::CookiePathEdited(String::new()), DefineBitcoind::CookiePathEdited(_)));
    assert!(matches!(WalletError::Settings(String::new()), WalletError::Settings(_)));
}
