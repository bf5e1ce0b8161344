use verifiable_confidential_ledger::messages::{MessageBook, MessageError};

#[test]
fn message_created_once_then_updated() {
    let mut book = MessageBook::new();
    assert_eq!(book.get(1), None);
    assert_eq!(book.insert_new(1, "hello".to_string()), Ok(()));
    assert_eq!(book.get(1), Some("hello".to_string()));
    assert_eq!(book.insert_new(1, "again".to_string()), Err(MessageError::IdExists));
    assert_eq!(book.get(1), Some("hello".to_string()));
    assert!(book.update(1, "changed".to_string()));
    assert_eq!(book.get(1), Some("changed".to_string()));
}

#[test]
fn update_of_missing_message_is_refused() {
    let mut book = MessageBook::new();
    assert!(!book.update(7, "x".to_string()));
    assert_eq!(book.get(7), None);
    assert_eq!(book.insert_new(0, String::new()), Ok(()));
    assert_eq!(book.get(0), Some(String::new()));
    assert_eq!(book.get(usize::MAX), None);
}
