use btclib::wallet::{FeeType, Key, Recipient};
use std::path::PathBuf;

#[test]
fn test_fee_type_clone() {
    let fixed = FeeType::Fixed;
    let cloned = fixed.clone();
    assert_eq!(fixed, cloned);

    let percent = FeeType::Percent;
    let cloned = percent.clone();
    assert_eq!(percent, cloned);
}

#[test]
fn test_fee_type_equality() {
    assert_eq!(FeeType::Fixed, FeeType::Fixed);
    assert_eq!(FeeType::Percent, FeeType::Percent);
    assert_ne!(FeeType::Fixed, FeeType::Percent);
}

#[test]
fn test_key_creation() {
    let public_path = PathBuf::from("/path/to/public.key");
    let private_path = PathBuf::from("/path/to/private.key");
    let key = Key::new(public_path.clone(), private_path.clone());
    assert_eq!(key.public_path(), &public_path);
    assert_eq!(key.private_path(), &private_path);
}

#[test]
fn test_key_clone() {
    let key = Key::new(
        PathBuf::from("/path/to/public.key"),
        PathBuf::from("/path/to/private.key"),
    );
    let cloned = key.clone();
    assert_eq!(key.public_path(), cloned.public_path());
    assert_eq!(key.private_path(), cloned.private_path());
}

#[test]
fn test_recipient_creation() {
    let name = "Alice".to_string();
    let key_path = PathBuf::from("/path/to/alice.key");
    let recipient = Recipient::new(name.clone(), key_path.clone());
    assert_eq!(recipient.name(), &name);
    assert_eq!(recipient.key_path(), &key_path);
}

#[test]
fn test_recipient_clone() {
    let recipient = Recipient::new("Carol".to_string(), PathBuf::from("/path/to/carol.key"));
    let cloned = recipient.clone();
    assert_eq!(recipient.name(), cloned.name());
    assert_eq!(recipient.key_path(), cloned.key_path());
}

#[test]
fn test_recipient_multiple_instances() {
    let recipient1 = Recipient::new("Alice".to_string(), PathBuf::from("/alice.key"));
    let recipient2 = Recipient::new("Bob".to_string(), PathBuf::from("/bob.key"));
    assert_ne!(recipient1.name(), recipient2.name());
    assert_ne!(recipient1.key_path(), recipient2.key_path());
}

#[test]
fn test_recipient_empty_name() {
    let recipient = Recipient::new("".to_string(), PathBuf::from("/path/to/key"));
    assert_eq!(recipient.name(), "");
}

#[test]
fn test_recipient_special_characters_in_name() {
    let name = "Alice O'Brien (alice@example.com)".to_string();
    let recipient = Recipient::new(name.clone(), PathBuf::from("/key"));
    assert_eq!(recipient.name(), &name);
}
