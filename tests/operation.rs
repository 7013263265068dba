use ot_rs::operation::Operation;

#[test]
fn it_works() {
    assert_eq!("retain(1)", Operation::Retain(1).to_string());
    assert_eq!(
        "insert(\"abc\")",
        Operation::Insert("abc".to_string()).to_string()
    );
    assert_eq!(
        "insert(\"abc\\\"\")",
        Operation::Insert("abc\"".to_string()).to_string()
    );
}

#[test]
fn delete_text() {
    assert_eq!("delete(1234567890)", Operation::Delete(1234567890).to_string());
    assert_eq!("retain(0)", Operation::Retain(0).to_string());
}
