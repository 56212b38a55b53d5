use rlox::value::Value;

#[test]
fn displays_values() {
    assert_eq!(Value::Bool(true).display(), "true");
    assert_eq!(Value::Bool(false).display(), "false");
    assert_eq!(Value::Nil.display(), "nil");
    assert_eq!(Value::from_string("abc".to_string()).display(), "abc");
    assert_eq!(Value::default().display(), "nil");
}

#[test]
fn truthiness() {
    assert!(Value::Nil.is_falsey());
    assert!(Value::Bool(false).is_falsey());
    assert!(!Value::Bool(true).is_falsey());
    assert!(!Value::Number(0).is_falsey());
    assert!(!Value::from_string(String::new()).is_falsey());
}

#[test]
fn equality_by_kind() {
    let a = Value::from_string("x".to_string());
    let b = Value::from_string("x".to_string());
    let c = Value::from_string("y".to_string());
    assert!(a.equals(&b));
    assert!(!a.equals(&c));
    assert!(Value::Nil.equals(&Value::Nil));
    assert!(!Value::Nil.equals(&Value::Bool(false)));
    assert!(!Value::Number(1).equals(&Value::Bool(true)));
    assert!(Value::Bool(true).equals(&Value::Bool(true)));
}

#[test]
fn string_accessors() {
    let s = Value::from_string("héllo".to_string());
    assert!(s.is_string());
    assert_eq!(s.as_str(), Some("héllo"));
    assert_eq!(Value::Number(3).as_str(), None);
    assert!(!Value::Nil.is_string());
    assert!(Value::Number(3).is_number());
    assert_eq!(s.share().as_str(), Some("héllo"));
}
