use lexo::LexoRank;

#[test]
fn test_lexorank_new() {
    let rank = LexoRank::new("H".to_string());
    assert_eq!(rank.as_str(), "H");
}

#[test]
fn test_lexorank_first() {
    let rank = LexoRank::first();
    assert_eq!(rank.as_str(), "H");
}

#[test]
fn test_lexorank_empty() {
    let rank = LexoRank::new(String::new());
    assert!(rank.is_empty());
}

#[test]
fn test_lexorank_ordering() {
    let a = LexoRank::new("A".to_string());
    let b = LexoRank::new("B".to_string());
    let z = LexoRank::new("Z".to_string());

    assert!(a < b);
    assert!(b < z);
    assert!(a < z);
}

#[test]
fn test_lexorank_equality() {
    let a1 = LexoRank::new("ABC".to_string());
    let a2 = LexoRank::new("ABC".to_string());
    let b = LexoRank::new("DEF".to_string());

    assert_eq!(a1, a2);
    assert_ne!(a1, b);
}

#[test]
fn test_lexorank_from_str() {
    let rank: LexoRank = "Hello".parse().unwrap();
    assert_eq!(rank.as_str(), "Hello");
}

#[test]
fn test_lexorank_from_str_invalid() {
    let result: Result<LexoRank, _> = "Hello!".parse();
    assert!(result.is_err());
}

#[test]
fn test_lexorank_display() {
    let rank = LexoRank::new("TestValue".to_string());
    assert_eq!(rank.to_string(), "TestValue");
}

#[test]
fn test_lexorank_into_string() {
    let rank = LexoRank::new("Value".to_string());
    let s: String = rank.into_inner();
    assert_eq!(s, "Value");
}

#[test]
fn test_lexorank_from_str_ref() {
    let rank: LexoRank = LexoRank::from_str_ref("Value");
    assert_eq!(rank.as_str(), "Value");
}

#[test]
fn test_lexorank_clone_and_default() {
    let rank = LexoRank::new("AB3".to_string());
    let copy = rank.clone();
    assert_eq!(rank, copy);
    assert_eq!(LexoRank::default(), LexoRank::first());
}
