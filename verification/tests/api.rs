use lexo::api::after;
use lexo::api::after_text;
use lexo::api::before;
use lexo::api::before_text;
use lexo::api::between;
use lexo::api::between_text;
use lexo::api::first;
use lexo::api::first_text;
use lexo::api::next;
use lexo::api::PositionError;
use lexo::generate_after;
use lexo::generate_balanced_positions;
use lexo::generate_between;
use lexo::LexoRank;

#[test]
fn test_first_is_deterministic() {
    assert_eq!(first(), first());
    assert_eq!(first().as_str(), "H");
    assert_eq!(first_text(), "H");
}

#[test]
fn test_hundred_successive_afters_increase() {
    let mut current = first();
    for _ in 0..100 {
        let stepped = after(current.clone());
        assert!(current < stepped);
        current = stepped;
    }
}

#[test]
fn test_after_concrete_values() {
    assert_eq!(after(LexoRank::from_str_ref("A")).as_str(), "B");
    assert_eq!(after(LexoRank::from_str_ref("z")).as_str(), "z0");
    assert_eq!(after_text("A"), Ok("B".to_string()));
    assert_eq!(generate_after("zz"), "zz0");
}

#[test]
fn test_between_concrete_values() {
    assert_eq!(generate_between("A", "C"), "B");
    let mid = generate_between("A", "B");
    assert!("A" < mid.as_str() && mid.as_str() < "B");
    assert!(mid.len() > 1);
    assert_eq!(generate_balanced_positions(1), vec!["H".to_string()]);
}

#[test]
fn test_before_minimum_has_no_predecessor() {
    assert_eq!(
        before(LexoRank::from_str_ref("0")),
        Err(PositionError::NoPredecessor)
    );
    assert_eq!(
        before(LexoRank::from_str_ref("000")),
        Err(PositionError::NoPredecessor)
    );
    assert_eq!(before_text("0"), Err(PositionError::NoPredecessor));
    assert_eq!(before_text("000"), Err(PositionError::NoPredecessor));
}

#[test]
fn test_before_steps_down() {
    assert_eq!(before(LexoRank::from_str_ref("B")).unwrap().as_str(), "A");
    assert_eq!(before_text("1"), Ok("0z".to_string()));
    assert_eq!(before(LexoRank::new(String::new())).unwrap().as_str(), "H");
}

#[test]
fn test_invalid_symbols_are_rejected() {
    assert_eq!(after_text("hello!"), Err(PositionError::InvalidSymbol));
    assert_eq!(before_text("a-b"), Err(PositionError::InvalidSymbol));
    assert_eq!(
        between_text(Some("ok"), Some("no way")),
        Err(PositionError::InvalidSymbol)
    );
    assert_eq!(
        next(Some("bad!".to_string())),
        Err(PositionError::InvalidSymbol)
    );
}

#[test]
fn test_next_steps_or_seeds() {
    assert_eq!(next(None).unwrap().as_str(), "H");
    assert_eq!(next(Some("H".to_string())).unwrap().as_str(), "I");
    assert_eq!(next(Some(String::new())).unwrap().as_str(), "H");
}

#[test]
fn test_between_bounds_may_be_absent() {
    assert_eq!(between(None, None).unwrap().as_str(), "H");
    assert_eq!(
        between(Some(LexoRank::from_str_ref("H")), None).unwrap().as_str(),
        "I"
    );
    assert_eq!(
        between(None, Some(LexoRank::from_str_ref("H")))
            .unwrap()
            .as_str(),
        "G"
    );
    assert_eq!(
        between(None, Some(LexoRank::from_str_ref("0")))
            .ok()
            .map(|r| r.to_string()),
        None
    );
}

#[test]
fn test_between_text_bounds_may_be_absent() {
    assert_eq!(between_text(None, None), Ok("H".to_string()));
    assert_eq!(between_text(Some(""), Some("")), Ok("H".to_string()));
    assert_eq!(between_text(Some("H"), None), Ok("I".to_string()));
    assert_eq!(between_text(None, Some("H")), Ok("G".to_string()));
    assert_eq!(
        between_text(None, Some("00")),
        Err(PositionError::NoPredecessor)
    );
}

#[test]
fn test_between_misordered_falls_back_to_after() {
    assert_eq!(
        between(
            Some(LexoRank::from_str_ref("B")),
            Some(LexoRank::from_str_ref("A"))
        )
        .unwrap()
        .as_str(),
        "C"
    );
    assert_eq!(between_text(Some("H"), Some("H")), Ok("I".to_string()));
}

#[test]
fn test_between_start_padded_upper_bound_stays_above_lower() {
    // When the upper bound only extends the lower one by minimum symbols,
    // no position fits below it; the result still sorts above the lower
    // bound.
    let r = generate_between("A", "A0");
    assert!(r.as_str() > "A");
    let r2 = generate_between("A", "A00");
    assert!(r2.as_str() > "A");
}

#[test]
fn test_balanced_positions_exact_expansion() {
    // 1/4 expands to the symbols for 15 and 31, 3/4 to those for 46 and 31.
    assert_eq!(
        generate_balanced_positions(2),
        vec!["FV".to_string(), "kV".to_string()]
    );
}

#[test]
fn test_deep_descent_toward_minimum() {
    // Repeatedly inserting just above the minimum keeps order even where
    // the upper neighbour is a minimum-padded string.
    let mut upper = "1".to_string();
    for _ in 0..8 {
        let mid = generate_between("0", &upper);
        assert!(mid.as_str() > "0");
        assert!(mid < upper);
        upper = mid;
    }
}
