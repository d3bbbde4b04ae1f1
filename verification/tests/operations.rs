use lexo::char_to_index;
use lexo::fraction_to_position;
use lexo::generate_after;
use lexo::generate_balanced_positions;
use lexo::generate_before;
use lexo::generate_between;
use lexo::index_to_char;
use lexo::is_valid_base62;
use lexo::MID_CHAR;

#[test]
fn test_generate_after_minimal() {
    assert_eq!(generate_after("A"), "B");
    assert_eq!(generate_after("0"), "1");
    assert_eq!(generate_after("Z"), "a");
}

#[test]
fn test_generate_before_minimal() {
    assert_eq!(generate_before("B"), "A");
    assert_eq!(generate_before("Z"), "Y");
    assert_eq!(generate_before("a"), "Z");
    assert_eq!(generate_before("1"), "0z");
}

#[test]
fn test_generate_after_overflow() {
    let result = generate_after("z");
    assert!(result > "z".to_string());
    assert_eq!(result, "z0");
}

#[test]
fn test_generate_after_basic() {
    let pos = generate_after("H");
    assert!(pos > "H".to_string());
}

#[test]
fn test_generate_before_basic() {
    let pos = generate_before("H");
    assert!(pos < "H".to_string());
}

#[test]
fn test_generate_between_basic() {
    let pos = generate_between("0", "z");
    assert!(pos > "0".to_string());
    assert!(pos < "z".to_string());
}

#[test]
fn test_generate_between_adjacent() {
    let pos = generate_between("0", "1");
    assert!(pos > "0".to_string());
    assert!(pos < "1".to_string());
}

#[test]
fn test_generate_between_tight() {
    let result = generate_between("A", "C");
    assert_eq!(result, "B");

    let result2 = generate_between("Z", "a");
    assert!(result2 > "Z".to_string());
    assert!(result2 < "a".to_string());
}

#[test]
fn test_generate_between_adjacent_chars() {
    let result = generate_between("A", "B");
    assert!(result > "A".to_string());
    assert!(result < "B".to_string());
    assert!(result.len() <= 2);
}

#[test]
fn test_tight_spacing_sequence() {
    let first = MID_CHAR.to_string();
    let second = generate_after(&first);
    let third = generate_after(&second);

    assert!(second.len() <= 2, "Second position too long: {}", second);
    assert!(third.len() <= 2, "Third position too long: {}", third);
}

#[test]
fn test_sequence_maintains_order() {
    let first = MID_CHAR.to_string();
    let second = generate_after(&first);
    let third = generate_after(&second);
    let fourth = generate_after(&third);

    assert!(first < second);
    assert!(second < third);
    assert!(third < fourth);
}

#[test]
fn test_insert_between_maintains_order() {
    let first = MID_CHAR.to_string();
    let third = generate_after(&first);
    let second = generate_between(&first, &third);

    assert!(first < second);
    assert!(second < third);
}

#[test]
fn test_multiple_insertions() {
    let first = MID_CHAR.to_string();
    let mut positions: Vec<String> = vec![first];

    for _ in 0..5 {
        let last = positions.last().unwrap();
        positions.push(generate_after(last));
    }

    for i in 0..positions.len() - 1 {
        assert!(
            positions[i] < positions[i + 1],
            "Position {} ({}) should be less than position {} ({})",
            i,
            positions[i],
            i + 1,
            positions[i + 1]
        );
    }
}

#[test]
fn test_insert_at_beginning() {
    let first = MID_CHAR.to_string();
    let before_first = generate_before(&first);

    assert!(before_first < first);
}

#[test]
fn test_generate_after_empty_string() {
    let pos = generate_after("");
    assert_eq!(pos, "H");
}

#[test]
fn test_generate_before_empty_string() {
    let pos = generate_before("");
    assert_eq!(pos, "H");
}

#[test]
fn test_generate_between_empty_strings() {
    let pos = generate_between("", "");
    assert_eq!(pos, "H");
}

#[test]
fn test_generate_between_invalid_order() {
    let pos = generate_between("z", "0");
    assert!(pos > "z".to_string());
}

#[test]
fn test_generate_between_equal_strings() {
    let pos = generate_between("H", "H");
    assert!(pos > "H".to_string());
}

#[test]
fn test_base62_char_conversion() {
    assert_eq!(char_to_index('0'), Some(0));
    assert_eq!(char_to_index('9'), Some(9));
    assert_eq!(char_to_index('A'), Some(10));
    assert_eq!(char_to_index('Z'), Some(35));
    assert_eq!(char_to_index('a'), Some(36));
    assert_eq!(char_to_index('z'), Some(61));

    assert_eq!(index_to_char(0), Some('0'));
    assert_eq!(index_to_char(9), Some('9'));
    assert_eq!(index_to_char(10), Some('A'));
    assert_eq!(index_to_char(35), Some('Z'));
    assert_eq!(index_to_char(36), Some('a'));
    assert_eq!(index_to_char(61), Some('z'));
}

#[test]
fn test_is_valid_base62() {
    assert!(is_valid_base62("H"));
    assert!(is_valid_base62("abc123XYZ"));
    assert!(!is_valid_base62("hello!"));
    assert!(!is_valid_base62("test-value"));
    assert!(is_valid_base62(""));
}

#[test]
fn test_generate_between_same_prefix() {
    let pos = generate_between("AB", "AC");
    assert!(pos > "AB".to_string());
    assert!(pos < "AC".to_string());
}

#[test]
fn test_generate_between_adjacent_with_prefix() {
    let pos = generate_between("A0", "A1");
    assert!(pos > "A0".to_string());
    assert!(pos < "A1".to_string());
}

#[test]
fn test_deep_insertion() {
    let mut positions = vec!["0".to_string(), "1".to_string()];

    for _ in 0..10 {
        let mid = generate_between(&positions[0], &positions[1]);
        assert!(
            mid > positions[0],
            "mid {} should be > {}",
            mid,
            positions[0]
        );
        assert!(
            mid < positions[1],
            "mid {} should be < {}",
            mid,
            positions[1]
        );
        positions.insert(1, mid);
    }
}

#[test]
fn test_generate_between_different_lengths() {
    let pos = generate_between("z", "z1");
    assert!(pos > "z".to_string());
    assert!(pos < "z1".to_string());

    let pos2 = generate_between("A", "AA");
    assert!(pos2 > "A".to_string());
    assert!(pos2 < "AA".to_string());
}

#[test]
fn test_generate_between_z_and_z0() {
    let result = generate_between("z", "z0");
    assert!(result > "z".to_string());
}

#[test]
fn test_generate_before_with_trailing_zeros() {
    let pos = generate_before("A0");
    assert!(pos < "A0".to_string());

    let pos2 = generate_before("10");
    assert!(pos2 < "10".to_string());
}

#[test]
fn test_generate_balanced_positions_empty() {
    let positions = generate_balanced_positions(0);
    assert!(positions.is_empty());
}

#[test]
fn test_generate_balanced_positions_single() {
    let positions = generate_balanced_positions(1);
    assert_eq!(positions.len(), 1);
    assert_eq!(positions[0], "H");
}

#[test]
fn test_generate_balanced_positions_multiple() {
    let positions = generate_balanced_positions(5);
    assert_eq!(positions.len(), 5);

    for i in 0..positions.len() - 1 {
        assert!(
            positions[i] < positions[i + 1],
            "Position {} ({}) should be < position {} ({})",
            i,
            positions[i],
            i + 1,
            positions[i + 1]
        );
    }
}

#[test]
fn test_generate_balanced_positions_large() {
    let positions = generate_balanced_positions(100);
    assert_eq!(positions.len(), 100);

    for i in 0..positions.len() - 1 {
        assert!(
            positions[i] < positions[i + 1],
            "Position {} ({}) should be < position {} ({})",
            i,
            positions[i],
            i + 1,
            positions[i + 1]
        );
    }
}

#[test]
fn test_fraction_to_position() {
    let pos_0 = fraction_to_position(0, 1000);
    let pos_half = fraction_to_position(500, 1000);
    let pos_1 = fraction_to_position(999, 1000);

    assert!(pos_0 < pos_half);
    assert!(pos_half < pos_1);
}
