use chess_engine::{algebraic_to_index, index_to_algebraic};

#[test]
fn test_algebraic_to_index() {
    assert_eq!(algebraic_to_index("a1".as_bytes()).unwrap(), 0);
    assert_eq!(algebraic_to_index("A1".as_bytes()).unwrap(), 0);
    assert_eq!(algebraic_to_index("H8".as_bytes()).unwrap(), 63);
    assert_eq!(algebraic_to_index("h8".as_bytes()).unwrap(), 63);
}

#[test]
fn square_names_and_errors() {
    assert_eq!(algebraic_to_index(b"e4").unwrap(), 28);
    assert_eq!(algebraic_to_index(b"c6").unwrap(), 42);
    assert!(algebraic_to_index(b"i1").is_err());
    assert!(algebraic_to_index(b"a9").is_err());
    assert!(algebraic_to_index(b"a0").is_err());
    assert!(algebraic_to_index(b"e").is_err());
    assert!(algebraic_to_index(b"e44").is_err());
    assert_eq!(index_to_algebraic(0), *b"a1");
    assert_eq!(index_to_algebraic(28), *b"e4");
    assert_eq!(index_to_algebraic(63), *b"h8");
}

#[test]
fn square_name_round_trip() {
    for i in 0..64usize {
        let name = index_to_algebraic(i);
        assert_eq!(algebraic_to_index(&name).unwrap(), i);
    }
}
