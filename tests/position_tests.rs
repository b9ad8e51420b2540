use crdt_editor_backend::crdt::position::{Position, PositionBounds, PositionError};

#[test]
fn test_position_creation() {
    let path = vec![10, 20, 30];
    let pos = Position::new(path.clone());
    assert_eq!(pos.path(), &path);

    let empty_pos = Position::new(vec![]);
    assert!(empty_pos.path().is_empty());
}

#[test]
fn test_position_ordering() {
    let pos1 = Position::new(vec![1, 2]);
    let pos2 = Position::new(vec![1, 2, 3]);
    assert!(pos1 < pos2);

    let pos3 = Position::new(vec![1, 2, 3]);
    let pos4 = Position::new(vec![1, 2, 4]);
    assert!(pos3 < pos4);

    let pos5 = Position::new(vec![1, 2, 3]);
    let pos6 = Position::new(vec![1, 2, 3]);
    assert_eq!(pos5, pos6);
}

#[test]
fn test_position_between() {
    let pos1 = Position::new(vec![10]);
    let pos2 = Position::new(vec![20]);

    let between = Position::between(&pos1, &pos2).unwrap();
    assert!(pos1 < between);
    assert!(between < pos2);
}

#[test]
fn test_position_bounds() {
    let start = Position::start();
    assert!(start.is_start());

    let end = Position::end();
    assert!(end.is_end());

    assert!(start < end);

    let pos = Position::new(vec![10, 20]);
    assert!(start < pos);
    assert!(pos < end);
}

#[test]
fn test_position_dense_sequence() {
    let mut positions = Vec::new();
    let start = Position::new(vec![10]);
    let end = Position::new(vec![20]);

    let mut prev = start.clone();
    for _ in 0..10 {
        let next = Position::between(&prev, &end).unwrap();
        assert!(prev < next);
        positions.push(next.clone());
        prev = next;
    }

    for i in 0..positions.len() - 1 {
        assert!(positions[i] < positions[i + 1]);
    }
}

#[test]
fn dense_sequence_stays_below_upper_bound() {
    let upper = Position::new(vec![20]);
    let mut prev = Position::new(vec![10]);
    for _ in 0..50 {
        let next = Position::between(&prev, &upper).unwrap();
        assert!(prev < next);
        assert!(next < upper);
        prev = next;
    }
}

#[test]
fn between_takes_the_midpoint() {
    let p = Position::between(&Position::new(vec![10]), &Position::new(vec![20])).unwrap();
    assert_eq!(p.path(), &vec![15]);
}

#[test]
fn between_extends_when_no_integer_fits() {
    let p = Position::between(&Position::new(vec![1, 7]), &Position::new(vec![2])).unwrap();
    assert_eq!(p.path(), &vec![1, 7, 1]);
    let q = Position::between(&Position::new(vec![4]), &Position::new(vec![5])).unwrap();
    assert_eq!(q.path(), &vec![4, 1]);
}

#[test]
fn between_halves_when_left_is_a_prefix() {
    let p = Position::between(&Position::start(), &Position::new(vec![8])).unwrap();
    assert_eq!(p.path(), &vec![4]);
    let q = Position::between(&Position::new(vec![3]), &Position::new(vec![3, 0, 0])).unwrap();
    assert_eq!(q.path(), &vec![3, 0]);
    assert!(Position::new(vec![3]) < q);
    assert!(q < Position::new(vec![3, 0, 0]));
}

#[test]
fn between_of_equal_positions_extends() {
    let p = Position::between(&Position::new(vec![3]), &Position::new(vec![3])).unwrap();
    assert_eq!(p.path(), &vec![3, 1]);
}

#[test]
fn between_is_symmetric() {
    let a = Position::new(vec![2, 9]);
    let b = Position::new(vec![7]);
    assert_eq!(Position::between(&a, &b), Position::between(&b, &a));
}

#[test]
fn between_rejects_the_end_sentinel() {
    let p = Position::new(vec![1]);
    assert_eq!(Position::between(&p, &Position::end()), Err(PositionError::InvalidBound));
    assert_eq!(Position::between(&Position::end(), &p), Err(PositionError::InvalidBound));
}

#[test]
fn between_rejects_adjacent_positions() {
    let a = Position::new(vec![5]);
    let b = Position::new(vec![5, 0]);
    assert_eq!(Position::between(&a, &b), Err(PositionError::Adjacent));
    assert_eq!(Position::between(&Position::start(), &Position::new(vec![0])), Err(PositionError::Adjacent));
}

#[test]
fn end_sentinel_is_above_long_paths() {
    let p = Position::new(vec![u32::MAX, u32::MAX, u32::MAX]);
    assert!(p < Position::end());
    assert!(Position::start() < p);
    assert!(!Position::start().is_end());
    assert!(!p.is_start());
}
