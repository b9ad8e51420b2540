use crdt_editor_backend::crdt::{Document, Operation, Position};

fn hello(doc: &mut Document, chars: Vec<char>) -> Vec<Position> {
    let mut last_pos = Position::start();
    let mut positions = Vec::new();
    for c in chars {
        let pos = Position::between(&last_pos, &Position::new(vec![u32::MAX])).unwrap();
        positions.push(pos.clone());
        let op = Operation::insert("client1".to_string(), c, pos.clone());
        doc.apply(op);
        last_pos = pos;
    }
    positions
}

#[test]
fn test_document_creation() {
    let doc = Document::new("test_doc".to_string());
    assert_eq!(doc.content(), "");
    assert_eq!(doc.id(), "test_doc");
    assert!(doc.operations().is_empty());
}

#[test]
fn test_single_character_insertion() {
    let mut doc = Document::new("test_doc".to_string());

    let op = Operation::insert("client1".to_string(), 'H', Position::start());
    doc.apply(op);
    assert_eq!(doc.content(), "H");
}

#[test]
fn test_multiple_character_insertion() {
    let mut doc = Document::new("test_doc".to_string());

    let mut last_pos = Position::start();
    let chars = vec!['H', 'e', 'l', 'l', 'o'];

    for c in chars {
        let pos = Position::between(&last_pos, &Position::new(vec![u32::MAX])).unwrap();
        let op = Operation::insert("client1".to_string(), c, pos.clone());
        doc.apply(op);
        last_pos = pos;
    }

    assert_eq!(doc.content(), "Hello");
}

#[test]
fn test_character_deletion() {
    let mut doc = Document::new("test_doc".to_string());

    let mut last_pos = Position::start();
    let chars = vec!['H', 'e', 'l', 'l', 'o'];
    let mut positions = Vec::new();

    for c in chars {
        let pos = Position::between(&last_pos, &Position::new(vec![u32::MAX])).unwrap();
        positions.push(pos.clone());
        let op = Operation::insert("client1".to_string(), c, pos.clone());
        doc.apply(op);
        last_pos = pos;
    }

    let delete_ops = vec![
        Operation::delete("client1".to_string(), positions[2].clone()),
        Operation::delete("client1".to_string(), positions[3].clone()),
    ];

    for op in delete_ops {
        doc.apply(op);
    }

    assert_eq!(doc.content(), "Heo");
}

#[test]
fn test_concurrent_insertions() {
    let doc = Document::new("test_doc".to_string());

    let op1 = Operation::insert("client1".to_string(), 'A', Position::new(vec![1]));
    let op2 = Operation::insert("client2".to_string(), 'B', Position::new(vec![2]));

    let mut doc1 = doc.clone();
    doc1.apply(op1.clone());
    doc1.apply(op2.clone());

    let mut doc2 = doc;
    doc2.apply(op2);
    doc2.apply(op1);

    assert_eq!(doc1.content(), doc2.content());
    assert_eq!(doc1.content(), "AB");
}

#[test]
fn test_garbage_collection() {
    let mut doc = Document::new("test_doc".to_string());

    let mut last_pos = Position::start();
    let chars = vec!['H', 'e', 'l', 'l', 'o'];
    let mut positions = Vec::new();

    for c in chars {
        let pos = Position::between(&last_pos, &Position::new(vec![u32::MAX])).unwrap();
        positions.push(pos.clone());
        let op = Operation::insert("client1".to_string(), c, pos.clone());
        doc.apply(op);
        last_pos = pos;
    }

    let delete_ops = vec![
        Operation::delete("client1".to_string(), positions[2].clone()),
        Operation::delete("client1".to_string(), positions[3].clone()),
    ];

    for op in delete_ops {
        doc.apply(op);
    }

    assert_eq!(doc.content(), "Heo");
    assert_eq!(doc.character_count(), 5);

    doc.collect_garbage();

    assert_eq!(doc.content(), "Heo");
    assert_eq!(doc.character_count(), 3);

    assert_eq!(doc.operations().len(), 7);
}

#[test]
fn test_garbage_collection_with_concurrent_operations() {
    let mut doc = Document::new("test_doc".to_string());

    let mut last_pos = Position::start();
    let chars = vec!['H', 'e', 'l'];
    let mut positions = Vec::new();

    for c in chars {
        let pos = Position::between(&last_pos, &Position::new(vec![u32::MAX])).unwrap();
        positions.push(pos.clone());
        let op = Operation::insert("client1".to_string(), c, pos.clone());
        doc.apply(op);
        last_pos = pos;
    }

    doc.apply(Operation::delete("client1".to_string(), positions[2].clone()));

    doc.collect_garbage();

    doc.apply(Operation::insert(
        "client2".to_string(),
        'x',
        Position::between(&positions[1], &Position::new(vec![u32::MAX])).unwrap(),
    ));

    assert_eq!(doc.content(), "Hex");
    assert_eq!(doc.character_count(), 3);
}

#[test]
fn test_automatic_garbage_collection() {
    let mut doc = Document::new("test_doc".to_string());
    doc.set_garbage_collection_threshold(3);

    let mut last_pos = Position::start();
    let chars = vec!['H', 'e', 'l', 'l', 'o'];
    let mut positions = Vec::new();

    for c in chars {
        let pos = Position::between(&last_pos, &Position::new(vec![u32::MAX])).unwrap();
        positions.push(pos.clone());
        let op = Operation::insert("client1".to_string(), c, pos.clone());
        doc.apply(op);
        last_pos = pos;
    }

    assert_eq!(doc.character_count(), 5);

    doc.apply(Operation::delete("client1".to_string(), positions[0].clone()));
    assert_eq!(doc.character_count(), 5);

    doc.apply(Operation::delete("client1".to_string(), positions[1].clone()));
    assert_eq!(doc.character_count(), 5);

    doc.apply(Operation::delete("client1".to_string(), positions[2].clone()));
    assert_eq!(doc.character_count(), 2);

    assert_eq!(doc.content(), "lo");
}

#[test]
fn repeated_deletes_do_not_recount_tombstones() {
    let mut doc = Document::new("test_doc".to_string());
    doc.set_garbage_collection_threshold(3);
    let positions = hello(&mut doc, vec!['H', 'e', 'l', 'l', 'o']);

    doc.apply(Operation::delete("client1".to_string(), positions[2].clone()));
    doc.apply(Operation::delete("client1".to_string(), positions[3].clone()));
    assert_eq!(doc.content(), "Heo");

    doc.apply(Operation::delete("client1".to_string(), positions[2].clone()));
    doc.apply(Operation::delete("client1".to_string(), positions[3].clone()));
    assert_eq!(doc.content(), "Heo");
    // a third counted tombstone would have collected garbage
    assert_eq!(doc.character_count(), 5);
    assert_eq!(doc.operations().len(), 9);

    doc.apply(Operation::delete("client1".to_string(), positions[0].clone()));
    assert_eq!(doc.character_count(), 2);
    assert_eq!(doc.content(), "eo");
}

#[test]
fn delete_of_unknown_position_is_logged_only() {
    let mut doc = Document::new("d".to_string());
    let positions = hello(&mut doc, vec!['a', 'b']);
    doc.apply(Operation::delete("client1".to_string(), Position::new(vec![7, 7, 7])));
    assert_eq!(doc.content(), "ab");
    assert_eq!(doc.character_count(), 2);
    assert_eq!(doc.operations().len(), 3);

    doc.apply(Operation::delete("client1".to_string(), positions[0].clone()));
    doc.collect_garbage();
    doc.apply(Operation::delete("client1".to_string(), positions[0].clone()));
    assert_eq!(doc.content(), "b");
    assert_eq!(doc.character_count(), 1);
    assert_eq!(doc.operations().len(), 5);
}

#[test]
fn inserts_land_in_position_order() {
    let mut doc = Document::new("d".to_string());
    doc.apply(Operation::insert("a".to_string(), 'c', Position::new(vec![30])));
    doc.apply(Operation::insert("a".to_string(), 'a', Position::new(vec![10])));
    doc.apply(Operation::insert("a".to_string(), 'b', Position::new(vec![20])));
    doc.apply(Operation::insert("a".to_string(), 'z', Position::start()));
    assert_eq!(doc.content(), "zabc");
}

#[test]
fn operation_accessors() {
    let op = Operation::insert("client9".to_string(), 'q', Position::new(vec![4, 2]));
    assert_eq!(op.client_id(), "client9");
    assert_eq!(op.position(), &Position::new(vec![4, 2]));
    assert_eq!(op.timestamp().logical_clock(), 0);
    assert_eq!(op.timestamp().client_id(), "client9");

    let del = Operation::delete("client8".to_string(), Position::new(vec![1]));
    assert_eq!(del.client_id(), "client8");
    assert_eq!(del.position(), &Position::new(vec![1]));
    assert_eq!(del.timestamp().client_id(), "client8");
}

#[test]
fn threshold_zero_collects_on_every_delete() {
    let mut doc = Document::new("d".to_string());
    doc.set_garbage_collection_threshold(0);
    let positions = hello(&mut doc, vec!['x', 'y']);
    doc.apply(Operation::delete("c".to_string(), positions[1].clone()));
    assert_eq!(doc.character_count(), 1);
    assert_eq!(doc.content(), "x");
}
