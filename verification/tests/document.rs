use stele::document::{BlockId, Document};
use stele::error::DocumentError;

#[derive(Clone, Debug, PartialEq)]
struct TestBlock {
    rect: [f32; 4],
    padding: f32,
    text: &'static str,
    z_order: u32,
}

fn block(rect: [f32; 4], text: &'static str, z_order: u32) -> TestBlock {
    TestBlock { rect, padding: 4.0, text, z_order }
}

#[test]
fn document_updates_block_geometry_without_exposing_fields() {
    let mut document = Document::new(vec![block([0.0, 0.0, 10.0, 10.0], "text", 0)]);

    let mut updated = document.block(0).expect("block index must exist").clone();
    updated.rect = [2.0, 3.0, 20.0, 30.0];
    document.set_block(0, updated).expect("block index must exist");
    assert_eq!(document.block(0).expect("block must exist").rect, [2.0, 3.0, 20.0, 30.0]);
    assert_eq!(
        document.set_block(1, block([0.0, 0.0, 1.0, 1.0], "missing", 0)),
        Err(DocumentError::MissingBlock { block_index: 1 })
    );
    assert_eq!(document.blocks().len(), 1);
}

#[test]
fn document_assigns_stable_block_ids_when_built() {
    let document = Document::new(vec![
        block([0.0, 0.0, 10.0, 10.0], "first", 0),
        block([10.0, 0.0, 10.0, 10.0], "second", 1),
    ]);

    let first_id = document.block_id(0).expect("first block must exist");
    let second_id = document.block_id(1).expect("second block must exist");

    assert_eq!(first_id, BlockId::new(0));
    assert_eq!(second_id, BlockId::new(1));
    assert_ne!(first_id, second_id);
    assert_eq!(document.block_id(2), None);
    assert_eq!(document.block(1).map(|b| b.text), Some("second"));
}

#[test]
fn replacing_a_block_leaves_the_others() {
    let mut document = Document::new(vec![
        block([0.0, 0.0, 1.0, 1.0], "a", 0),
        block([0.0, 0.0, 2.0, 2.0], "b", 0),
        block([0.0, 0.0, 3.0, 3.0], "c", 0),
    ]);
    document.set_block(1, block([5.0, 5.0, 5.0, 5.0], "B", 7)).expect("index 1 exists");
    let texts: Vec<&str> = document.blocks().iter().map(|b| b.text).collect();
    assert_eq!(texts, vec!["a", "B", "c"]);
    assert_eq!(document.block(1).map(|b| b.z_order), Some(7));
    assert_eq!(document.block_id(1).map(BlockId::value), Some(1));
    assert_eq!(document.block(0).map(|b| b.padding), Some(4.0));
}
