use stele::error::DocumentError;
use stele::tree::{register_anchor, AnchorIndex, AnchorKey, BlockShape, DocumentTree, NodeId};

fn key(text: &str) -> AnchorKey {
    AnchorKey::new(text).expect("anchor must be valid")
}

fn paragraph(anchor_key: Option<AnchorKey>) -> BlockShape {
    BlockShape::Paragraph { node_id: NodeId::new(0), anchor_key }
}

fn embed(anchor_key: Option<AnchorKey>) -> BlockShape {
    BlockShape::Embed { node_id: NodeId::new(0), anchor_key }
}

fn stack(anchor_key: Option<AnchorKey>, children: Vec<BlockShape>) -> BlockShape {
    BlockShape::Stack { node_id: NodeId::new(0), anchor_key, children }
}

fn overlay(target: Option<AnchorKey>, child: BlockShape) -> BlockShape {
    BlockShape::Overlay { node_id: NodeId::new(0), target, child: Box::new(child) }
}

fn node_ids(shape: &BlockShape, out: &mut Vec<u64>) {
    match shape {
        BlockShape::Stack { node_id, children, .. } => {
            out.push(node_id.value());
            for child in children {
                node_ids(child, out);
            }
        }
        BlockShape::Paragraph { node_id, .. } | BlockShape::Embed { node_id, .. } => {
            out.push(node_id.value())
        }
        BlockShape::Overlay { node_id, child, .. } => {
            out.push(node_id.value());
            node_ids(child, out);
        }
    }
}

#[test]
fn rejects_overlay_root() {
    let root = overlay(None, paragraph(None));
    assert!(matches!(DocumentTree::new(root), Err(DocumentError::RootOverlay)));
}

#[test]
fn validates_duplicate_anchor_keys() {
    let root = stack(None, vec![paragraph(Some(key("dup"))), paragraph(Some(key("dup")))]);
    assert!(matches!(
        DocumentTree::new(root),
        Err(DocumentError::DuplicateAnchorKey { key }) if key == "dup"
    ));
}

#[test]
fn validates_overlay_targets_against_flow_nodes_only() {
    let root = stack(
        None,
        vec![paragraph(Some(key("body"))), overlay(Some(key("body")), paragraph(None))],
    );
    DocumentTree::new(root).expect("overlay target must resolve");
}

#[test]
fn overlay_cannot_target_a_key_inside_an_overlay() {
    let root = stack(
        None,
        vec![
            overlay(None, paragraph(Some(key("inner")))),
            overlay(Some(key("inner")), embed(None)),
        ],
    );
    assert!(matches!(
        DocumentTree::new(root),
        Err(DocumentError::UnknownOverlayTarget { key }) if key == "inner"
    ));
}

#[test]
fn overlay_with_missing_target_is_refused() {
    let root = stack(None, vec![paragraph(None), overlay(Some(key("nowhere")), paragraph(None))]);
    assert!(matches!(
        DocumentTree::new(root),
        Err(DocumentError::UnknownOverlayTarget { key }) if key == "nowhere"
    ));
}

#[test]
fn overlay_may_target_a_block_that_comes_later() {
    let root = stack(
        None,
        vec![overlay(Some(key("late")), paragraph(None)), embed(Some(key("late")))],
    );
    let tree = DocumentTree::new(root).expect("later flow blocks are valid targets");
    assert_eq!(tree.anchor_index().get(&key("late")).map(NodeId::value), Some(3));
}

#[test]
fn duplicate_inside_overlay_is_still_a_duplicate() {
    let root = stack(
        None,
        vec![paragraph(Some(key("same"))), overlay(None, paragraph(Some(key("same"))))],
    );
    assert!(matches!(
        DocumentTree::new(root),
        Err(DocumentError::DuplicateAnchorKey { key }) if key == "same"
    ));
}

#[test]
fn node_ids_follow_document_order() {
    let root = stack(
        Some(key("root")),
        vec![
            paragraph(None),
            stack(None, vec![embed(Some(key("leaf")))]),
            overlay(None, stack(None, vec![paragraph(Some(key("floating")))])),
            paragraph(None),
        ],
    );
    let tree = DocumentTree::new(root).expect("tree must be valid");
    let mut ids = Vec::new();
    node_ids(tree.root(), &mut ids);
    assert_eq!(ids, vec![0, 1, 2, 3, 4, 5, 6, 7]);

    let index = tree.anchor_index();
    assert_eq!(index.get(&key("root")).map(NodeId::value), Some(0));
    assert_eq!(index.get(&key("leaf")).map(NodeId::value), Some(3));
    assert_eq!(index.get(&key("floating")), None);
    assert_eq!(index.entries().len(), 2);
}

#[test]
fn anchor_keys_must_not_be_blank() {
    assert!(matches!(AnchorKey::new(""), Err(DocumentError::InvalidAnchorKey)));
    assert!(matches!(AnchorKey::new(" \t\n"), Err(DocumentError::InvalidAnchorKey)));
    assert_eq!(AnchorKey::new(" padded ").expect("anchor must be valid").as_str(), " padded ");
}

#[test]
fn node_id_round_trips() {
    assert_eq!(NodeId::new(42).value(), 42);
}

#[test]
fn register_anchor_records_flow_keys_and_refuses_repeats() {
    let mut seen = Vec::new();
    let mut index = AnchorIndex::new();
    assert!(register_anchor(None, NodeId::new(0), &mut seen, &mut index, false).is_ok());
    assert!(seen.is_empty());

    let flow = key("flow");
    assert!(register_anchor(Some(&flow), NodeId::new(1), &mut seen, &mut index, false).is_ok());
    assert_eq!(index.get(&flow).map(NodeId::value), Some(1));

    let floating = key("floating");
    assert!(register_anchor(Some(&floating), NodeId::new(2), &mut seen, &mut index, true).is_ok());
    assert!(!index.contains_key(&floating));
    assert_eq!(seen.len(), 2);

    let again = key("floating");
    assert!(matches!(
        register_anchor(Some(&again), NodeId::new(3), &mut seen, &mut index, false),
        Err(DocumentError::DuplicateAnchorKey { key }) if key == "floating"
    ));
    assert!(!index.contains_key(&again));
}
