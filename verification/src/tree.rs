//! Outline of the semantic block tree: node ids, anchor keys and overlay targets.
//!
//! The outline keeps what tree validation reads from each block: its kind, its anchor key,
//! its children and, for an overlay, the anchor it targets (none for the viewport).
use crate::error::DocumentError;
use crate::text::{is_blank, is_white_space};
use vstd::prelude::*;

verus! {

broadcast use vstd::seq_lib::group_seq_properties;

/// Identity of a block in the tree, assigned in document order.
#[derive(Clone, Copy, Debug, PartialEq, Eq, Hash, Structural)]
pub struct NodeId(u64);

impl View for NodeId {
    type V = u64;

    closed spec fn view(&self) -> u64 {
        self.0
    }
}

impl NodeId {
    pub fn new(value: u64) -> (id: Self)
        ensures
            id@ == value,
    {
        NodeId(value)
    }

    pub fn value(self) -> (value: u64)
        ensures
            value == self@,
    {
        self.0
    }
}

/// Whether every character is white space, so that trimming leaves nothing.
pub open spec fn blank(s: Seq<char>) -> bool {
    forall|i: int| 0 <= i < s.len() ==> is_white_space(#[trigger] s[i])
}

/// A non-blank key by which overlays find the block they are anchored to.
#[derive(Debug, PartialEq, Eq, Hash)]
pub struct AnchorKey(String);

impl View for AnchorKey {
    type V = Seq<char>;

    closed spec fn view(&self) -> Seq<char> {
        self.0@
    }
}

impl AnchorKey {
    /// Creates a key; a key that is empty once trimmed is rejected.
    pub fn new(value: &str) -> (key: Result<Self, DocumentError>)
        ensures
            key is Ok <==> !blank(value@),
            key matches Ok(k) ==> k@ == value@,
            key matches Err(e) ==> e == DocumentError::InvalidAnchorKey,
    {
        if is_blank(value) {
            return Err(DocumentError::InvalidAnchorKey);
        }
        Ok(AnchorKey(value.to_owned()))
    }

    pub fn as_str(&self) -> (s: &str)
        ensures
            s@ == self@,
    {
        self.0.as_str()
    }

    /// A copy of the key.
    pub fn copy_key(&self) -> (key: Self)
        ensures
            key == *self,
    {
        AnchorKey(self.0.clone())
    }

    /// Whether two keys are equal.
    pub fn same_key(&self, other: &AnchorKey) -> (same: bool)
        ensures
            same == (self@ == other@),
    {
        self.0 == other.0
    }
}

pub open spec fn key_view(key: Option<AnchorKey>) -> Option<Seq<char>> {
    match key {
        Some(k) => Some(k@),
        None => None,
    }
}

fn copy_optional_key(key: &Option<AnchorKey>) -> (copy: Option<AnchorKey>)
    ensures
        copy == *key,
{
    match key {
        Some(k) => Some(k.copy_key()),
        None => None,
    }
}

/// The outline of one block of the semantic tree.
#[derive(Debug)]
pub enum BlockShape {
    Stack { node_id: NodeId, anchor_key: Option<AnchorKey>, children: Vec<BlockShape> },
    Paragraph { node_id: NodeId, anchor_key: Option<AnchorKey> },
    Embed { node_id: NodeId, anchor_key: Option<AnchorKey> },
    /// An overlay and its content; `target` is the anchor it follows, `None` for the viewport.
    Overlay { node_id: NodeId, target: Option<AnchorKey>, child: Box<BlockShape> },
}

/// One block in document order: its anchor key, whether it lies inside an overlay, and
/// the anchor that it targets if it is an overlay.
pub type Slot = (Option<Seq<char>>, bool, Option<Seq<char>>);

/// The blocks of a subtree in document order (pre-order).
pub open spec fn slots(node: BlockShape, in_overlay: bool) -> Seq<Slot>
    decreases node,
{
    match node {
        BlockShape::Stack { anchor_key, children, .. } => seq![
            (key_view(anchor_key), in_overlay, None),
        ] + slots_list(children@, in_overlay),
        BlockShape::Paragraph { anchor_key, .. } => seq![(key_view(anchor_key), in_overlay, None)],
        BlockShape::Embed { anchor_key, .. } => seq![(key_view(anchor_key), in_overlay, None)],
        BlockShape::Overlay { target, child, .. } => seq![(None, in_overlay, key_view(target))]
            + slots(*child, true),
    }
}

/// The blocks of a sequence of sibling subtrees in document order.
pub open spec fn slots_list(nodes: Seq<BlockShape>, in_overlay: bool) -> Seq<Slot>
    decreases nodes,
{
    if nodes.len() == 0 {
        Seq::empty()
    } else {
        slots_list(nodes.drop_last(), in_overlay) + slots(nodes.last(), in_overlay)
    }
}

/// Number of blocks in a subtree.
pub open spec fn shape_size(node: BlockShape) -> nat
    decreases node,
{
    match node {
        BlockShape::Stack { children, .. } => 1 + list_size(children@),
        BlockShape::Overlay { child, .. } => 1 + shape_size(*child),
        _ => 1,
    }
}

/// Number of blocks in a sequence of sibling subtrees.
pub open spec fn list_size(nodes: Seq<BlockShape>) -> nat
    decreases nodes,
{
    if nodes.len() == 0 {
        0
    } else {
        list_size(nodes.drop_last()) + shape_size(nodes.last())
    }
}

proof fn lemma_slots_len(node: BlockShape, in_overlay: bool)
    ensures
        slots(node, in_overlay).len() == shape_size(node),
    decreases node,
{
    match node {
        BlockShape::Stack { children, .. } => {
            lemma_slots_list_len(children@, in_overlay);
        },
        BlockShape::Overlay { child, .. } => {
            lemma_slots_len(*child, true);
        },
        _ => {},
    }
}

proof fn lemma_slots_list_len(nodes: Seq<BlockShape>, in_overlay: bool)
    ensures
        slots_list(nodes, in_overlay).len() == list_size(nodes),
    decreases nodes,
{
    if nodes.len() > 0 {
        lemma_slots_list_len(nodes.drop_last(), in_overlay);
        lemma_slots_len(nodes.last(), in_overlay);
    }
}

/// `out` is `inp` with the node ids `start`, `start + 1`, ... assigned in document order;
/// everything else is unchanged.
pub open spec fn numbered(out: BlockShape, inp: BlockShape, start: int) -> bool
    decreases inp,
{
    match inp {
        BlockShape::Stack { anchor_key, children, .. } => {
            &&& out matches BlockShape::Stack { node_id, anchor_key: k, children: c }
            &&& node_id@ == start
            &&& k == anchor_key
            &&& numbered_list(c@, children@, start + 1)
        },
        BlockShape::Paragraph { anchor_key, .. } => {
            &&& out matches BlockShape::Paragraph { node_id, anchor_key: k }
            &&& node_id@ == start
            &&& k == anchor_key
        },
        BlockShape::Embed { anchor_key, .. } => {
            &&& out matches BlockShape::Embed { node_id, anchor_key: k }
            &&& node_id@ == start
            &&& k == anchor_key
        },
        BlockShape::Overlay { target, child, .. } => {
            &&& out matches BlockShape::Overlay { node_id, target: t, child: c }
            &&& node_id@ == start
            &&& t == target
            &&& numbered(*c, *child, start + 1)
        },
    }
}

/// `numbered` for a sequence of siblings, the first one starting at `start`.
pub open spec fn numbered_list(out: Seq<BlockShape>, inp: Seq<BlockShape>, start: int) -> bool
    decreases inp,
{
    &&& out.len() == inp.len()
    &&& inp.len() > 0 ==> {
        &&& numbered_list(out.drop_last(), inp.drop_last(), start)
        &&& numbered(out.last(), inp.last(), start + list_size(inp.drop_last()))
    }
}

/// Whether an earlier block carries the key.
pub open spec fn key_seen(slots: Seq<Slot>, key: Seq<char>) -> bool {
    exists|j: int| 0 <= j < slots.len() && #[trigger] slots[j].0 == Some(key)
}

/// The key of the first block, in document order, whose anchor key an earlier block
/// already carries.
pub open spec fn first_duplicate(slots: Seq<Slot>) -> Option<Seq<char>>
    decreases slots.len(),
{
    if slots.len() == 0 {
        None
    } else {
        let prev = first_duplicate(slots.drop_last());
        if prev is Some {
            prev
        } else if slots.last().0 is Some && key_seen(slots.drop_last(), slots.last().0->0) {
            slots.last().0
        } else {
            None
        }
    }
}

/// Anchor keys of blocks outside overlays, mapped to the ids of the blocks that carry
/// them (a block's id is its position in document order).
pub open spec fn flow_index(slots: Seq<Slot>) -> Map<Seq<char>, u64>
    decreases slots.len(),
{
    if slots.len() == 0 {
        Map::empty()
    } else {
        let m = flow_index(slots.drop_last());
        if slots.last().0 is Some && !slots.last().1 {
            m.insert(slots.last().0->0, (slots.len() - 1) as u64)
        } else {
            m
        }
    }
}

/// The target of the first overlay, in document order, whose target is not in `index`.
pub open spec fn first_unknown_target(slots: Seq<Slot>, index: Map<Seq<char>, u64>) -> Option<
    Seq<char>,
>
    decreases slots.len(),
{
    if slots.len() == 0 {
        None
    } else {
        let prev = first_unknown_target(slots.drop_last(), index);
        if prev is Some {
            prev
        } else if slots.last().2 is Some && !index.contains_key(slots.last().2->0) {
            slots.last().2
        } else {
            None
        }
    }
}

/// The map that a list of (key, id) entries describes, later entries winning.
pub open spec fn entries_map(entries: Seq<(AnchorKey, NodeId)>) -> Map<Seq<char>, u64>
    decreases entries.len(),
{
    if entries.len() == 0 {
        Map::empty()
    } else {
        entries_map(entries.drop_last()).insert(entries.last().0@, entries.last().1@)
    }
}

/// Anchor keys of flow blocks and the ids of the blocks that carry them.
#[derive(Debug)]
pub struct AnchorIndex {
    entries: Vec<(AnchorKey, NodeId)>,
}

impl View for AnchorIndex {
    type V = Map<Seq<char>, u64>;

    closed spec fn view(&self) -> Map<Seq<char>, u64> {
        entries_map(self.entries@)
    }
}

impl AnchorIndex {
    /// No key occurs twice.
    pub closed spec fn wf(&self) -> bool {
        forall|i: int, j: int|
            0 <= i < j < self.entries@.len() ==> #[trigger] self.entries@[i].0@
                != #[trigger] self.entries@[j].0@
    }

    pub fn new() -> (index: Self)
        ensures
            index@ == Map::<Seq<char>, u64>::empty(),
            index.wf(),
    {
        AnchorIndex { entries: Vec::new() }
    }

    proof fn lemma_lookup(entries: Seq<(AnchorKey, NodeId)>, i: int)
        requires
            0 <= i < entries.len(),
            forall|a: int, b: int|
                0 <= a < b < entries.len() ==> #[trigger] entries[a].0@ != #[trigger] entries[b].0@,
        ensures
            entries_map(entries).contains_key(entries[i].0@),
            entries_map(entries)[entries[i].0@] == entries[i].1@,
        decreases entries.len(),
    {
        if i < entries.len() - 1 {
            Self::lemma_lookup(entries.drop_last(), i);
            assert(entries.drop_last()[i] == entries[i]);
        }
    }

    proof fn lemma_absent(entries: Seq<(AnchorKey, NodeId)>, key: Seq<char>)
        requires
            forall|i: int| 0 <= i < entries.len() ==> #[trigger] entries[i].0@ != key,
        ensures
            !entries_map(entries).contains_key(key),
        decreases entries.len(),
    {
        if entries.len() > 0 {
            Self::lemma_absent(entries.drop_last(), key);
        }
    }

    /// The id recorded for a key, if any.
    pub fn get(&self, key: &AnchorKey) -> (id: Option<NodeId>)
        requires
            self.wf(),
        ensures
            id is Some <==> self@.contains_key(key@),
            id matches Some(id) ==> self@[key@] == id@,
    {
        let mut i: usize = 0;
        while i < self.entries.len()
            invariant
                i <= self.entries@.len(),
                self.wf(),
                forall|j: int| 0 <= j < i ==> #[trigger] self.entries@[j].0@ != key@,
            decreases self.entries.len() - i,
        {
            if self.entries[i].0.same_key(key) {
                proof {
                    Self::lemma_lookup(self.entries@, i as int);
                }
                return Some(self.entries[i].1);
            }
            i += 1;
        }
        proof {
            Self::lemma_absent(self.entries@, key@);
        }
        None
    }

    /// Whether a key is recorded.
    pub fn contains_key(&self, key: &AnchorKey) -> (found: bool)
        requires
            self.wf(),
        ensures
            found == self@.contains_key(key@),
    {
        self.get(key).is_some()
    }

    /// Records a key that is not yet present.
    pub fn insert(&mut self, key: AnchorKey, id: NodeId)
        requires
            old(self).wf(),
            !old(self)@.contains_key(key@),
        ensures
            final(self).wf(),
            final(self)@ == old(self)@.insert(key@, id@),
    {
        proof {
            assert forall|i: int| 0 <= i < self.entries@.len() implies #[trigger] self.entries@[i].0@
                != key@ by {
                if self.entries@[i].0@ == key@ {
                    Self::lemma_lookup(self.entries@, i);
                }
            }
        }
        self.entries.push((key, id));
        assert(self.entries@.drop_last() =~= old(self).entries@);
    }

    /// The entries in the order they were recorded.
    pub fn entries(&self) -> (entries: &Vec<(AnchorKey, NodeId)>)
        ensures
            entries_map(entries@) == self@,
    {
        &self.entries
    }
}

/// The keys of a list of anchor keys.
pub open spec fn key_views(keys: Seq<AnchorKey>) -> Seq<Seq<char>> {
    keys.map_values(|k: AnchorKey| k@)
}

/// Whether one of the keys equals `key`.
fn contains_anchor(keys: &Vec<AnchorKey>, key: &AnchorKey) -> (found: bool)
    ensures
        found == key_views(keys@).contains(key@),
{
    let mut i: usize = 0;
    while i < keys.len()
        invariant
            i <= keys@.len(),
            forall|j: int| 0 <= j < i ==> #[trigger] keys@[j]@ != key@,
        decreases keys.len() - i,
    {
        if keys[i].same_key(key) {
            assert(key_views(keys@)[i as int] == key@);
            return true;
        }
        i += 1;
    }
    proof {
        if key_views(keys@).contains(key@) {
            let j = choose|j: int| 0 <= j < key_views(keys@).len() && key_views(keys@)[j] == key@;
            assert(keys@[j]@ == key@);
        }
    }
    false
}

/// Records an anchor key for a block: a key already seen anywhere in the tree is a
/// duplicate; a key of a block outside overlays is also entered in the flow index.
pub fn register_anchor(
    anchor_key: Option<&AnchorKey>,
    node_id: NodeId,
    seen_anchors: &mut Vec<AnchorKey>,
    flow_anchor_index: &mut AnchorIndex,
    in_overlay_subtree: bool,
) -> (result: Result<(), DocumentError>)
    requires
        old(flow_anchor_index).wf(),
        forall|k: Seq<char>|
            #[trigger] old(flow_anchor_index)@.contains_key(k) ==> key_views(old(seen_anchors)@).contains(k),
    ensures
        final(flow_anchor_index).wf(),
        match anchor_key {
            None => {
                &&& result is Ok
                &&& final(seen_anchors)@ == old(seen_anchors)@
                &&& final(flow_anchor_index)@ == old(flow_anchor_index)@
            },
            Some(key) => if key_views(old(seen_anchors)@).contains(key@) {
                &&& result matches Err(DocumentError::DuplicateAnchorKey { key: k }) && k@ == key@
                &&& final(seen_anchors)@ == old(seen_anchors)@
                &&& final(flow_anchor_index)@ == old(flow_anchor_index)@
            } else {
                &&& result is Ok
                &&& final(seen_anchors)@ == old(seen_anchors)@.push(*key)
                &&& final(flow_anchor_index)@ == if in_overlay_subtree {
                    old(flow_anchor_index)@
                } else {
                    old(flow_anchor_index)@.insert(key@, node_id@)
                }
            },
        },
{
    let anchor_key = match anchor_key {
        Some(key) => key,
        None => {
            return Ok(());
        },
    };
    if contains_anchor(seen_anchors, anchor_key) {
        return Err(DocumentError::DuplicateAnchorKey { key: anchor_key.as_str().to_owned() });
    }
    seen_anchors.push(anchor_key.copy_key());
    if !in_overlay_subtree {
        flow_anchor_index.insert(anchor_key.copy_key(), node_id);
    }
    Ok(())
}

/// The seen keys are exactly the keys that the listed blocks carry.
pub open spec fn seen_matches(seen: Seq<AnchorKey>, slots: Seq<Slot>) -> bool {
    forall|k: Seq<char>| #[trigger] key_views(seen).contains(k) <==> key_seen(slots, k)
}

proof fn lemma_first_duplicate_extend(a: Seq<Slot>, b: Seq<Slot>)
    requires
        first_duplicate(a) is Some,
    ensures
        first_duplicate(a + b) == first_duplicate(a),
    decreases b.len(),
{
    if b.len() == 0 {
        assert(a + b =~= a);
    } else {
        lemma_first_duplicate_extend(a, b.drop_last());
        assert((a + b).drop_last() =~= a + b.drop_last());
    }
}

proof fn lemma_first_unknown_concat(a: Seq<Slot>, b: Seq<Slot>, index: Map<Seq<char>, u64>)
    ensures
        first_unknown_target(a + b, index) == if first_unknown_target(a, index) is Some {
            first_unknown_target(a, index)
        } else {
            first_unknown_target(b, index)
        },
    decreases b.len(),
{
    if b.len() == 0 {
        assert(a + b =~= a);
    } else {
        lemma_first_unknown_concat(a, b.drop_last(), index);
        assert((a + b).drop_last() =~= a + b.drop_last());
    }
}

proof fn lemma_slots_list_concat(a: Seq<BlockShape>, b: Seq<BlockShape>, in_overlay: bool)
    ensures
        slots_list(a + b, in_overlay) == slots_list(a, in_overlay) + slots_list(b, in_overlay),
        list_size(a + b) == list_size(a) + list_size(b),
    decreases b.len(),
{
    if b.len() == 0 {
        assert(a + b =~= a);
        assert(slots_list(a, in_overlay) + slots_list(b, in_overlay) =~= slots_list(a, in_overlay));
    } else {
        lemma_slots_list_concat(a, b.drop_last(), in_overlay);
        assert((a + b).drop_last() =~= a + b.drop_last());
        assert((a + b).last() == b.last());
        assert(slots_list(a + b, in_overlay) =~= slots_list(a, in_overlay) + slots_list(b, in_overlay));
    }
}

proof fn lemma_single_list(node: BlockShape, in_overlay: bool)
    ensures
        list_size(seq![node]) == shape_size(node),
        slots_list(seq![node], in_overlay) == slots(node, in_overlay),
{
    let one = seq![node];
    assert(one.drop_last() =~= Seq::<BlockShape>::empty());
    assert(one.last() == node);
    assert(list_size(one.drop_last()) == 0);
    assert(slots_list(one.drop_last(), in_overlay) =~= Seq::<Slot>::empty());
    assert(slots_list(one, in_overlay) =~= slots(node, in_overlay));
}

proof fn lemma_flow_index_keys_seen(slots: Seq<Slot>, k: Seq<char>)
    requires
        flow_index(slots).contains_key(k),
    ensures
        key_seen(slots, k),
    decreases slots.len(),
{
    let m = flow_index(slots.drop_last());
    if slots.last().0 == Some(k) {
        assert(slots[slots.len() - 1].0 == Some(k));
    } else {
        lemma_flow_index_keys_seen(slots.drop_last(), k);
        let j = choose|j: int| 0 <= j < slots.drop_last().len() && #[trigger] slots.drop_last()[j].0 == Some(k);
        assert(slots[j].0 == Some(k));
    }
}

proof fn lemma_key_seen_push(slots: Seq<Slot>, slot: Slot, k: Seq<char>)
    ensures
        key_seen(slots.push(slot), k) == (key_seen(slots, k) || slot.0 == Some(k)),
{
    if key_seen(slots, k) {
        let j = choose|j: int| 0 <= j < slots.len() && #[trigger] slots[j].0 == Some(k);
        assert(slots.push(slot)[j].0 == Some(k));
    }
    if slot.0 == Some(k) {
        assert(slots.push(slot)[slots.len() as int].0 == Some(k));
    }
    if key_seen(slots.push(slot), k) {
        let j = choose|j: int| 0 <= j < slots.push(slot).len() && #[trigger] slots.push(slot)[j].0 == Some(
            k,
        );
        if j < slots.len() {
            assert(slots[j].0 == Some(k));
        }
    }
}

proof fn lemma_numbered_slots(out: BlockShape, inp: BlockShape, start: int, in_overlay: bool)
    requires
        numbered(out, inp, start),
    ensures
        slots(out, in_overlay) == slots(inp, in_overlay),
    decreases inp,
{
    match inp {
        BlockShape::Stack { children, .. } => {
            if let BlockShape::Stack { children: c, .. } = out {
                lemma_numbered_list_slots(c@, children@, start + 1, in_overlay);
            }
        },
        BlockShape::Overlay { child, .. } => {
            if let BlockShape::Overlay { child: c, .. } = out {
                lemma_numbered_slots(*c, *child, start + 1, true);
            }
        },
        _ => {},
    }
}

proof fn lemma_numbered_list_slots(out: Seq<BlockShape>, inp: Seq<BlockShape>, start: int, in_overlay: bool)
    requires
        numbered_list(out, inp, start),
    ensures
        slots_list(out, in_overlay) == slots_list(inp, in_overlay),
    decreases inp,
{
    if inp.len() > 0 {
        lemma_numbered_list_slots(out.drop_last(), inp.drop_last(), start, in_overlay);
        lemma_numbered_slots(out.last(), inp.last(), start + list_size(inp.drop_last()), in_overlay);
    }
}

/// The node ids of a subtree in document order (pre-order).
pub open spec fn node_ids(node: BlockShape) -> Seq<int>
    decreases node,
{
    match node {
        BlockShape::Stack { node_id, children, .. } => seq![node_id@ as int] + node_ids_list(children@),
        BlockShape::Paragraph { node_id, .. } => seq![node_id@ as int],
        BlockShape::Embed { node_id, .. } => seq![node_id@ as int],
        BlockShape::Overlay { node_id, child, .. } => seq![node_id@ as int] + node_ids(*child),
    }
}

/// The node ids of a sequence of sibling subtrees in document order.
pub open spec fn node_ids_list(nodes: Seq<BlockShape>) -> Seq<int>
    decreases nodes,
{
    if nodes.len() == 0 {
        Seq::empty()
    } else {
        node_ids_list(nodes.drop_last()) + node_ids(nodes.last())
    }
}

/// Numbering gives the blocks of a subtree the ids `start`, `start + 1`, ... in document
/// order, one each, so no two blocks share an id.
pub proof fn lemma_numbered_ids_count_up(out: BlockShape, inp: BlockShape, start: int)
    requires
        numbered(out, inp, start),
    ensures
        node_ids(out) == Seq::new(shape_size(inp), |i: int| start + i),
    decreases inp,
{
    match inp {
        BlockShape::Stack { children, .. } => {
            if let BlockShape::Stack { children: c, .. } = out {
                lemma_numbered_list_ids(c@, children@, start + 1);
                assert(node_ids(out) =~= Seq::new(shape_size(inp), |i: int| start + i));
            }
        },
        BlockShape::Overlay { child, .. } => {
            if let BlockShape::Overlay { child: c, .. } = out {
                lemma_numbered_ids_count_up(*c, *child, start + 1);
                assert(node_ids(out) =~= Seq::new(shape_size(inp), |i: int| start + i));
            }
        },
        _ => {
            assert(node_ids(out) =~= Seq::new(shape_size(inp), |i: int| start + i));
        },
    }
}

proof fn lemma_numbered_list_ids(out: Seq<BlockShape>, inp: Seq<BlockShape>, start: int)
    requires
        numbered_list(out, inp, start),
    ensures
        node_ids_list(out) == Seq::new(list_size(inp), |i: int| start + i),
    decreases inp,
{
    if inp.len() == 0 {
        assert(node_ids_list(out) =~= Seq::new(list_size(inp), |i: int| start + i));
    } else {
        lemma_numbered_list_ids(out.drop_last(), inp.drop_last(), start);
        lemma_numbered_ids_count_up(out.last(), inp.last(), start + list_size(inp.drop_last()));
        assert(node_ids_list(out) =~= Seq::new(list_size(inp), |i: int| start + i));
    }
}

/// Facts kept while ids and anchors are assigned: `pre` lists the blocks already visited.
pub open spec fn assigned_state(
    next_node_id: u64,
    seen: Seq<AnchorKey>,
    index: Map<Seq<char>, u64>,
    pre: Seq<Slot>,
) -> bool {
    &&& next_node_id == pre.len()
    &&& seen_matches(seen, pre)
    &&& index == flow_index(pre)
    &&& first_duplicate(pre) is None
}

proof fn lemma_register_step(
    seen: Seq<AnchorKey>,
    pre: Seq<Slot>,
    slot: Slot,
    key: Option<AnchorKey>,
    new_seen: Seq<AnchorKey>,
)
    requires
        seen_matches(seen, pre),
        first_duplicate(pre) is None,
        slot.0 == key_view(key),
        key matches Some(k) ==> !key_views(seen).contains(k@) && new_seen == seen.push(k),
        key is None ==> new_seen == seen,
    ensures
        seen_matches(new_seen, pre.push(slot)),
        first_duplicate(pre.push(slot)) is None,
{
    assert(pre.push(slot).drop_last() =~= pre);
    assert forall|k: Seq<char>| #[trigger] key_views(new_seen).contains(k) <==> key_seen(pre.push(slot), k) by {
        lemma_key_seen_push(pre, slot, k);
        if let Some(a) = key {
            assert(key_views(new_seen) =~= key_views(seen).push(a@));
        }
    }
}

/// Assigns node ids in document order and registers anchor keys, building the numbered
/// outline.
fn assign_node_ids(
    node: &BlockShape,
    next_node_id: &mut u64,
    seen_anchors: &mut Vec<AnchorKey>,
    flow_anchor_index: &mut AnchorIndex,
    in_overlay_subtree: bool,
    Ghost(pre): Ghost<Seq<Slot>>,
) -> (result: Result<BlockShape, DocumentError>)
    requires
        assigned_state(*old(next_node_id), old(seen_anchors)@, old(flow_anchor_index)@, pre),
        old(flow_anchor_index).wf(),
        pre.len() + shape_size(*node) <= u64::MAX,
    ensures
        final(flow_anchor_index).wf(),
        match result {
            Ok(out) => {
                &&& numbered(out, *node, pre.len() as int)
                &&& assigned_state(
                    *final(next_node_id),
                    final(seen_anchors)@,
                    final(flow_anchor_index)@,
                    pre + slots(*node, in_overlay_subtree),
                )
            },
            Err(e) => {
                &&& first_duplicate(pre + slots(*node, in_overlay_subtree)) matches Some(k)
                &&& e matches DocumentError::DuplicateAnchorKey { key } && key@ == k
            },
        },
    decreases *node,
{
    proof {
        lemma_slots_len(*node, in_overlay_subtree);
    }
    let node_id = NodeId::new(*next_node_id);
    *next_node_id = *next_node_id + 1;
    match node {
        BlockShape::Stack { anchor_key, children, .. } => {
            let ghost slot: Slot = (key_view(*anchor_key), in_overlay_subtree, None);
            let ghost here = pre.push(slot);
            let ghost before_seen = seen_anchors@;
            proof {
                assert forall|k: Seq<char>| #[trigger] flow_anchor_index@.contains_key(k) implies key_views(
                    seen_anchors@,
                ).contains(k) by {
                    lemma_flow_index_keys_seen(pre, k);
                }
            }
            match register_anchor(
                anchor_key.as_ref(),
                node_id,
                seen_anchors,
                flow_anchor_index,
                in_overlay_subtree,
            ) {
                Ok(()) => {},
                Err(e) => {
                    proof {
                        let k = anchor_key->0@;
                        assert(key_views(before_seen).contains(k));
                        assert(key_seen(pre, k));
                        assert(here.drop_last() =~= pre);
                        assert(first_duplicate(here) == Some(k));
                        lemma_first_duplicate_extend(here, slots_list(children@, in_overlay_subtree));
                        assert(pre + slots(*node, in_overlay_subtree) =~= here + slots_list(
                            children@,
                            in_overlay_subtree,
                        ));
                    }
                    return Err(e);
                },
            }
            proof {
                lemma_register_step(before_seen, pre, slot, *anchor_key, seen_anchors@);
                assert(here.drop_last() =~= pre);
            }
            let mut out_children: Vec<BlockShape> = Vec::new();
            let mut i: usize = 0;
            while i < children.len()
                invariant
                    i <= children@.len(),
                    flow_anchor_index.wf(),
                    assigned_state(
                        *next_node_id,
                        seen_anchors@,
                        flow_anchor_index@,
                        here + slots_list(children@.take(i as int), in_overlay_subtree),
                    ),
                    numbered_list(out_children@, children@.take(i as int), pre.len() + 1int),
                    pre.len() + 1 + list_size(children@) <= u64::MAX,
                    here == pre.push(slot),
                    *node matches BlockShape::Stack { children: c, .. } && c == *children,
                    slots(*node, in_overlay_subtree) == seq![slot] + slots_list(children@, in_overlay_subtree),
                decreases children.len() - i,
            {
                let ghost at = here + slots_list(children@.take(i as int), in_overlay_subtree);
                proof {
                    lemma_slots_list_len(children@.take(i as int), in_overlay_subtree);
                    assert(children@ =~= children@.take(i as int) + children@.skip(i as int));
                    lemma_slots_list_concat(children@.take(i as int), children@.skip(i as int), in_overlay_subtree);
                    assert(children@.skip(i as int) =~= seq![children@[i as int]] + children@.skip(i + 1));
                    lemma_slots_list_concat(seq![children@[i as int]], children@.skip(i + 1), in_overlay_subtree);
                    assert(seq![children@[i as int]].drop_last() =~= Seq::<BlockShape>::empty());
                    lemma_single_list(children@[i as int], in_overlay_subtree);
                    assert(decreases_to!(*children => children@));
                    assert(decreases_to!(children@ => children@[i as int]));
                }
                let child = match assign_node_ids(
                    &children[i],
                    next_node_id,
                    seen_anchors,
                    flow_anchor_index,
                    in_overlay_subtree,
                    Ghost(at),
                ) {
                    Ok(child) => child,
                    Err(e) => {
                        proof {
                            let rest = slots_list(children@.skip(i + 1), in_overlay_subtree);
                            lemma_first_duplicate_extend(
                                at + slots(children@[i as int], in_overlay_subtree),
                                rest,
                            );
                            assert(pre + slots(*node, in_overlay_subtree) =~= at + slots(
                                children@[i as int],
                                in_overlay_subtree,
                            ) + rest);
                        }
                        return Err(e);
                    },
                };
                let ghost old_out = out_children@;
                out_children.push(child);
                proof {
                    assert(children@.take(i + 1).drop_last() =~= children@.take(i as int));
                    assert(children@.take(i + 1).last() == children@[i as int]);
                    assert(out_children@.drop_last() =~= old_out);
                    assert(here + slots_list(children@.take(i + 1), in_overlay_subtree) =~= at + slots(
                        children@[i as int],
                        in_overlay_subtree,
                    ));
                }
                i += 1;
            }
            proof {
                assert(children@.take(children@.len() as int) =~= children@);
                assert(pre + slots(*node, in_overlay_subtree) =~= here + slots_list(
                    children@,
                    in_overlay_subtree,
                ));
            }
            Ok(
                BlockShape::Stack {
                    node_id,
                    anchor_key: copy_optional_key(anchor_key),
                    children: out_children,
                },
            )
        },
        BlockShape::Paragraph { anchor_key, .. } => {
            let ghost slot: Slot = (key_view(*anchor_key), in_overlay_subtree, None);
            let ghost before_seen = seen_anchors@;
            proof {
                assert forall|k: Seq<char>| #[trigger] flow_anchor_index@.contains_key(k) implies key_views(
                    seen_anchors@,
                ).contains(k) by {
                    lemma_flow_index_keys_seen(pre, k);
                }
                assert(pre.push(slot).drop_last() =~= pre);
                assert(pre + slots(*node, in_overlay_subtree) =~= pre.push(slot));
            }
            match register_anchor(
                anchor_key.as_ref(),
                node_id,
                seen_anchors,
                flow_anchor_index,
                in_overlay_subtree,
            ) {
                Ok(()) => {},
                Err(e) => {
                    proof {
                        assert(key_seen(pre, anchor_key->0@));
                    }
                    return Err(e);
                },
            }
            proof {
                lemma_register_step(before_seen, pre, slot, *anchor_key, seen_anchors@);
            }
            Ok(BlockShape::Paragraph { node_id, anchor_key: copy_optional_key(anchor_key) })
        },
        BlockShape::Embed { anchor_key, .. } => {
            let ghost slot: Slot = (key_view(*anchor_key), in_overlay_subtree, None);
            let ghost before_seen = seen_anchors@;
            proof {
                assert forall|k: Seq<char>| #[trigger] flow_anchor_index@.contains_key(k) implies key_views(
                    seen_anchors@,
                ).contains(k) by {
                    lemma_flow_index_keys_seen(pre, k);
                }
                assert(pre.push(slot).drop_last() =~= pre);
                assert(pre + slots(*node, in_overlay_subtree) =~= pre.push(slot));
            }
            match register_anchor(
                anchor_key.as_ref(),
                node_id,
                seen_anchors,
                flow_anchor_index,
                in_overlay_subtree,
            ) {
                Ok(()) => {},
                Err(e) => {
                    proof {
                        assert(key_seen(pre, anchor_key->0@));
                    }
                    return Err(e);
                },
            }
            proof {
                lemma_register_step(before_seen, pre, slot, *anchor_key, seen_anchors@);
            }
            Ok(BlockShape::Embed { node_id, anchor_key: copy_optional_key(anchor_key) })
        },
        BlockShape::Overlay { target, child, .. } => {
            let ghost slot: Slot = (None, in_overlay_subtree, key_view(*target));
            let ghost here = pre.push(slot);
            proof {
                lemma_register_step(seen_anchors@, pre, slot, None, seen_anchors@);
                assert(here.drop_last() =~= pre);
                assert(pre + slots(*node, in_overlay_subtree) =~= here + slots(**child, true));
                lemma_slots_len(**child, true);
            }
            let numbered_child = match assign_node_ids(
                child,
                next_node_id,
                seen_anchors,
                flow_anchor_index,
                true,
                Ghost(here),
            ) {
                Ok(c) => c,
                Err(e) => {
                    return Err(e);
                },
            };
            Ok(
                BlockShape::Overlay {
                    node_id,
                    target: copy_optional_key(target),
                    child: Box::new(numbered_child),
                },
            )
        },
    }
}

proof fn lemma_first_unknown_single(slot: Slot, index: Map<Seq<char>, u64>)
    ensures
        first_unknown_target(seq![slot], index) == if slot.2 is Some && !index.contains_key(
            slot.2->0,
        ) {
            slot.2
        } else {
            None
        },
{
    let one = seq![slot];
    assert(one.drop_last() =~= Seq::<Slot>::empty());
    assert(one.last() == slot);
    assert(first_unknown_target(one.drop_last(), index) is None);
}

/// Checks, in document order, that every overlay anchored to a block targets a key of the
/// flow index; the first overlay whose target is missing is reported.
fn validate_overlay_targets(
    node: &BlockShape,
    flow_anchor_index: &AnchorIndex,
    Ghost(in_overlay): Ghost<bool>,
) -> (result: Result<(), DocumentError>)
    requires
        flow_anchor_index.wf(),
    ensures
        match first_unknown_target(slots(*node, in_overlay), flow_anchor_index@) {
            None => result is Ok,
            Some(t) => result matches Err(DocumentError::UnknownOverlayTarget { key }) && key@ == t,
        },
    decreases *node,
{
    match node {
        BlockShape::Stack { anchor_key, children, .. } => {
            let ghost slot: Slot = (key_view(*anchor_key), in_overlay, None);
            let ghost index = flow_anchor_index@;
            proof {
                lemma_first_unknown_single(slot, index);
                lemma_first_unknown_concat(seq![slot], slots_list(children@, in_overlay), index);
            }
            let mut i: usize = 0;
            while i < children.len()
                invariant
                    i <= children@.len(),
                    flow_anchor_index.wf(),
                    index == flow_anchor_index@,
                    *node matches BlockShape::Stack { children: c, .. } && c == *children,
                    first_unknown_target(slots_list(children@.take(i as int), in_overlay), index) is None,
                    first_unknown_target(slots(*node, in_overlay), index) == first_unknown_target(
                        slots_list(children@, in_overlay),
                        index,
                    ),
                decreases children.len() - i,
            {
                proof {
                    assert(decreases_to!(*children => children@));
                    assert(decreases_to!(children@ => children@[i as int]));
                    assert(children@.take(i + 1).drop_last() =~= children@.take(i as int));
                    assert(children@.take(i + 1).last() == children@[i as int]);
                    lemma_first_unknown_concat(
                        slots_list(children@.take(i as int), in_overlay),
                        slots(children@[i as int], in_overlay),
                        index,
                    );
                    assert(children@ =~= children@.take(i + 1) + children@.skip(i + 1));
                    lemma_slots_list_concat(children@.take(i + 1), children@.skip(i + 1), in_overlay);
                    lemma_first_unknown_concat(
                        slots_list(children@.take(i + 1), in_overlay),
                        slots_list(children@.skip(i + 1), in_overlay),
                        index,
                    );
                }
                match validate_overlay_targets(&children[i], flow_anchor_index, Ghost(in_overlay)) {
                    Ok(()) => {},
                    Err(e) => {
                        return Err(e);
                    },
                }
                i += 1;
            }
            proof {
                assert(children@.take(children@.len() as int) =~= children@);
            }
            Ok(())
        },
        BlockShape::Overlay { target, child, .. } => {
            let ghost slot: Slot = (None, in_overlay, key_view(*target));
            let ghost index = flow_anchor_index@;
            proof {
                lemma_first_unknown_single(slot, index);
                lemma_first_unknown_concat(seq![slot], slots(**child, true), index);
            }
            if let Some(target) = target {
                if !flow_anchor_index.contains_key(target) {
                    return Err(DocumentError::UnknownOverlayTarget { key: target.as_str().to_owned() });
                }
            }
            validate_overlay_targets(child, flow_anchor_index, Ghost(true))
        },
        BlockShape::Paragraph { anchor_key, .. } => {
            proof {
                let slot: Slot = (key_view(*anchor_key), in_overlay, None);
                lemma_first_unknown_single(slot, flow_anchor_index@);
            }
            Ok(())
        },
        BlockShape::Embed { anchor_key, .. } => {
            proof {
                let slot: Slot = (key_view(*anchor_key), in_overlay, None);
                lemma_first_unknown_single(slot, flow_anchor_index@);
            }
            Ok(())
        },
    }
}

/// A validated semantic tree: node ids assigned in document order, and the index of the
/// anchor keys of blocks outside overlays.
#[derive(Debug)]
pub struct DocumentTree {
    root: BlockShape,
    anchor_index: AnchorIndex,
}

/// Whether a tree outline is accepted: its root is no overlay, no anchor key occurs
/// twice, and every block-relative overlay targets the key of a block outside overlays.
pub open spec fn tree_accepted(root: BlockShape) -> bool {
    let all = slots(root, false);
    &&& !(root is Overlay)
    &&& first_duplicate(all) is None
    &&& first_unknown_target(all, flow_index(all)) is None
}

impl DocumentTree {
    #[verifier::type_invariant]
    spec fn index_well_formed(&self) -> bool {
        self.anchor_index.wf()
    }

    pub closed spec fn root_shape(&self) -> BlockShape {
        self.root
    }

    pub closed spec fn anchors(&self) -> Map<Seq<char>, u64> {
        self.anchor_index@
    }

    /// Validates the outline, assigns node ids in document order starting at zero, and
    /// indexes the anchor keys of blocks outside overlays.
    pub fn new(root: BlockShape) -> (tree: Result<Self, DocumentError>)
        requires
            shape_size(root) <= u64::MAX,
        ensures
            tree is Ok <==> tree_accepted(root),
            tree matches Ok(t) ==> {
                &&& numbered(t.root_shape(), root, 0)
                &&& t.anchors() == flow_index(slots(root, false))
            },
            tree matches Err(e) ==> if root is Overlay {
                e == DocumentError::RootOverlay
            } else if first_duplicate(slots(root, false)) is Some {
                e matches DocumentError::DuplicateAnchorKey { key } && Some(key@) == first_duplicate(
                    slots(root, false),
                )
            } else {
                e matches DocumentError::UnknownOverlayTarget { key } && Some(key@)
                    == first_unknown_target(slots(root, false), flow_index(slots(root, false)))
            },
    {
        if let BlockShape::Overlay { .. } = root {
            return Err(DocumentError::RootOverlay);
        }
        let mut next_node_id: u64 = 0;
        let mut seen_anchors: Vec<AnchorKey> = Vec::new();
        let mut flow_anchor_index = AnchorIndex::new();
        proof {
            assert(key_views(seen_anchors@) =~= Seq::<Seq<char>>::empty());
            assert(Seq::<Slot>::empty() + slots(root, false) =~= slots(root, false));
        }
        let numbered_root = match assign_node_ids(
            &root,
            &mut next_node_id,
            &mut seen_anchors,
            &mut flow_anchor_index,
            false,
            Ghost(Seq::empty()),
        ) {
            Ok(numbered_root) => numbered_root,
            Err(e) => {
                return Err(e);
            },
        };
        proof {
            lemma_numbered_slots(numbered_root, root, 0, false);
        }
        match validate_overlay_targets(&numbered_root, &flow_anchor_index, Ghost(false)) {
            Ok(()) => {},
            Err(e) => {
                return Err(e);
            },
        }
        Ok(DocumentTree { root: numbered_root, anchor_index: flow_anchor_index })
    }

    /// The numbered outline.
    pub fn root(&self) -> (root: &BlockShape)
        ensures
            *root == self.root_shape(),
    {
        &self.root
    }

    /// The anchor keys of blocks outside overlays and the ids of the blocks carrying them.
    pub fn anchor_index(&self) -> (index: &AnchorIndex)
        ensures
            index@ == self.anchors(),
            index.wf(),
    {
        proof {
            use_type_invariant(self);
        }
        &self.anchor_index
    }
}

} // verus!
