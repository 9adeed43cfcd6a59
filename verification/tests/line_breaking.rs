use stele::line_break::{collect_breaks, BreakOpportunity};
use stele::runs::{build_run_segments, RunKey};
use stele::line_breaker::{break_paragraph_lines, greedy_line_break, LineItem, PendingLine};

fn glyph(break_after: BreakOpportunity) -> LineItem {
    LineItem::Glyph { break_after }
}

fn fits_within(advances: Vec<f32>, max_width: f32) -> impl Fn(&Vec<usize>) -> bool {
    move |line: &Vec<usize>| line.iter().map(|&pos| advances[pos].max(0.0)).sum::<f32>() <= max_width
}

#[test]
fn collect_breaks_reports_unicode_opportunities() {
    let breaks = collect_breaks("a b \nc");
    assert_eq!(breaks.len(), 3);
    assert_eq!(breaks.get(&2), Some(&BreakOpportunity::Allowed));
    assert_eq!(breaks.get(&5), Some(&BreakOpportunity::Mandatory));
    assert_eq!(breaks.get(&6), Some(&BreakOpportunity::Mandatory));

    let breaks = collect_breaks("Hello world!");
    assert_eq!(breaks.len(), 2);
    assert_eq!(breaks.get(&6), Some(&BreakOpportunity::Allowed));
    assert_eq!(breaks.get(&12), Some(&BreakOpportunity::Mandatory));
}

#[test]
fn collect_breaks_uses_byte_indices() {
    let breaks = collect_breaks("中 b");
    assert_eq!(breaks.get(&4), Some(&BreakOpportunity::Allowed));
    assert_eq!(breaks.get(&5), Some(&BreakOpportunity::Mandatory));
}

#[test]
fn greedy_break_wraps_at_allowed_boundaries() {
    let items = vec![
        glyph(BreakOpportunity::Forbidden),
        glyph(BreakOpportunity::Forbidden),
        glyph(BreakOpportunity::Allowed),
        glyph(BreakOpportunity::Forbidden),
        glyph(BreakOpportunity::Forbidden),
    ];
    let lines = greedy_line_break(&items, fits_within(vec![10.0, 10.0, 5.0, 12.0, 12.0], 30.0));
    assert_eq!(lines.len(), 2);
    assert_eq!(lines[0].len(), 3);
    assert_eq!(lines[1].len(), 2);
    assert_eq!(lines, vec![vec![0, 1, 2], vec![3, 4]]);
}

#[test]
fn paragraph_layout_keeps_atom_and_text_on_shared_line() {
    let items = vec![
        glyph(BreakOpportunity::Forbidden),
        LineItem::Atom { atom_index: 0, break_after: BreakOpportunity::Forbidden },
    ];
    let lines = break_paragraph_lines(&items, fits_within(vec![10.0, 12.0], 100.0));
    assert_eq!(lines.len(), 1);
    let keys: Vec<RunKey> = lines[0]
        .iter()
        .map(|&position| match items[position] {
            LineItem::Atom { atom_index, .. } => RunKey::Atom { atom_index },
            _ => RunKey::Glyph { span_index: 0 },
        })
        .collect();
    assert_eq!(build_run_segments(&keys).len(), 2);
}

#[test]
fn block_break_emits_single_overflowing_glyph_at_once() {
    let items = vec![
        glyph(BreakOpportunity::Forbidden),
        LineItem::Break(BreakOpportunity::Mandatory),
    ];
    let lines = greedy_line_break(&items, fits_within(vec![50.0, 0.0], 30.0));
    assert_eq!(lines, vec![vec![0], vec![]]);
}

#[test]
fn paragraph_break_keeps_single_overflowing_item_pending() {
    let items = vec![
        glyph(BreakOpportunity::Forbidden),
        LineItem::Break(BreakOpportunity::Mandatory),
    ];
    let lines = break_paragraph_lines(&items, fits_within(vec![50.0, 0.0], 30.0));
    assert_eq!(lines, vec![vec![0]]);
}

#[test]
fn mandatory_breaks_end_lines_even_when_empty() {
    let items = vec![
        glyph(BreakOpportunity::Forbidden),
        LineItem::Break(BreakOpportunity::Mandatory),
        LineItem::Break(BreakOpportunity::Mandatory),
        glyph(BreakOpportunity::Forbidden),
    ];
    let lines = greedy_line_break(&items, fits_within(vec![10.0, 0.0, 0.0, 10.0], 100.0));
    assert_eq!(lines, vec![vec![0], vec![], vec![3]]);
    let lines = break_paragraph_lines(&items, fits_within(vec![10.0, 0.0, 0.0, 10.0], 100.0));
    assert_eq!(lines, vec![vec![0], vec![], vec![3]]);
}

#[test]
fn non_mandatory_break_items_are_skipped() {
    let items = vec![
        glyph(BreakOpportunity::Forbidden),
        LineItem::Break(BreakOpportunity::Allowed),
        glyph(BreakOpportunity::Forbidden),
    ];
    let lines = greedy_line_break(&items, fits_within(vec![10.0, 0.0, 10.0], 100.0));
    assert_eq!(lines, vec![vec![0, 2]]);
}

#[test]
fn overflowing_item_with_break_after_moves_to_next_line() {
    let items = vec![
        glyph(BreakOpportunity::Forbidden),
        glyph(BreakOpportunity::Forbidden),
        glyph(BreakOpportunity::Allowed),
    ];
    let lines = greedy_line_break(&items, fits_within(vec![10.0, 10.0, 15.0], 30.0));
    assert_eq!(lines, vec![vec![0, 1], vec![2]]);
}

#[test]
fn wrap_without_allowed_break_moves_last_item() {
    let items = vec![
        glyph(BreakOpportunity::Forbidden),
        glyph(BreakOpportunity::Forbidden),
        glyph(BreakOpportunity::Forbidden),
        glyph(BreakOpportunity::Forbidden),
    ];
    let lines = break_paragraph_lines(&items, fits_within(vec![10.0, 10.0, 10.0, 10.0], 25.0));
    assert_eq!(lines, vec![vec![0, 1], vec![2, 3]]);
}

#[test]
fn wrapped_remainder_is_not_wrapped_again_until_the_next_push() {
    let items = vec![
        glyph(BreakOpportunity::Allowed),
        glyph(BreakOpportunity::Forbidden),
        glyph(BreakOpportunity::Allowed),
        glyph(BreakOpportunity::Forbidden),
        glyph(BreakOpportunity::Forbidden),
    ];
    let lines = greedy_line_break(&items, fits_within(vec![5.0, 5.0, 5.0, 5.0, 20.0], 20.0));
    assert_eq!(lines, vec![vec![0, 1, 2], vec![3, 4]]);
}

#[test]
fn atom_break_after_comes_from_first_item_with_its_index() {
    let items = vec![
        LineItem::Atom { atom_index: 7, break_after: BreakOpportunity::Allowed },
        glyph(BreakOpportunity::Forbidden),
        LineItem::Atom { atom_index: 7, break_after: BreakOpportunity::Forbidden },
    ];
    let mut pending = PendingLine::new();
    pending.push(&items, 2);
    assert_eq!(pending.last_allowed_break(), Some(1));
    pending.push(&items, 1);
    assert_eq!(pending.last_allowed_break(), Some(1));
    assert_eq!(items[2].break_after(), BreakOpportunity::Forbidden);
}

#[test]
fn pending_line_split_and_pop_recompute_breaks() {
    let items = vec![
        glyph(BreakOpportunity::Allowed),
        glyph(BreakOpportunity::Forbidden),
        glyph(BreakOpportunity::Allowed),
        glyph(BreakOpportunity::Forbidden),
    ];
    let mut pending = PendingLine::from_items(vec![0, 1, 2, 3], &items);
    assert_eq!(pending.last_allowed_break(), Some(3));
    let rest = pending.split_off(2, &items);
    assert_eq!(rest, vec![2, 3]);
    assert_eq!(pending.last_allowed_break(), Some(1));
    assert_eq!(pending.pop_last(&items), Some(1));
    assert_eq!(pending.last_allowed_break(), Some(1));
    assert_eq!(pending.take(), vec![0]);
    assert!(pending.is_empty());
    assert_eq!(pending.last_allowed_break(), None);
}

#[test]
fn block_and_paragraph_breaking_agree_without_lone_overflow() {
    let items = vec![
        glyph(BreakOpportunity::Forbidden),
        glyph(BreakOpportunity::Allowed),
        glyph(BreakOpportunity::Forbidden),
        LineItem::Break(BreakOpportunity::Mandatory),
        glyph(BreakOpportunity::Allowed),
        glyph(BreakOpportunity::Forbidden),
        glyph(BreakOpportunity::Forbidden),
    ];
    let advances = vec![4.0, 4.0, 4.0, 0.0, 4.0, 4.0, 4.0];
    let block = greedy_line_break(&items, fits_within(advances.clone(), 9.0));
    let paragraph = break_paragraph_lines(&items, fits_within(advances, 9.0));
    assert_eq!(block, paragraph);
    assert_eq!(block, vec![vec![0, 1], vec![2], vec![4], vec![5, 6]]);
}

#[test]
fn no_line_spans_a_mandatory_break() {
    let items = vec![
        glyph(BreakOpportunity::Allowed),
        glyph(BreakOpportunity::Forbidden),
        LineItem::Break(BreakOpportunity::Mandatory),
        glyph(BreakOpportunity::Forbidden),
        glyph(BreakOpportunity::Forbidden),
    ];
    for width in [1.0, 5.0, 100.0] {
        for lines in [
            greedy_line_break(&items, fits_within(vec![3.0, 3.0, 0.0, 3.0, 3.0], width)),
            break_paragraph_lines(&items, fits_within(vec![3.0, 3.0, 0.0, 3.0, 3.0], width)),
        ] {
            for line in &lines {
                assert!(line.iter().all(|&p| p < 2) || line.iter().all(|&p| p > 2));
            }
            assert_eq!(lines.concat(), vec![0, 1, 3, 4]);
        }
    }
}
