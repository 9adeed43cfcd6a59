use std::collections::HashMap;

use stele::line_break::{breaks_from_opportunities, collect_breaks, BreakOpportunity};
use stele::line_breaker::LineItem;
use stele::staging::{
    caret_stop_byte_indices, into_prepared, len_utf8, stage_atom, stage_span_items, StagedItem,
    OBJECT_REPLACEMENT_CHAR,
};
use stele::text::{is_blank, is_insertable_text_input_char, is_white_space_char, single_line_text};

#[test]
fn single_line_text_drops_control_characters() {
    assert_eq!(single_line_text("a\nb\tc\r\u{7f}d\u{85}e"), "abcde");
    assert_eq!(single_line_text("héllo 中"), "héllo 中");
    assert_eq!(single_line_text(""), "");
}

#[test]
fn insertable_characters_exclude_controls() {
    assert!(is_insertable_text_input_char('a'));
    assert!(is_insertable_text_input_char(' '));
    assert!(is_insertable_text_input_char('\u{a0}'));
    assert!(!is_insertable_text_input_char('\n'));
    assert!(!is_insertable_text_input_char('\u{0}'));
    assert!(!is_insertable_text_input_char('\u{7f}'));
    assert!(!is_insertable_text_input_char('\u{9f}'));
    for ch in ['x', '\u{1f}', '\u{80}', '中', '\u{2028}'] {
        assert_eq!(is_insertable_text_input_char(ch), !ch.is_control());
    }
}

#[test]
fn white_space_matches_the_unicode_property() {
    for ch in [' ', '\t', '\n', '\u{85}', '\u{a0}', '\u{2009}', '\u{3000}', 'a', '\u{200b}', '中'] {
        assert_eq!(is_white_space_char(ch), ch.is_whitespace());
    }
    assert!(is_blank(" \t\u{3000}"));
    assert!(is_blank(""));
    assert!(!is_blank(" x "));
}

#[test]
fn len_utf8_counts_encoded_bytes() {
    assert_eq!(len_utf8('a'), 1);
    assert_eq!(len_utf8('é'), 2);
    assert_eq!(len_utf8('中'), 3);
    assert_eq!(len_utf8('😀'), 4);
    assert_eq!(len_utf8(OBJECT_REPLACEMENT_CHAR), 3);
}

#[test]
fn staging_records_byte_boundaries_and_hard_breaks() {
    let mut full_text = String::from("x");
    let mut items = Vec::new();
    stage_span_items("a中\nb", &mut full_text, &mut items);
    assert_eq!(full_text, "xa中\nb");
    assert_eq!(
        items,
        vec![
            StagedItem::Glyph { byte_end: 2, measured_index: 0 },
            StagedItem::Glyph { byte_end: 5, measured_index: 1 },
            StagedItem::Break,
            StagedItem::Glyph { byte_end: 7, measured_index: 2 },
        ]
    );
}

#[test]
fn prepares_paragraph_text_and_atoms_without_losing_order() {
    let mut full_text = String::new();
    let mut items = Vec::new();
    stage_span_items("a", &mut full_text, &mut items);
    stage_atom(0, &mut full_text, &mut items);
    stage_span_items("b", &mut full_text, &mut items);
    assert_eq!(full_text, "a\u{fffc}b");
    assert_eq!(
        items,
        vec![
            StagedItem::Glyph { byte_end: 1, measured_index: 0 },
            StagedItem::Atom { byte_end: 4, atom_index: 0 },
            StagedItem::Glyph { byte_end: 5, measured_index: 0 },
        ]
    );

    let breaks = collect_breaks(&full_text);
    let prepared: Vec<LineItem> = items.into_iter().map(|item| into_prepared(item, &breaks)).collect();
    assert_eq!(prepared.len(), 3);
    assert_eq!(prepared[2].break_after(), BreakOpportunity::Mandatory);
    assert!(matches!(prepared[1], LineItem::Atom { atom_index: 0, .. }));
}

#[test]
fn into_prepared_attaches_the_recorded_opportunity() {
    let mut breaks = HashMap::new();
    breaks.insert(3, BreakOpportunity::Allowed);
    breaks.insert(9, BreakOpportunity::Mandatory);
    assert_eq!(
        into_prepared(StagedItem::Glyph { byte_end: 3, measured_index: 7 }, &breaks),
        LineItem::Glyph { break_after: BreakOpportunity::Allowed }
    );
    assert_eq!(
        into_prepared(StagedItem::Glyph { byte_end: 4, measured_index: 0 }, &breaks),
        LineItem::Glyph { break_after: BreakOpportunity::Forbidden }
    );
    assert_eq!(
        into_prepared(StagedItem::Atom { byte_end: 9, atom_index: 2 }, &breaks),
        LineItem::Atom { atom_index: 2, break_after: BreakOpportunity::Mandatory }
    );
    assert_eq!(
        into_prepared(StagedItem::Break, &breaks),
        LineItem::Break(BreakOpportunity::Mandatory)
    );
}

#[test]
fn breaks_are_keyed_by_reported_byte_index() {
    let breaks = breaks_from_opportunities(&vec![(2, false), (5, true), (8, true)]);
    assert_eq!(breaks.len(), 3);
    assert_eq!(breaks.get(&2), Some(&BreakOpportunity::Allowed));
    assert_eq!(breaks.get(&5), Some(&BreakOpportunity::Mandatory));
    assert_eq!(breaks.get(&8), Some(&BreakOpportunity::Mandatory));
    assert!(breaks_from_opportunities(&Vec::new()).is_empty());
}

#[test]
fn caret_stops_sit_on_character_boundaries() {
    assert_eq!(caret_stop_byte_indices("a中b"), vec![0, 1, "a中".len(), "a中b".len()]);
    assert_eq!(caret_stop_byte_indices(""), vec![0]);
    assert_eq!(caret_stop_byte_indices("é"), vec![0, 2]);
}

#[test]
fn single_line_text_is_already_normal() {
    for text in ["a\u{1b}[0mb", "tab\there", "\u{85}\u{9f}", "plain"] {
        let once = single_line_text(text);
        assert_eq!(single_line_text(&once), once);
        assert!(once.chars().all(is_insertable_text_input_char));
    }
}

#[test]
fn caret_stops_strictly_increase() {
    let stops = caret_stop_byte_indices("x\u{1f600}é中");
    assert_eq!(stops, vec![0, 1, 5, 7, 10]);
    assert!(stops.windows(2).all(|pair| pair[0] < pair[1]));
    assert_eq!(caret_stop_byte_indices("a\nb"), vec![0, 1, 2]);
}
