//! Staging of inline content before break opportunities are attached: every character is
//! appended to the paragraph text, and every item remembers the byte boundary after it.
use std::collections::HashMap;

use crate::line_break::BreakOpportunity;
use crate::line_breaker::LineItem;
use crate::text::push_char;
use vstd::prelude::*;
use vstd::utf8::*;

verus! {

/// Number of bytes in the UTF-8 encoding of `s`.
pub open spec fn utf8_len(s: Seq<char>) -> nat {
    encode_utf8(s).len()
}

/// Number of bytes in the UTF-8 encoding of one character.
pub open spec fn char_utf8_len(ch: char) -> nat {
    encode_scalar(ch as u32).len()
}

/// Appending a character adds its encoded length.
pub proof fn lemma_utf8_len_push(s: Seq<char>, ch: char)
    ensures
        utf8_len(s.push(ch)) == utf8_len(s) + char_utf8_len(ch),
    decreases s.len(),
{
    if s.len() == 0 {
        assert(s.push(ch).drop_first() =~= Seq::<char>::empty());
        assert(encode_utf8(Seq::<char>::empty()) =~= Seq::<u8>::empty());
    } else {
        assert(s.push(ch).drop_first() =~= s.drop_first().push(ch));
        lemma_utf8_len_push(s.drop_first(), ch);
    }
}

/// A prefix never encodes to more bytes than the whole.
pub proof fn lemma_utf8_len_prefix(s: Seq<char>, k: int)
    requires
        0 <= k <= s.len(),
    ensures
        utf8_len(s.take(k)) <= utf8_len(s),
    decreases s.len() - k,
{
    if k < s.len() {
        lemma_utf8_len_prefix(s, k + 1);
        assert(s.take(k + 1) =~= s.take(k).push(s[k]));
        lemma_utf8_len_push(s.take(k), s[k]);
    } else {
        assert(s.take(k) =~= s);
    }
}

/// The number of bytes `ch` takes in UTF-8, as `char::len_utf8` reports it.
pub fn len_utf8(ch: char) -> (n: usize)
    ensures
        n == char_utf8_len(ch),
        1 <= n <= 4,
{
    proof {
        char_is_scalar(ch);
    }
    let c = ch as u32;
    if c <= 0x7f {
        1
    } else if c <= 0x7ff {
        2
    } else if c <= 0xffff {
        3
    } else {
        4
    }
}

/// The character that stands for an inline atom in the paragraph text.
pub const OBJECT_REPLACEMENT_CHAR: char = '\u{FFFC}';

/// One inline item before its break opportunity is attached.
#[derive(Clone, Copy, Debug, PartialEq, Eq, Structural)]
pub enum StagedItem {
    /// A glyph for a non-newline character: the byte boundary after it in the paragraph
    /// text, and its index among the span's measured glyphs.
    Glyph { byte_end: usize, measured_index: usize },
    /// An inline atom: the byte boundary after its replacement character, and its index.
    Atom { byte_end: usize, atom_index: usize },
    /// A hard break for a newline character.
    Break,
}

/// Number of characters other than `'\n'`.
pub open spec fn newline_free_len(s: Seq<char>) -> nat
    decreases s.len(),
{
    if s.len() == 0 {
        0
    } else if s.last() == '\n' {
        newline_free_len(s.drop_last())
    } else {
        newline_free_len(s.drop_last()) + 1
    }
}

/// The items that staging `text` after the paragraph text `prefix` appends.
pub open spec fn staged_text(prefix: Seq<char>, text: Seq<char>) -> Seq<StagedItem> {
    Seq::new(
        text.len(),
        |k: int|
            if text[k] == '\n' {
                StagedItem::Break
            } else {
                StagedItem::Glyph {
                    byte_end: utf8_len(prefix + text.take(k + 1)) as usize,
                    measured_index: newline_free_len(text.take(k)) as usize,
                }
            },
    )
}

proof fn lemma_newline_free_len_bound(s: Seq<char>)
    ensures
        newline_free_len(s) <= s.len(),
    decreases s.len(),
{
    if s.len() > 0 {
        lemma_newline_free_len_bound(s.drop_last());
    }
}

/// Stages one span: appends its characters to the paragraph text, and for each character a
/// hard break (for a newline) or a glyph item with the byte boundary after it.
pub fn stage_span_items(text: &str, full_text: &mut String, staged_items: &mut Vec<StagedItem>)
    requires
        text@.len() <= usize::MAX,
    ensures
        final(full_text)@ == old(full_text)@ + text@,
        final(staged_items)@ == old(staged_items)@ + staged_text(old(full_text)@, text@),
{
    let ghost prefix = full_text@;
    let ghost old_items = staged_items@;
    let mut measured_index: usize = 0;
    for ch in it: text.chars()
        invariant
            it.seq() == text@,
            full_text@ == prefix + text@.take(it.index()),
            staged_items@ == old_items + staged_text(prefix, text@).take(it.index()),
            measured_index == newline_free_len(text@.take(it.index())),
            text@.len() <= usize::MAX,
    {
        let ghost i = it.index();
        assert(text@.take(i + 1) =~= text@.take(i).push(ch));
        assert(text@.take(i + 1).drop_last() =~= text@.take(i));
        proof {
            lemma_newline_free_len_bound(text@.take(i));
        }
        push_char(full_text, ch);
        assert(full_text@ =~= prefix + text@.take(i + 1));
        if ch == '\n' {
            staged_items.push(StagedItem::Break);
        } else {
            let byte_end = full_text.as_str().len();
            staged_items.push(StagedItem::Glyph { byte_end, measured_index });
            measured_index += 1;
        }
        assert(staged_text(prefix, text@).take(i + 1) =~= staged_text(prefix, text@).take(i).push(
            staged_text(prefix, text@)[i],
        ));
        assert(staged_items@ =~= old_items + staged_text(prefix, text@).take(i + 1));
    }
    assert(text@.take(text@.len() as int) =~= text@);
    assert(staged_text(prefix, text@).take(text@.len() as int) =~= staged_text(prefix, text@));
}

/// Stages an inline atom: appends the object replacement character and an atom item with
/// the byte boundary after it.
pub fn stage_atom(atom_index: usize, full_text: &mut String, staged_items: &mut Vec<StagedItem>)
    ensures
        final(full_text)@ == old(full_text)@.push(OBJECT_REPLACEMENT_CHAR),
        final(staged_items)@ == old(staged_items)@.push(
            StagedItem::Atom {
                byte_end: utf8_len(old(full_text)@.push(OBJECT_REPLACEMENT_CHAR)) as usize,
                atom_index,
            },
        ),
{
    push_char(full_text, OBJECT_REPLACEMENT_CHAR);
    let byte_end = full_text.as_str().len();
    staged_items.push(StagedItem::Atom { byte_end, atom_index });
}

/// The opportunity recorded at a byte boundary, `Forbidden` where none is recorded.
pub open spec fn break_at(breaks: Map<usize, BreakOpportunity>, byte_end: usize) -> BreakOpportunity {
    if breaks.contains_key(byte_end) {
        breaks[byte_end]
    } else {
        BreakOpportunity::Forbidden
    }
}

/// The line item that a staged item becomes once break opportunities are known.
pub open spec fn prepared_item(item: StagedItem, breaks: Map<usize, BreakOpportunity>) -> LineItem {
    match item {
        StagedItem::Glyph { byte_end, .. } => LineItem::Glyph { break_after: break_at(breaks, byte_end) },
        StagedItem::Atom { byte_end, atom_index } => LineItem::Atom {
            atom_index,
            break_after: break_at(breaks, byte_end),
        },
        StagedItem::Break => LineItem::Break(BreakOpportunity::Mandatory),
    }
}

/// The prepared item keeps the staged item's kind and atom index; a glyph or atom carries
/// the opportunity the map records at its byte boundary, and `Forbidden` only when none is
/// recorded there; a hard break is mandatory.
pub open spec fn carries_recorded_break(
    item: StagedItem,
    breaks: Map<usize, BreakOpportunity>,
    prepared: LineItem,
) -> bool {
    match item {
        StagedItem::Glyph { byte_end, .. } => match prepared {
            LineItem::Glyph { break_after } => {
                &&& breaks.contains_key(byte_end) ==> break_after == breaks[byte_end]
                &&& !breaks.contains_key(byte_end) ==> break_after == BreakOpportunity::Forbidden
            },
            _ => false,
        },
        StagedItem::Atom { byte_end, atom_index } => match prepared {
            LineItem::Atom { atom_index: a, break_after } => {
                &&& a == atom_index
                &&& breaks.contains_key(byte_end) ==> break_after == breaks[byte_end]
                &&& !breaks.contains_key(byte_end) ==> break_after == BreakOpportunity::Forbidden
            },
            _ => false,
        },
        StagedItem::Break => prepared == LineItem::Break(BreakOpportunity::Mandatory),
    }
}

/// Attaching opportunities loses none: every staged glyph or atom carries exactly the
/// opportunity recorded at its byte boundary (whatever it is), and `Forbidden` only where
/// nothing is recorded.
pub proof fn lemma_prepared_carries_recorded_break(item: StagedItem, breaks: Map<usize, BreakOpportunity>)
    ensures
        carries_recorded_break(item, breaks, prepared_item(item, breaks)),
{
}

/// Looks up the opportunity at a byte boundary.
fn break_after_boundary(break_map: &HashMap<usize, BreakOpportunity>, byte_end: usize) -> (b: BreakOpportunity)
    ensures
        b == break_at(break_map@, byte_end),
{
    broadcast use vstd::std_specs::hash::group_hash_axioms;

    match break_map.get(&byte_end) {
        Some(opportunity) => *opportunity,
        None => BreakOpportunity::Forbidden,
    }
}

/// Attaches a Unicode break opportunity to a staged item; a hard break is mandatory.
pub fn into_prepared(item: StagedItem, break_map: &HashMap<usize, BreakOpportunity>) -> (prepared: LineItem)
    ensures
        prepared == prepared_item(item, break_map@),
        carries_recorded_break(item, break_map@, prepared),
{
    proof {
        lemma_prepared_carries_recorded_break(item, break_map@);
    }
    match item {
        StagedItem::Glyph { byte_end, .. } => LineItem::Glyph {
            break_after: break_after_boundary(break_map, byte_end),
        },
        StagedItem::Atom { byte_end, atom_index } => LineItem::Atom {
            atom_index,
            break_after: break_after_boundary(break_map, byte_end),
        },
        StagedItem::Break => LineItem::Break(BreakOpportunity::Mandatory),
    }
}

/// The byte index of each caret stop of a text input: the start, then the boundary after
/// each character, for as many characters as the input lays out glyphs (its characters
/// other than newlines).
pub open spec fn caret_stop_bytes(text: Seq<char>) -> Seq<usize> {
    Seq::new(newline_free_len(text) + 1, |k: int| utf8_len(text.take(k)) as usize)
}

/// Byte indices of a text input's caret stops, in order.
pub fn caret_stop_byte_indices(text: &str) -> (stops: Vec<usize>)
    requires
        text@.len() <= usize::MAX,
        utf8_len(text@) <= usize::MAX,
    ensures
        stops@ == caret_stop_bytes(text@),
{
    let mut glyph_count: usize = 0;
    for ch in it: text.chars()
        invariant
            it.seq() == text@,
            glyph_count == newline_free_len(text@.take(it.index())),
            text@.len() <= usize::MAX,
    {
        let ghost i = it.index();
        assert(text@.take(i + 1).drop_last() =~= text@.take(i));
        proof {
            lemma_newline_free_len_bound(text@.take(i));
        }
        if ch != '\n' {
            glyph_count += 1;
        }
    }
    assert(text@.take(text@.len() as int) =~= text@);
    let mut stops: Vec<usize> = Vec::new();
    stops.push(0);
    assert(encode_utf8(text@.take(0)) =~= Seq::<u8>::empty());
    let mut byte_index: usize = 0;
    let ghost stops_spec = caret_stop_bytes(text@);
    for ch in it: text.chars()
        invariant
            it.seq() == text@,
            glyph_count == newline_free_len(text@),
            utf8_len(text@) <= usize::MAX,
            byte_index == utf8_len(text@.take(it.index())),
            stops_spec == caret_stop_bytes(text@),
            stops@ == stops_spec.take(
                if it.index() + 1 <= glyph_count + 1 {
                    it.index() + 1
                } else {
                    glyph_count + 1
                },
            ),
    {
        let ghost i = it.index();
        assert(text@.take(i + 1) =~= text@.take(i).push(ch));
        proof {
            lemma_utf8_len_push(text@.take(i), ch);
            lemma_utf8_len_prefix(text@, i + 1);
        }
        byte_index = byte_index + len_utf8(ch);
        if stops.len() <= glyph_count {
            stops.push(byte_index);
        }
        assert(stops@ =~= stops_spec.take(
            if i + 2 <= glyph_count + 1 {
                i + 2
            } else {
                glyph_count + 1
            },
        ));
    }
    proof {
        lemma_newline_free_len_bound(text@);
    }
    assert(stops@ =~= stops_spec);
    stops
}

proof fn lemma_utf8_len_take_increases(text: Seq<char>, i: int, j: int)
    requires
        0 <= i < j <= text.len(),
    ensures
        utf8_len(text.take(i)) < utf8_len(text.take(j)),
    decreases j - i,
{
    assert(text.take(j) =~= text.take(j - 1).push(text[j - 1]));
    lemma_utf8_len_push(text.take(j - 1), text[j - 1]);
    assert(char_utf8_len(text[j - 1]) >= 1);
    if i < j - 1 {
        lemma_utf8_len_take_increases(text, i, j - 1);
    }
}

/// Caret stops move strictly forward through the text: each stop's byte index is larger
/// than the one before it, the first is zero, and none lies past the end of the text.
pub proof fn lemma_caret_stops_increase(text: Seq<char>)
    requires
        utf8_len(text) <= usize::MAX,
    ensures
        caret_stop_bytes(text)[0] == 0,
        forall|i: int, j: int|
            0 <= i < j < caret_stop_bytes(text).len() ==> #[trigger] caret_stop_bytes(text)[i]
                < #[trigger] caret_stop_bytes(text)[j],
        forall|i: int|
            0 <= i < caret_stop_bytes(text).len() ==> #[trigger] caret_stop_bytes(text)[i] <= utf8_len(
                text,
            ),
{
    let stops = caret_stop_bytes(text);
    lemma_newline_free_len_bound(text);
    assert(encode_utf8(text.take(0)) =~= Seq::<u8>::empty());
    assert forall|i: int| 0 <= i < stops.len() implies #[trigger] stops[i] <= utf8_len(text) by {
        lemma_utf8_len_prefix(text, i);
    }
    assert forall|i: int, j: int| 0 <= i < j < stops.len() implies #[trigger] stops[i]
        < #[trigger] stops[j] by {
        lemma_utf8_len_prefix(text, j);
        lemma_utf8_len_take_increases(text, i, j);
    }
}

} // verus!
