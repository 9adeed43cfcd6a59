//! Character classes and single-line normalization for text inputs.
use vstd::prelude::*;

verus! {

/// Unicode general category Cc: the C0 controls, DEL and the C1 controls.
pub open spec fn is_control_char(ch: char) -> bool {
    (ch as u32) <= 0x1f || (0x7f <= (ch as u32) && (ch as u32) <= 0x9f)
}

/// Unicode White_Space property, as `char::is_whitespace` documents it.
pub open spec fn is_white_space(ch: char) -> bool {
    let c = ch as u32;
    (0x09 <= c && c <= 0x0d) || c == 0x20 || c == 0x85 || c == 0xa0 || c == 0x1680 || (0x2000 <= c
        && c <= 0x200a) || c == 0x2028 || c == 0x2029 || c == 0x202f || c == 0x205f || c == 0x3000
}

/// Returns whether a character can be inserted into single-line text inputs.
pub fn is_insertable_text_input_char(ch: char) -> (insertable: bool)
    ensures
        insertable == !is_control_char(ch),
{
    let c = ch as u32;
    !(c <= 0x1f || (0x7f <= c && c <= 0x9f))
}

/// Whether a character has the Unicode White_Space property.
pub fn is_white_space_char(ch: char) -> (white: bool)
    ensures
        white == is_white_space(ch),
{
    let c = ch as u32;
    (0x09 <= c && c <= 0x0d) || c == 0x20 || c == 0x85 || c == 0xa0 || c == 0x1680 || (0x2000 <= c
        && c <= 0x200a) || c == 0x2028 || c == 0x2029 || c == 0x202f || c == 0x205f || c == 0x3000
}

/// Whether every character of `text` is white space, that is whether trimming leaves it empty.
pub fn is_blank(text: &str) -> (blank: bool)
    ensures
        blank == (forall|i: int| 0 <= i < text@.len() ==> is_white_space(#[trigger] text@[i])),
{
    for ch in it: text.chars()
        invariant
            it.seq() == text@,
            forall|i: int| 0 <= i < it.index() ==> is_white_space(#[trigger] text@[i]),
    {
        if !is_white_space_char(ch) {
            return false;
        }
    }
    true
}

/// Calls `String::push`. The contract claims what its documentation states: the string's
/// characters afterwards are the previous ones followed by `ch`.
#[verifier::external_body]
pub(crate) fn push_char(text: &mut String, ch: char)
    ensures
        final(text)@ == old(text)@.push(ch),
{
    text.push(ch);
}

/// The characters that single-line text inputs keep: everything but control characters.
pub open spec fn keeps_in_single_line(ch: char) -> bool {
    !is_control_char(ch)
}

/// The filter that single-line text inputs apply.
pub open spec fn single_line_filter() -> spec_fn(char) -> bool {
    |ch: char| keeps_in_single_line(ch)
}

/// Returns a single-line text input string by dropping control characters.
pub fn single_line_text(text: &str) -> (line: String)
    ensures
        line@ == text@.filter(single_line_filter()),
{
    let mut line = String::new();
    proof {
        reveal(Seq::filter);
    }
    for ch in it: text.chars()
        invariant
            it.seq() == text@,
            line@ == text@.take(it.index()).filter(single_line_filter()),
    {
        let ghost i = it.index();
        assert(text@.take(i + 1) =~= text@.take(i).push(ch));
        proof {
            text@.take(i).lemma_filter_push(ch, single_line_filter());
        }
        if is_insertable_text_input_char(ch) {
            push_char(&mut line, ch);
        }
        assert(line@ == text@.take(i + 1).filter(single_line_filter()));
    }
    assert(text@.take(text@.len() as int) =~= text@);
    line
}

/// Normalizing text to a single line leaves no control character, and normalizing the
/// result again changes nothing.
pub proof fn lemma_single_line_normal_form(text: Seq<char>)
    ensures
        forall|i: int|
            0 <= i < text.filter(single_line_filter()).len() ==> !is_control_char(
                #[trigger] text.filter(single_line_filter())[i],
            ),
        text.filter(single_line_filter()).filter(single_line_filter()) == text.filter(
            single_line_filter(),
        ),
    decreases text.len(),
{
    let f = single_line_filter();
    assert forall|i: int| 0 <= i < text.filter(f).len() implies !is_control_char(
        #[trigger] text.filter(f)[i],
    ) by {
        text.lemma_filter_pred(f, i);
    }
    if text.len() == 0 {
        reveal(Seq::filter);
    } else {
        let rest = text.drop_last();
        let ch = text.last();
        lemma_single_line_normal_form(rest);
        assert(text =~= rest.push(ch));
        rest.lemma_filter_push(ch, f);
        if keeps_in_single_line(ch) {
            rest.filter(f).lemma_filter_push(ch, f);
        }
    }
}

} // verus!
