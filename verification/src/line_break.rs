//! Unicode line-break opportunities keyed by byte boundary.
use std::collections::HashMap;
use vstd::prelude::*;

verus! {

/// Break opportunity attached to an inline boundary.
#[derive(Clone, Copy, Debug, PartialEq, Eq, Structural)]
pub enum BreakOpportunity {
    Mandatory,
    Allowed,
    Forbidden,
}

/// The break opportunities that the Unicode line-breaking algorithm reports for `text`:
/// each entry is the byte index of the character after the break and whether the break
/// is mandatory (`true`) or merely allowed (`false`).
pub uninterp spec fn unicode_break_opportunities(text: Seq<char>) -> Seq<(usize, bool)>;

/// Maps the mandatory flag reported by the Unicode algorithm to a break opportunity.
pub open spec fn opportunity_of(mandatory: bool) -> BreakOpportunity {
    if mandatory {
        BreakOpportunity::Mandatory
    } else {
        BreakOpportunity::Allowed
    }
}

/// The map that results from inserting each reported opportunity in order.
pub open spec fn break_map(breaks: Seq<(usize, bool)>) -> Map<usize, BreakOpportunity>
    decreases breaks.len(),
{
    if breaks.len() == 0 {
        Map::empty()
    } else {
        break_map(breaks.drop_last()).insert(breaks.last().0, opportunity_of(breaks.last().1))
    }
}

/// Strictly increasing byte indices, as the Unicode iterator yields them.
pub open spec fn strictly_increasing(breaks: Seq<(usize, bool)>) -> bool {
    forall|i: int, j: int| 0 <= i < j < breaks.len() ==> breaks[i].0 < breaks[j].0
}

/// Calls `unicode_linebreak::linebreaks` and records each opportunity as a byte index and
/// a mandatory flag. The contract claims that the result is a function of the text alone
/// (the crate walks `char_indices` and a fixed pair table) and that the byte indices come
/// out strictly increasing, since they follow `char_indices` and end with the text length.
#[verifier::external_body]
fn unicode_linebreaks(text: &str) -> (breaks: Vec<(usize, bool)>)
    ensures
        breaks@ == unicode_break_opportunities(text@),
        strictly_increasing(breaks@),
{
    let mut breaks = Vec::new();
    for (byte_index, opportunity) in unicode_linebreak::linebreaks(text) {
        let mandatory = match opportunity {
            unicode_linebreak::BreakOpportunity::Mandatory => true,
            unicode_linebreak::BreakOpportunity::Allowed => false,
        };
        breaks.push((byte_index, mandatory));
    }
    breaks
}

proof fn lemma_break_map_lookup(breaks: Seq<(usize, bool)>)
    requires
        strictly_increasing(breaks),
    ensures
        forall|k: usize|
            #![trigger break_map(breaks).contains_key(k)]
            break_map(breaks).contains_key(k) <==> exists|i: int|
                0 <= i < breaks.len() && breaks[i].0 == k,
        forall|i: int|
            0 <= i < breaks.len() ==> #[trigger] break_map(breaks)[breaks[i].0] == opportunity_of(
                breaks[i].1,
            ),
    decreases breaks.len(),
{
    if breaks.len() > 0 {
        let rest = breaks.drop_last();
        lemma_break_map_lookup(rest);
        assert forall|k: usize| break_map(breaks).contains_key(k) implies exists|i: int|
            0 <= i < breaks.len() && breaks[i].0 == k by {
            if k != breaks.last().0 {
                assert(break_map(rest).contains_key(k));
                let i = choose|i: int| 0 <= i < rest.len() && rest[i].0 == k;
                assert(breaks[i].0 == k);
            } else {
                assert(breaks[breaks.len() - 1].0 == k);
            }
        }
        assert forall|k: usize| (exists|i: int| 0 <= i < breaks.len() && breaks[i].0 == k) implies
            break_map(breaks).contains_key(k) by {
            let i = choose|i: int| 0 <= i < breaks.len() && breaks[i].0 == k;
            if i < breaks.len() - 1 {
                assert(rest[i].0 == k);
            }
        }
        assert forall|i: int| 0 <= i < breaks.len() implies #[trigger] break_map(breaks)[breaks[i].0]
            == opportunity_of(breaks[i].1) by {
            if i < breaks.len() - 1 {
                assert(rest[i] == breaks[i]);
                assert(breaks[i].0 != breaks.last().0);
            }
        }
    }
}

/// Keys reported break opportunities by byte boundary: each byte index maps to
/// `Mandatory` or `Allowed` according to its flag.
pub fn breaks_from_opportunities(reported: &Vec<(usize, bool)>) -> (breaks: HashMap<usize, BreakOpportunity>)
    requires
        strictly_increasing(reported@),
    ensures
        breaks@ == break_map(reported@),
        forall|k: usize|
            #![trigger breaks@.contains_key(k)]
            breaks@.contains_key(k) <==> exists|i: int| 0 <= i < reported@.len() && reported@[i].0 == k,
        forall|i: int|
            0 <= i < reported@.len() ==> #[trigger] breaks@[reported@[i].0] == opportunity_of(
                reported@[i].1,
            ),
{
    broadcast use vstd::std_specs::hash::group_hash_axioms;

    let mut breaks: HashMap<usize, BreakOpportunity> = HashMap::new();
    let mut i: usize = 0;
    while i < reported.len()
        invariant
            i <= reported.len(),
            breaks@ == break_map(reported@.take(i as int)),
        decreases reported.len() - i,
    {
        let (byte_index, mandatory) = reported[i];
        let mapped = if mandatory {
            BreakOpportunity::Mandatory
        } else {
            BreakOpportunity::Allowed
        };
        breaks.insert(byte_index, mapped);
        assert(reported@.take(i + 1).drop_last() =~= reported@.take(i as int));
        i += 1;
    }
    assert(reported@.take(reported.len() as int) =~= reported@);
    proof {
        lemma_break_map_lookup(reported@);
    }
    breaks
}

/// Collects Unicode line-break opportunities keyed by byte boundary.
pub fn collect_breaks(text: &str) -> (breaks: HashMap<usize, BreakOpportunity>)
    ensures
        breaks@ == break_map(unicode_break_opportunities(text@)),
        forall|k: usize|
            #![trigger breaks@.contains_key(k)]
            breaks@.contains_key(k) <==> exists|i: int|
                0 <= i < unicode_break_opportunities(text@).len()
                    && unicode_break_opportunities(text@)[i].0 == k,
        forall|i: int|
            0 <= i < unicode_break_opportunities(text@).len() ==> #[trigger] breaks@[unicode_break_opportunities(text@)[i].0]
                == opportunity_of(unicode_break_opportunities(text@)[i].1),
{
    let reported = unicode_linebreaks(text);
    breaks_from_opportunities(&reported)
}

} // verus!
