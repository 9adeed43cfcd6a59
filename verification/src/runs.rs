//! Grouping of a laid-out line's items into runs: consecutive glyphs of one span form a
//! text run, and every inline atom is a run of its own.
use vstd::prelude::*;

verus! {

broadcast use vstd::seq_lib::group_seq_properties;

/// What run building reads of one item of a line.
#[derive(Clone, Copy, Debug, PartialEq, Eq, Structural)]
pub enum RunKey {
    /// A glyph and the index of the span it came from.
    Glyph { span_index: usize },
    /// An inline atom, by index.
    Atom { atom_index: usize },
}

/// One run of a line: a text run covers the item positions `start..end`, an atom run the
/// single position `position`.
#[derive(Clone, Copy, Debug, PartialEq, Eq, Structural)]
pub enum RunSegment {
    Text { span_index: usize, start: usize, end: usize },
    Atom { atom_index: usize, position: usize },
}

/// Whether a segment is a text run of span `span_index`.
pub open spec fn is_text_of(segment: RunSegment, span_index: usize) -> bool {
    match segment {
        RunSegment::Text { span_index: s, .. } => s == span_index,
        RunSegment::Atom { .. } => false,
    }
}

/// Whether two segments are text runs of the same span.
pub open spec fn same_text_span(a: RunSegment, b: RunSegment) -> bool {
    match a {
        RunSegment::Text { span_index, .. } => is_text_of(b, span_index),
        RunSegment::Atom { .. } => false,
    }
}

/// The runs of a line, built item by item: a glyph joins the text run before it when that
/// run has the same span, and starts a new text run otherwise; an atom closes any open
/// text run and forms its own run.
pub open spec fn run_segments(keys: Seq<RunKey>) -> Seq<RunSegment>
    decreases keys.len(),
{
    if keys.len() == 0 {
        Seq::empty()
    } else {
        let prev = run_segments(keys.drop_last());
        let n = (keys.len() - 1) as usize;
        match keys.last() {
            RunKey::Atom { atom_index } => prev.push(RunSegment::Atom { atom_index, position: n }),
            RunKey::Glyph { span_index } => if prev.len() > 0 && is_text_of(prev.last(), span_index) {
                prev.drop_last().push(
                    RunSegment::Text { span_index, start: prev.last()->start, end: (n + 1) as usize },
                )
            } else {
                prev.push(RunSegment::Text { span_index, start: n, end: (n + 1) as usize })
            },
        }
    }
}

/// First item position of a segment.
pub open spec fn seg_start(segment: RunSegment) -> int {
    match segment {
        RunSegment::Text { start, .. } => start as int,
        RunSegment::Atom { position, .. } => position as int,
    }
}

/// One past the last item position of a segment.
pub open spec fn seg_end(segment: RunSegment) -> int {
    match segment {
        RunSegment::Text { end, .. } => end as int,
        RunSegment::Atom { position, .. } => position + 1,
    }
}

/// Whether item `p` agrees with the segment, when the segment covers it: a text segment
/// covers glyphs of its span, an atom segment its atom.
pub open spec fn item_in_run(keys: Seq<RunKey>, segment: RunSegment, p: int) -> bool {
    seg_start(segment) <= p < seg_end(segment) ==> match segment {
        RunSegment::Text { span_index, .. } => keys[p] == RunKey::Glyph { span_index },
        RunSegment::Atom { atom_index, .. } => keys[p] == RunKey::Atom { atom_index },
    }
}

/// The segments tile the positions `0..n` in order, each text segment holds glyphs of its
/// span only, each atom segment holds its atom, and no two neighbouring text segments have
/// the same span (text runs are as long as they can be).
pub open spec fn segments_tile(keys: Seq<RunKey>, segments: Seq<RunSegment>) -> bool {
    &&& (segments.len() == 0 <==> keys.len() == 0)
    &&& segments.len() > 0 ==> seg_start(segments[0]) == 0 && seg_end(segments.last()) == keys.len()
    &&& forall|i: int|
        0 <= i < segments.len() ==> 0 <= seg_start(#[trigger] segments[i]) < seg_end(segments[i])
            <= keys.len()
    &&& forall|i: int, j: int|
        0 <= i < j < segments.len() && j == i + 1 ==> seg_end(#[trigger] segments[i]) == seg_start(
            #[trigger] segments[j],
        )
    &&& forall|i: int, p: int| 0 <= i < segments.len() ==> #[trigger] item_in_run(keys, segments[i], p)
    &&& forall|i: int, j: int|
        0 <= i < j < segments.len() && j == i + 1 ==> !same_text_span(
            #[trigger] segments[i],
            #[trigger] segments[j],
        )
}

proof fn lemma_tile_after_push(keys: Seq<RunKey>, prev: Seq<RunSegment>, last: RunSegment)
    requires
        keys.len() > 0,
        segments_tile(keys.drop_last(), prev),
        seg_start(last) == keys.len() - 1,
        seg_end(last) == keys.len(),
        item_in_run(keys, last, keys.len() - 1),
        prev.len() > 0 ==> !same_text_span(prev.last(), last),
    ensures
        segments_tile(keys, prev.push(last)),
{
    let rest = keys.drop_last();
    let segs = prev.push(last);
    let n = keys.len() - 1;
    if prev.len() > 0 {
        assert(seg_end(prev[prev.len() - 1]) == n);
    }
    assert forall|i: int, p: int| 0 <= i < segs.len() implies #[trigger] item_in_run(keys, segs[i], p) by {
        if i < prev.len() {
            assert(segs[i] == prev[i]);
            assert(item_in_run(rest, prev[i], p));
            if seg_start(prev[i]) <= p < seg_end(prev[i]) {
                assert(keys[p] == rest[p]);
            }
        } else {
            assert(segs[i] == last);
        }
    }
    assert forall|i: int, j: int| 0 <= i < j < segs.len() && j == i + 1 implies !same_text_span(
        #[trigger] segs[i],
        #[trigger] segs[j],
    ) && seg_end(segs[i]) == seg_start(segs[j]) by {
        assert(segs[i] == prev[i]);
        if j < prev.len() {
            assert(segs[j] == prev[j]);
        } else {
            assert(segs[j] == last);
        }
    }
    assert forall|i: int| 0 <= i < segs.len() implies 0 <= seg_start(#[trigger] segs[i]) < seg_end(
        segs[i],
    ) <= keys.len() by {
        if i < prev.len() {
            assert(segs[i] == prev[i]);
        }
    }
}

proof fn lemma_tile_after_extend(keys: Seq<RunKey>, prev: Seq<RunSegment>, span_index: usize)
    requires
        keys.len() > 0,
        keys.len() <= usize::MAX,
        segments_tile(keys.drop_last(), prev),
        prev.len() > 0,
        is_text_of(prev.last(), span_index),
        keys.last() == (RunKey::Glyph { span_index }),
    ensures
        segments_tile(
            keys,
            prev.drop_last().push(
                RunSegment::Text {
                    span_index,
                    start: prev.last()->start,
                    end: keys.len() as usize,
                },
            ),
        ),
{
    let rest = keys.drop_last();
    let n = keys.len() - 1;
    let last = RunSegment::Text { span_index, start: prev.last()->start, end: keys.len() as usize };
    let segs = prev.drop_last().push(last);
    let k = prev.len() - 1;
    assert(seg_end(prev[k]) == n);
    assert(seg_start(prev[k]) == seg_start(last));
    assert forall|i: int, p: int| 0 <= i < segs.len() implies #[trigger] item_in_run(keys, segs[i], p) by {
        assert(item_in_run(rest, prev[i], p));
        if i < k {
            assert(segs[i] == prev[i]);
            if seg_start(prev[i]) <= p < seg_end(prev[i]) {
                assert(keys[p] == rest[p]);
            }
        } else {
            assert(segs[i] == last);
            if seg_start(last) <= p < n {
                assert(keys[p] == rest[p]);
            }
        }
    }
    assert forall|i: int, j: int| 0 <= i < j < segs.len() && j == i + 1 implies !same_text_span(
        #[trigger] segs[i],
        #[trigger] segs[j],
    ) && seg_end(segs[i]) == seg_start(segs[j]) by {
        assert(segs[i] == prev[i]);
        assert(seg_end(prev[i]) == seg_start(prev[j]));
        assert(!same_text_span(prev[i], prev[j]));
        if j < k {
            assert(segs[j] == prev[j]);
        } else {
            assert(segs[j] == last);
        }
    }
    assert forall|i: int| 0 <= i < segs.len() implies 0 <= seg_start(#[trigger] segs[i]) < seg_end(
        segs[i],
    ) <= keys.len() by {
        if i < k {
            assert(segs[i] == prev[i]);
        } else {
            assert(segs[i] == last);
            assert(0 <= seg_start(prev[k]));
        }
    }
    if k > 0 {
        assert(segs[0] == prev[0]);
    }
}

/// The runs built item by item tile the line: every item lands in exactly one run, in
/// order, and text runs are maximal.
pub proof fn lemma_run_segments_tile(keys: Seq<RunKey>)
    requires
        keys.len() <= usize::MAX,
    ensures
        segments_tile(keys, run_segments(keys)),
    decreases keys.len(),
{
    if keys.len() > 0 {
        let rest = keys.drop_last();
        lemma_run_segments_tile(rest);
        let prev = run_segments(rest);
        let n = (keys.len() - 1) as usize;
        match keys.last() {
            RunKey::Atom { atom_index } => {
                lemma_tile_after_push(keys, prev, RunSegment::Atom { atom_index, position: n });
            },
            RunKey::Glyph { span_index } => {
                if prev.len() > 0 && is_text_of(prev.last(), span_index) {
                    lemma_tile_after_extend(keys, prev, span_index);
                } else {
                    let last = RunSegment::Text { span_index, start: n, end: (n + 1) as usize };
                    if prev.len() > 0 {
                        assert(!same_text_span(prev.last(), last));
                    }
                    lemma_tile_after_push(keys, prev, last);
                }
            },
        }
    }
}

/// Groups a line's items into runs.
pub fn build_run_segments(keys: &Vec<RunKey>) -> (segments: Vec<RunSegment>)
    ensures
        segments@ == run_segments(keys@),
{
    let mut segments: Vec<RunSegment> = Vec::new();
    let mut i: usize = 0;
    while i < keys.len()
        invariant
            i <= keys@.len(),
            segments@ == run_segments(keys@.take(i as int)),
        decreases keys.len() - i,
    {
        let ghost before = segments@;
        proof {
            assert(keys@.take(i + 1).drop_last() =~= keys@.take(i as int));
            assert(keys@.take(i + 1).last() == keys@[i as int]);
        }
        match keys[i] {
            RunKey::Atom { atom_index } => {
                segments.push(RunSegment::Atom { atom_index, position: i });
            },
            RunKey::Glyph { span_index } => {
                let len = segments.len();
                let mut extended = false;
                if len > 0 {
                    if let RunSegment::Text { span_index: s, start, .. } = segments[len - 1] {
                        if s == span_index {
                            segments.set(len - 1, RunSegment::Text { span_index, start, end: i + 1 });
                            extended = true;
                        }
                    }
                }
                if !extended {
                    segments.push(RunSegment::Text { span_index, start: i, end: i + 1 });
                }
                proof {
                    if extended {
                        assert(segments@ =~= before.drop_last().push(
                            RunSegment::Text {
                                span_index,
                                start: before.last()->start,
                                end: (i + 1) as usize,
                            },
                        ));
                    }
                }
            },
        }
        i += 1;
    }
    assert(keys@.take(keys.len() as int) =~= keys@);
    segments
}

} // verus!
