use stele::runs::{build_run_segments, RunKey, RunSegment};

fn glyph(span_index: usize) -> RunKey {
    RunKey::Glyph { span_index }
}

#[test]
fn glyphs_of_one_span_share_a_run() {
    let segments = build_run_segments(&vec![glyph(0), glyph(0), glyph(1), glyph(1), glyph(0)]);
    assert_eq!(
        segments,
        vec![
            RunSegment::Text { span_index: 0, start: 0, end: 2 },
            RunSegment::Text { span_index: 1, start: 2, end: 4 },
            RunSegment::Text { span_index: 0, start: 4, end: 5 },
        ]
    );
}

#[test]
fn atoms_split_text_runs_and_stand_alone() {
    let segments = build_run_segments(&vec![
        glyph(2),
        RunKey::Atom { atom_index: 0 },
        glyph(2),
        RunKey::Atom { atom_index: 1 },
        RunKey::Atom { atom_index: 2 },
    ]);
    assert_eq!(
        segments,
        vec![
            RunSegment::Text { span_index: 2, start: 0, end: 1 },
            RunSegment::Atom { atom_index: 0, position: 1 },
            RunSegment::Text { span_index: 2, start: 2, end: 3 },
            RunSegment::Atom { atom_index: 1, position: 3 },
            RunSegment::Atom { atom_index: 2, position: 4 },
        ]
    );
}

#[test]
fn glyph_and_atom_make_two_runs() {
    let segments = build_run_segments(&vec![glyph(0), RunKey::Atom { atom_index: 0 }]);
    assert_eq!(segments.len(), 2);
    assert!(build_run_segments(&Vec::new()).is_empty());
}
