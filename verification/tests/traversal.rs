use psf2::Glyph;
use psf2::GlyphRow;

fn collect_row_forward(row: &mut GlyphRow) -> Vec<bool> {
    let mut out = Vec::new();
    while let Some(px) = row.next() {
        out.push(px);
    }
    out
}

fn collect_row_backward(row: &mut GlyphRow) -> Vec<bool> {
    let mut out = Vec::new();
    while let Some(px) = row.next_back() {
        out.push(px);
    }
    out
}

#[test]
fn column_correctness() {
    let mut it = GlyphRow::new(&[3, 0], 9);
    assert_eq!(it.len(), 9);
    assert_eq!(
        collect_row_forward(&mut it),
        &[false, false, false, false, false, false, true, true, false]
    );
}

#[test]
fn reverse_column() {
    let it = GlyphRow::new(&[3, 0], 9);
    let mut fwd = it;
    let mut naive = collect_row_forward(&mut fwd);
    naive.reverse();
    let mut bwd = it;
    assert_eq!(naive, collect_row_backward(&mut bwd));
}

#[test]
fn row_correctness() {
    let mut it = Glyph::new(&[128, 0], 1);
    assert_eq!(it.len(), 2);
    let mut flat = Vec::new();
    while let Some(mut row) = it.next() {
        flat.append(&mut collect_row_forward(&mut row));
    }
    assert_eq!(flat, &[true, false]);
}

#[test]
fn reverse_row() {
    let it = Glyph::new(&[128, 0], 1);
    let mut fwd = it;
    let mut naive = Vec::new();
    while let Some(mut row) = fwd.next() {
        naive.append(&mut collect_row_forward(&mut row));
    }
    naive.reverse();
    let mut bwd = it;
    let mut rev_flat = Vec::new();
    while let Some(mut row) = bwd.next_back() {
        rev_flat.append(&mut collect_row_forward(&mut row));
    }
    assert_eq!(naive, rev_flat);
}

#[test]
fn packed_row_decodes_to_chosen_booleans() {
    // Nine pixels packed most-significant-bit first: 0b10110010, 0b10000000.
    let chosen = [true, false, true, true, false, false, true, false, true];
    let mut row = GlyphRow::new(&[0xb2, 0x80], 9);
    assert_eq!(collect_row_forward(&mut row), chosen);
}

#[test]
fn row_remaining_count_tracks_steps() {
    let mut row = GlyphRow::new(&[3, 0], 9);
    let mut expected: usize = 9;
    assert_eq!(row.len(), expected);
    loop {
        let from_front = expected % 2 == 0;
        let stepped = if from_front { row.next() } else { row.next_back() };
        if expected == 0 {
            assert!(stepped.is_none());
            break;
        }
        assert!(stepped.is_some());
        expected -= 1;
        assert_eq!(row.len(), expected);
    }
}

#[test]
fn row_interleaved_exhaustion_matches_forward() {
    let forward = {
        let mut row = GlyphRow::new(&[3, 0], 9);
        collect_row_forward(&mut row)
    };
    let mut row = GlyphRow::new(&[3, 0], 9);
    let mut front = Vec::new();
    let mut back = Vec::new();
    // Alternate: two off the front, one off the back, until exhausted.
    let mut turn: usize = 0;
    loop {
        let stepped = if turn % 3 == 2 {
            match row.next_back() {
                Some(px) => {
                    back.push(px);
                    true
                }
                None => false,
            }
        } else {
            match row.next() {
                Some(px) => {
                    front.push(px);
                    true
                }
                None => false,
            }
        };
        if !stepped {
            break;
        }
        turn += 1;
    }
    back.reverse();
    front.append(&mut back);
    assert_eq!(front, forward);
}

#[test]
fn row_data_never_shrinks() {
    let mut row = GlyphRow::new(&[3, 0], 9);
    assert_eq!(row.data(), &[3, 0]);
    row.next();
    row.next_back();
    assert_eq!(row.data(), &[3, 0]);
}

#[test]
fn glyph_data_shrinks_from_either_end() {
    let mut glyph = Glyph::new(&[1, 2, 3, 4], 8);
    assert_eq!(glyph.data(), &[1, 2, 3, 4]);
    let front = glyph.next().expect("front row");
    assert_eq!(front.data(), &[1]);
    assert_eq!(glyph.data(), &[2, 3, 4]);
    let rear = glyph.next_back().expect("rear row");
    assert_eq!(rear.data(), &[4]);
    assert_eq!(glyph.data(), &[2, 3]);
}

#[test]
fn glyph_remaining_count_tracks_steps() {
    let mut glyph = Glyph::new(&[1, 2, 3, 4, 5, 6], 16);
    assert_eq!(glyph.len(), 3);
    assert!(glyph.next().is_some());
    assert_eq!(glyph.len(), 2);
    assert!(glyph.next_back().is_some());
    assert_eq!(glyph.len(), 1);
    assert!(glyph.next().is_some());
    assert_eq!(glyph.len(), 0);
    assert!(glyph.next().is_none());
    assert!(glyph.next_back().is_none());
}

#[test]
fn glyph_backward_rows_reverse_forward_rows() {
    let bytes = [0x10u8, 0x20, 0x30, 0x40, 0x50, 0x60];
    let mut fwd = Glyph::new(&bytes, 12);
    let mut forward_rows: Vec<Vec<u8>> = Vec::new();
    while let Some(row) = fwd.next() {
        forward_rows.push(row.data().to_vec());
    }
    let mut bwd = Glyph::new(&bytes, 12);
    let mut backward_rows: Vec<Vec<u8>> = Vec::new();
    while let Some(row) = bwd.next_back() {
        backward_rows.push(row.data().to_vec());
    }
    backward_rows.reverse();
    assert_eq!(forward_rows, backward_rows);
}

#[test]
fn glyph_with_trailing_partial_row_stops_early() {
    // Three bytes, two-byte rows: only one whole row is obtainable.
    let mut glyph = Glyph::new(&[0xaa, 0xbb, 0xcc], 9);
    assert_eq!(glyph.len(), 1);
    let row = glyph.next().expect("one whole row");
    assert_eq!(row.data(), &[0xaa, 0xbb]);
    assert!(glyph.next().is_none());
    assert_eq!(glyph.data(), &[0xcc]);
}

#[test]
fn zero_width_row_is_empty() {
    let mut row = GlyphRow::new(&[], 0);
    assert_eq!(row.len(), 0);
    assert!(row.next().is_none());
    assert!(row.next_back().is_none());
}
