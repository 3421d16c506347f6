use pillars_well::well::{Well, PROGRESS_ONE, SPAWN_COL};

/// Counts the occupied cells of the settled grid.
fn settled_count(w: &Well) -> usize {
    let mut count = 0;
    for row in 0..w.rows {
        for col in 0..w.columns {
            if w.settled_at(row, col).is_some() {
                count += 1;
            }
        }
    }
    count
}

/// Advances in half-row steps until the current piece has descended to
/// `target` — and checks it never descends past it.
fn drop_to_row(w: &mut Well, target: usize) {
    let mut guard = 0;
    while w.piece_row > target {
        w.advance(100);
        assert!(w.piece_row >= target, "piece descended past its support");
        guard += 1;
        assert!(guard < 10000, "piece never reached its support");
    }
    assert_eq!(w.piece_row, target);
}

#[test]
fn one_second_drops_five_rows() {
    // columns 6, rows 13, speed 5 rows per second; one second elapses
    let mut w = Well::new(6, 13, 5000);
    assert_eq!(w.piece_row, 13);
    w.advance(1000);
    assert_eq!(w.piece_row, 8);
    assert_eq!(w.fall_progress, 0);
    assert_eq!(settled_count(&w), 0);
}

#[test]
fn floor_landing_commits_three_gems_and_respawns() {
    let mut w = Well::new(6, 13, 5000);
    drop_to_row(&mut w, 0);
    assert_eq!(settled_count(&w), 0);
    w.advance(1000);
    assert_eq!(settled_count(&w), 3);
    for row in 0..3 {
        let gem = w.settled_at(row, SPAWN_COL).expect("landed cell must be filled");
        assert_eq!(gem.id, row as u64);
    }
    assert_eq!(w.piece_row, 13);
    assert_eq!(w.fall_progress, 0);
    assert_eq!(w.next_gem_id, 6);
    for (i, gem) in w.falling_piece.iter().enumerate() {
        assert_eq!(gem.id, 3 + i as u64);
    }
}

#[test]
fn large_step_lands_at_most_once() {
    // enough time for the piece to cross the whole well many times over:
    // still only one landing, and the leftover progress is discarded
    let mut w = Well::new(6, 13, 5000);
    w.advance(100000);
    assert_eq!(settled_count(&w), 3);
    assert_eq!(w.piece_row, 13);
    assert_eq!(w.fall_progress, 0);
}

#[test]
fn second_piece_stacks_one_row_above_first() {
    let mut w = Well::new(6, 13, 5000);
    drop_to_row(&mut w, 0);
    w.advance(250);
    assert_eq!(settled_count(&w), 3);
    // the next piece stops one row above the stack, at row 3, and lands there
    drop_to_row(&mut w, 3);
    w.advance(250);
    assert_eq!(settled_count(&w), 6);
    // the first piece's gems were not overwritten
    for row in 0..3 {
        let gem = w.settled_at(row, SPAWN_COL).expect("first piece still settled");
        assert_eq!(gem.id, row as u64);
    }
    // the second piece rests directly on top of it
    for row in 3..6 {
        let gem = w.settled_at(row, SPAWN_COL).expect("second piece settled");
        assert_eq!(gem.id, row as u64);
    }
    // only the spawn column is occupied
    for row in 0..w.rows {
        for col in 0..w.columns {
            if col != SPAWN_COL || row >= 6 {
                assert!(w.settled_at(row, col).is_none());
            }
        }
    }
}

#[test]
fn split_steps_match_one_aggregate_step() {
    let mut split = Well::new(6, 13, 5000);
    let mut aggregate = Well::new(6, 13, 5000);
    split.advance(700);
    split.advance(800);
    aggregate.advance(1500);
    assert_eq!(split.piece_row, aggregate.piece_row);
    assert_eq!(split.fall_progress, aggregate.fall_progress);
    assert_eq!(settled_count(&split), 0);
    assert_eq!(settled_count(&aggregate), 0);
}

#[test]
fn piece_offsets_is_a_pure_read() {
    let mut w = Well::new(6, 13, 5000);
    w.advance(100);
    let row_before = w.piece_row;
    let progress_before = w.fall_progress;
    let first = w.piece_offsets();
    let second = w.piece_offsets();
    assert_eq!(first, second);
    assert_eq!(w.piece_row, row_before);
    assert_eq!(w.piece_col, SPAWN_COL);
    assert_eq!(w.fall_progress, progress_before);
}

#[test]
fn piece_offsets_interpolate_between_rows() {
    let mut w = Well::new(6, 13, 5000);
    w.advance(100);
    // 100 ms at 5 rows per second: half a row of progress
    assert_eq!(w.fall_progress, PROGRESS_ONE / 2);
    let offsets = w.piece_offsets();
    assert_eq!(offsets.len(), 3);
    for (i, o) in offsets.iter().enumerate() {
        assert_eq!(o.gem_id, i as u64);
        assert_eq!(o.col, SPAWN_COL);
        let row_top = (13 + i as i64) * PROGRESS_ONE as i64;
        assert_eq!(o.y_micro, row_top - (PROGRESS_ONE / 2) as i64);
    }
}

#[test]
fn try_new_rejects_invalid_configurations() {
    // the spawn column must exist, so at least four columns are needed
    assert!(Well::try_new(3, 13, 5000).is_none());
    assert!(Well::try_new(0, 13, 5000).is_none());
    // at least one row is needed
    assert!(Well::try_new(6, 0, 5000).is_none());
    let w = Well::try_new(4, 1, 1000).expect("a 4x1 well is valid");
    assert_eq!(w.columns, 4);
    assert_eq!(w.rows, 1);
    assert_eq!(w.piece_row, 1);
    assert_eq!(w.piece_col, SPAWN_COL);
    assert_eq!(w.fall_progress, 0);
    assert_eq!(w.fall_speed, 1000);
}

#[test]
fn short_well_discards_gems_above_the_top() {
    // a single-row well: only the lowest gem of the piece fits the grid
    let mut w = Well::try_new(4, 1, 1000).expect("a 4x1 well is valid");
    w.advance(2000);
    assert_eq!(settled_count(&w), 1);
    assert!(w.settled_at(0, SPAWN_COL).is_some());
    assert_eq!(w.piece_row, 1);
}
