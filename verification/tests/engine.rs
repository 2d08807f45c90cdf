use minesweeper_rs::Field;
use minesweeper_rs::FieldError;

/// Build a `rows x cols` field with mines at the given positions and the
/// neighbor counts filled in.
fn field_with_mines(rows: usize, cols: usize, mines: &[(usize, usize)]) -> Field {
    let mut f = Field::empty(rows, cols).unwrap();
    for &(r, c) in mines {
        f.set_mine(r, c).unwrap();
    }
    f.set_bomb_counts();
    f
}

fn count_mines(f: &Field) -> usize {
    let mut n = 0;
    for r in 0..f.rows() {
        for c in 0..f.cols() {
            if f.get(r, c).unwrap().is_bomb {
                n += 1;
            }
        }
    }
    n
}

fn count_revealed(f: &Field) -> usize {
    let mut n = 0;
    for r in 0..f.rows() {
        for c in 0..f.cols() {
            if f.get(r, c).unwrap().is_revealed {
                n += 1;
            }
        }
    }
    n
}

/// The number of mines among the Moore neighbors of `(r, c)`, recomputed
/// directly.
fn neighbor_mines(f: &Field, r: usize, c: usize) -> u32 {
    let mut n = 0;
    for dr in -1i64..=1 {
        for dc in -1i64..=1 {
            if dr == 0 && dc == 0 {
                continue;
            }
            let rr = r as i64 + dr;
            let cc = c as i64 + dc;
            if rr >= 0 && cc >= 0 && (rr as usize) < f.rows() && (cc as usize) < f.cols() {
                if f.get(rr as usize, cc as usize).unwrap().is_bomb {
                    n += 1;
                }
            }
        }
    }
    n
}

#[test]
fn empty_makes_default_cells() {
    let f = Field::empty(4, 7).unwrap();
    assert_eq!(f.rows(), 4);
    assert_eq!(f.cols(), 7);
    for r in 0..4 {
        for c in 0..7 {
            let cell = f.get(r, c).unwrap();
            assert!(!cell.is_bomb);
            assert!(!cell.has_flag);
            assert!(!cell.is_revealed);
            assert_eq!(cell.bomb_count, 0);
        }
    }
}

#[test]
fn empty_rejects_zero_dimensions() {
    assert_eq!(Field::empty(0, 5).unwrap_err(), FieldError::InvalidDimensions);
    assert_eq!(Field::empty(5, 0).unwrap_err(), FieldError::InvalidDimensions);
    assert_eq!(Field::empty(0, 0).unwrap_err(), FieldError::InvalidDimensions);
}

#[test]
fn default_bomb_count_is_a_tenth_of_the_cells() {
    let f = Field::empty(10, 10).unwrap();
    assert_eq!(f.bomb_count(), 10);
    let g = Field::empty(4, 7).unwrap();
    assert_eq!(g.bomb_count(), 2);
}

#[test]
fn place_bombs_places_exactly_the_requested_mines() {
    let mut f = Field::empty(10, 10).unwrap();
    f.place_bombs(12).unwrap();
    assert_eq!(count_mines(&f), 12);
    for r in 0..10 {
        for c in 0..10 {
            let cell = f.get(r, c).unwrap();
            assert!(!cell.has_flag);
            assert!(!cell.is_revealed);
        }
    }
}

#[test]
fn place_bombs_fills_in_correct_neighbor_counts() {
    let mut f = Field::empty(9, 9).unwrap();
    f.place_bombs(20).unwrap();
    for r in 0..9 {
        for c in 0..9 {
            let cell = f.get(r, c).unwrap();
            if !cell.is_bomb {
                assert_eq!(cell.bomb_count, neighbor_mines(&f, r, c));
            }
        }
    }
}

#[test]
fn place_bombs_rejects_too_many_mines() {
    let mut f = Field::empty(3, 3).unwrap();
    assert_eq!(f.place_bombs(9).unwrap_err(), FieldError::InvalidMineCount);
    assert_eq!(f.place_bombs(10).unwrap_err(), FieldError::InvalidMineCount);
    assert_eq!(count_mines(&f), 0);
    f.place_bombs(8).unwrap();
    assert_eq!(count_mines(&f), 8);
}

#[test]
fn place_bombs_zero_mines_is_allowed() {
    let mut f = Field::empty(3, 3).unwrap();
    f.place_bombs(0).unwrap();
    assert_eq!(count_mines(&f), 0);
}

#[test]
fn bomb_counts_on_center_mine_grid() {
    let f = field_with_mines(3, 3, &[(1, 1)]);
    for r in 0..3 {
        for c in 0..3 {
            let cell = f.get(r, c).unwrap();
            if r == 1 && c == 1 {
                assert!(cell.is_bomb);
            } else {
                assert!(!cell.is_bomb);
                assert_eq!(cell.bomb_count, 1);
            }
        }
    }
}

#[test]
fn bomb_counts_on_corner_mine_grid() {
    let f = field_with_mines(3, 3, &[(0, 0)]);
    for r in 0..3 {
        for c in 0..3 {
            let cell = f.get(r, c).unwrap();
            if r == 0 && c == 0 {
                assert!(cell.is_bomb);
            } else {
                assert!(!cell.is_bomb);
                let expected = if r <= 1 && c <= 1 { 1 } else { 0 };
                assert_eq!(cell.bomb_count, expected);
            }
        }
    }
}

#[test]
fn reveal_numbered_cell_reveals_only_itself() {
    // Mine fixed at (1, 1); (0, 0) is diagonal to it, so its count is 1.
    let mut f = field_with_mines(3, 3, &[(1, 1)]);
    let hit = f.reveal_cell(0, 0).unwrap();
    assert!(!hit);
    assert!(f.get(0, 0).unwrap().is_revealed);
    assert_eq!(count_revealed(&f), 1);
}

#[test]
fn reveal_mine_reports_the_hit() {
    let mut f = field_with_mines(3, 3, &[(1, 1)]);
    let hit = f.reveal_cell(1, 1).unwrap();
    assert!(hit);
    assert!(f.get(1, 1).unwrap().is_revealed);
    assert_eq!(count_revealed(&f), 1);
}

#[test]
fn reveal_blank_floods_region_and_border() {
    // Mine at the corner (0, 0): every cell not touching it has count 0, so
    // revealing (2, 2) floods the whole grid except the mine itself.
    let mut f = field_with_mines(3, 3, &[(0, 0)]);
    let hit = f.reveal_cell(2, 2).unwrap();
    assert!(!hit);
    for r in 0..3 {
        for c in 0..3 {
            let cell = f.get(r, c).unwrap();
            if r == 0 && c == 0 {
                assert!(!cell.is_revealed);
            } else {
                assert!(cell.is_revealed);
            }
        }
    }
}

#[test]
fn reveal_blank_does_not_cross_numbered_border() {
    // 3x5 grid with a mine wall-ish at column 2: mines at (0,2) and (2,2).
    // Flooding from (0,0) must stay left of the numbered border column.
    let mut f = field_with_mines(3, 5, &[(0, 2), (2, 2)]);
    f.reveal_cell(0, 0).unwrap();
    // Left blank region: column 0 (counts 0) plus the numbered column 1.
    for r in 0..3 {
        assert!(f.get(r, 0).unwrap().is_revealed);
        assert!(f.get(r, 1).unwrap().is_revealed);
    }
    // Nothing at or beyond the mine column is revealed.
    for r in 0..3 {
        for c in 2..5 {
            assert!(!f.get(r, c).unwrap().is_revealed);
        }
    }
}

#[test]
fn reveal_is_idempotent_on_open_cells() {
    let mut f = field_with_mines(3, 3, &[(1, 1)]);
    assert!(!f.reveal_cell(0, 0).unwrap());
    let before = count_revealed(&f);
    assert!(!f.reveal_cell(0, 0).unwrap());
    assert_eq!(count_revealed(&f), before);
    // An already revealed mine still reports its mine status.
    assert!(f.reveal_cell(1, 1).unwrap());
    assert!(f.reveal_cell(1, 1).unwrap());
}

#[test]
fn reveal_out_of_bounds_is_rejected() {
    let mut f = field_with_mines(3, 3, &[(1, 1)]);
    assert_eq!(f.reveal_cell(3, 0).unwrap_err(), FieldError::OutOfBounds);
    assert_eq!(f.reveal_cell(0, 3).unwrap_err(), FieldError::OutOfBounds);
    assert_eq!(count_revealed(&f), 0);
}

#[test]
fn revealed_cells_stay_revealed() {
    let mut f = field_with_mines(3, 3, &[(1, 1)]);
    f.reveal_cell(0, 0).unwrap();
    f.reveal_cell(2, 2).unwrap();
    f.toggle_flag(1, 1).unwrap();
    f.reveal_cell(0, 1).unwrap();
    f.reveal_neighbors(0, 0).unwrap();
    f.toggle_flag(1, 1).unwrap();
    assert!(f.get(0, 0).unwrap().is_revealed);
    assert!(f.get(2, 2).unwrap().is_revealed);
    assert!(f.get(0, 1).unwrap().is_revealed);
    f.reveal_all();
    for r in 0..3 {
        for c in 0..3 {
            assert!(f.get(r, c).unwrap().is_revealed);
        }
    }
}

#[test]
fn toggle_flag_flips_and_flips_back() {
    let mut f = Field::empty(3, 3).unwrap();
    assert!(!f.get(1, 2).unwrap().has_flag);
    f.toggle_flag(1, 2).unwrap();
    assert!(f.get(1, 2).unwrap().has_flag);
    assert!(!f.get(1, 2).unwrap().is_revealed);
    f.toggle_flag(1, 2).unwrap();
    assert!(!f.get(1, 2).unwrap().has_flag);
    assert_eq!(f.toggle_flag(9, 9).unwrap_err(), FieldError::OutOfBounds);
}

#[test]
fn set_mine_out_of_bounds_is_rejected() {
    let mut f = Field::empty(2, 2).unwrap();
    assert_eq!(f.set_mine(2, 0).unwrap_err(), FieldError::OutOfBounds);
    assert_eq!(f.get(0, 5).unwrap_err(), FieldError::OutOfBounds);
    assert_eq!(count_mines(&f), 0);
}

#[test]
fn chord_with_wrong_flag_count_is_a_no_op() {
    let mut f = field_with_mines(3, 3, &[(0, 0)]);
    f.reveal_cell(1, 1).unwrap();
    // Two flags around a cell whose count is 1: nothing may happen.
    f.toggle_flag(0, 1).unwrap();
    f.toggle_flag(2, 2).unwrap();
    let hit = f.reveal_neighbors(1, 1).unwrap();
    assert!(!hit);
    assert_eq!(count_revealed(&f), 1);
}

#[test]
fn chord_with_zero_flags_is_a_no_op() {
    let mut f = field_with_mines(3, 3, &[(0, 0)]);
    f.reveal_cell(1, 1).unwrap();
    let hit = f.reveal_neighbors(1, 1).unwrap();
    assert!(!hit);
    assert_eq!(count_revealed(&f), 1);
}

#[test]
fn chord_with_misplaced_flag_triggers_without_revealing() {
    let mut f = field_with_mines(3, 3, &[(0, 0)]);
    f.reveal_cell(1, 1).unwrap();
    // One flag, matching the count 1, but on the wrong cell: the mine at
    // (0, 0) is unflagged, so the chord reports a triggered mine.
    f.toggle_flag(0, 1).unwrap();
    let hit = f.reveal_neighbors(1, 1).unwrap();
    assert!(hit);
    assert_eq!(count_revealed(&f), 1);
    assert!(!f.get(0, 0).unwrap().is_revealed);
}

#[test]
fn chord_with_correct_flag_opens_the_hidden_neighbors() {
    let mut f = field_with_mines(3, 3, &[(0, 0)]);
    f.reveal_cell(1, 1).unwrap();
    f.toggle_flag(0, 0).unwrap();
    let hit = f.reveal_neighbors(1, 1).unwrap();
    assert!(!hit);
    // Everything but the flagged mine is revealed (the blank corner
    // cascades, but the flood cannot pass the numbered border onto (0,0)).
    for r in 0..3 {
        for c in 0..3 {
            let cell = f.get(r, c).unwrap();
            if r == 0 && c == 0 {
                assert!(!cell.is_revealed);
                assert!(cell.has_flag);
            } else {
                assert!(cell.is_revealed);
            }
        }
    }
}

#[test]
fn chord_cascades_through_blank_neighbors() {
    // Mines at (0,2) and (2,2) on a 3x5 grid. Reveal (1,1) (count 2), flag
    // both mines, chord: the hidden blank neighbors of (1,1) in column 0
    // cascade through the whole left region.
    let mut f = field_with_mines(3, 5, &[(0, 2), (2, 2)]);
    f.reveal_cell(1, 1).unwrap();
    f.toggle_flag(0, 2).unwrap();
    f.toggle_flag(2, 2).unwrap();
    let hit = f.reveal_neighbors(1, 1).unwrap();
    assert!(!hit);
    for r in 0..3 {
        assert!(f.get(r, 0).unwrap().is_revealed);
        assert!(f.get(r, 1).unwrap().is_revealed);
    }
    assert!(f.get(1, 2).unwrap().is_revealed);
    assert!(!f.get(0, 2).unwrap().is_revealed);
    assert!(!f.get(2, 2).unwrap().is_revealed);
}

#[test]
fn chord_out_of_bounds_is_rejected() {
    let mut f = field_with_mines(3, 3, &[(1, 1)]);
    assert_eq!(f.reveal_neighbors(7, 7).unwrap_err(), FieldError::OutOfBounds);
}

#[test]
fn win_after_revealing_all_safe_cells() {
    let mut f = field_with_mines(3, 3, &[(1, 1)]);
    assert!(!f.check_win());
    for r in 0..3 {
        for c in 0..3 {
            if !(r == 1 && c == 1) {
                assert!(!f.reveal_cell(r, c).unwrap());
            }
        }
    }
    assert!(f.check_win());
}

#[test]
fn revealing_the_mine_never_wins() {
    let mut f = field_with_mines(3, 3, &[(1, 1)]);
    assert!(f.reveal_cell(1, 1).unwrap());
    assert!(!f.check_win());
    // Even after opening every safe cell, the open mine keeps the hidden
    // count below the mine count.
    for r in 0..3 {
        for c in 0..3 {
            f.reveal_cell(r, c).unwrap();
        }
    }
    assert!(!f.check_win());
}

#[test]
fn reveal_all_opens_everything_and_keeps_the_rest() {
    let mut f = field_with_mines(3, 3, &[(0, 2)]);
    f.toggle_flag(2, 0).unwrap();
    f.reveal_all();
    for r in 0..3 {
        for c in 0..3 {
            assert!(f.get(r, c).unwrap().is_revealed);
        }
    }
    assert!(f.get(0, 2).unwrap().is_bomb);
    assert!(f.get(2, 0).unwrap().has_flag);
    // Idempotent.
    f.reveal_all();
    assert_eq!(count_revealed(&f), 9);
}

#[test]
fn cell_new_sets_only_the_mine_flag() {
    let c = minesweeper_rs::Cell::new(true);
    assert!(c.is_bomb);
    assert!(!c.has_flag);
    assert!(!c.is_revealed);
    assert_eq!(c.bomb_count, 0);
    let d = minesweeper_rs::Cell::new(false);
    assert!(!d.is_bomb);
}
