use game_of_life::{Cell, ConstructionError, Mode, World};

fn alive_indices(w: &World) -> Vec<usize> {
    w.cells()
        .iter()
        .enumerate()
        .filter(|(_, c)| **c == Cell::Alive)
        .map(|(i, _)| i)
        .collect()
}

fn alive_count(w: &World) -> usize {
    alive_indices(w).len()
}

fn place_glider(w: &mut World, top: i32, left: i32) {
    for (r, c) in [(0, 1), (1, 2), (2, 0), (2, 1), (2, 2)] {
        w.set_cell(top + r, left + c, Cell::Alive);
    }
}

#[test]
fn construction_rejects_bad_dimensions() {
    assert!(World::try_new(0, 5).is_err());
    assert!(World::try_new(5, -1).is_err());
    assert_eq!(
        World::try_new(-3, -3).err(),
        Some(ConstructionError::InvalidDimensions)
    );
    let w = World::try_new(4, 3).unwrap();
    assert_eq!((w.width(), w.height()), (4, 3));
    assert_eq!(w.generations(), 0);
    assert_eq!(alive_count(&w), 0);
    assert_eq!(w.cells().len(), 12);
}

#[test]
fn set_cell_toggle_and_change_tracking() {
    let mut w = World::new(4, 4);
    w.set_cell(1, 2, Cell::Alive);
    w.toggle(0, 0);
    w.toggle(1, 2);
    assert_eq!(w.changed_cells(), &vec![6, 0, 6]);
    assert_eq!(w.changed_cells_len(), 3);
    assert_eq!(alive_indices(&w), vec![0]);
    w.reset_changed_cells();
    assert_eq!(w.changed_cells_len(), 0);
    // Coordinates wrap: one grid-length below zero and anything above.
    w.set_cell(-1, -1, Cell::Alive);
    assert!(alive_indices(&w).contains(&15));
}

#[test]
fn tick_and_next_tick_agree_for_many_steps() {
    for mode in [Mode::Finite, Mode::Torus] {
        let mut full = World::new(16, 16);
        let mut incr = World::new(16, 16);
        for w in [&mut full, &mut incr] {
            w.set_mode(mode);
            place_glider(w, 2, 3);
            // An extra edit and a blinker, for more varied activity.
            w.set_cell(10, 10, Cell::Alive);
            for c in 6..9 {
                w.set_cell(12, c, Cell::Alive);
            }
        }
        for step in 0..12 {
            full.tick();
            incr.next_tick();
            assert_eq!(full.cells(), incr.cells(), "step {step}");
            assert_eq!(full.generations(), incr.generations());
        }
    }
}

#[test]
fn changed_cells_are_exactly_the_flipped_cells() {
    let mut w = World::new(12, 12);
    place_glider(&mut w, 4, 4);
    for _ in 0..3 {
        let before = w.cells().clone();
        w.tick();
        let after = w.cells().clone();
        let expected: Vec<i32> = (0..before.len())
            .filter(|&i| before[i] != after[i])
            .map(|i| i as i32)
            .collect();
        let mut got: Vec<i32> = w.changed_cells().clone();
        got.sort();
        let mut dedup = got.clone();
        dedup.dedup();
        assert_eq!(dedup.len(), got.len(), "no index reported twice");
        assert_eq!(got, expected);
    }
}

#[test]
fn blinker_oscillates_with_period_two() {
    let mut w = World::new(5, 5);
    for c in 1..4 {
        w.set_cell(2, c, Cell::Alive);
    }
    let horizontal = alive_indices(&w);
    w.tick();
    let vertical = alive_indices(&w);
    assert_eq!(alive_count(&w), 3);
    assert_ne!(vertical, horizontal);
    w.tick();
    assert_eq!(alive_indices(&w), horizontal);
    assert_eq!(alive_count(&w), 3);
    w.tick();
    assert_eq!(alive_indices(&w), vertical);
}

#[test]
fn glider_wraps_around_a_torus() {
    let mut w = World::new(64, 64);
    w.set_mode(Mode::Torus);
    place_glider(&mut w, 60, 60);
    let start = alive_indices(&w);
    // A glider travels one cell down-right every 4 generations, so it
    // crosses the edge and, after 4 * 64 generations, returns home.
    for _ in 0..4 {
        w.next_tick();
    }
    let after4 = alive_indices(&w);
    let shifted: Vec<usize> = start
        .iter()
        .map(|&i| {
            let (r, c) = (i / 64, i % 64);
            ((r + 1) % 64) * 64 + ((c + 1) % 64)
        })
        .collect();
    let mut shifted_sorted = shifted;
    shifted_sorted.sort();
    assert_eq!(after4, shifted_sorted);
    for _ in 4..256 {
        w.next_tick();
    }
    assert_eq!(alive_indices(&w), start);
    assert_eq!(w.generations(), 256);
}

#[test]
fn glider_is_truncated_at_a_finite_edge() {
    let mut w = World::new(16, 16);
    // Mode stays Finite: the default.
    place_glider(&mut w, 12, 12);
    for _ in 0..64 {
        w.tick();
    }
    // Off the hard edge the glider degenerates instead of wrapping:
    // it can never survive as a 5-cell glider.
    assert!(alive_count(&w) <= 4);
    // The same start on a torus keeps all five cells alive.
    let mut t = World::new(16, 16);
    t.set_mode(Mode::Torus);
    place_glider(&mut t, 12, 12);
    for _ in 0..64 {
        t.tick();
    }
    assert_eq!(alive_count(&t), 5);
}

#[test]
fn clear_twice_is_idempotent_and_marks_everything() {
    let mut w = World::new(6, 4);
    place_glider(&mut w, 0, 0);
    let everything: Vec<i32> = (0..24).collect();
    w.clear();
    assert_eq!(alive_count(&w), 0);
    assert_eq!(w.changed_cells(), &everything);
    w.clear();
    assert_eq!(alive_count(&w), 0);
    assert_eq!(w.changed_cells(), &everything);
}

#[test]
fn resize_copies_the_overlap_and_keeps_the_mode() {
    let mut w = World::new(6, 6);
    w.set_mode(Mode::Torus);
    w.set_cell(1, 1, Cell::Alive);
    w.set_cell(5, 5, Cell::Alive);
    w.tick();
    w.resize(4, 4);
    assert_eq!((w.width(), w.height()), (4, 4));
    assert_eq!(w.generations(), 0);
    // The overlap kept cell (1, 1); (5, 5) fell off.
    let mut grown = World::new(6, 6);
    grown.set_cell(1, 1, Cell::Alive);
    grown.set_cell(5, 5, Cell::Alive);
    grown.tick();
    for r in 0..4 {
        for c in 0..4 {
            assert_eq!(
                w.cells()[(r * 4 + c) as usize],
                grown.cells()[(r * 6 + c) as usize]
            );
        }
    }
    // The topology survives the resize: wrap a neighbor around the edge.
    w.clear();
    w.set_cell(0, 0, Cell::Alive);
    w.set_cell(0, 3, Cell::Alive);
    w.set_cell(3, 0, Cell::Alive);
    w.tick();
    // On a 4x4 torus those three cells are mutual neighbors of (3, 3).
    assert_eq!(w.cells()[15], Cell::Alive);
}

#[test]
fn generation_counter_is_monotonic() {
    let mut w = World::new(5, 5);
    assert_eq!(w.generations(), 0);
    w.tick();
    w.next_tick();
    w.tick();
    assert_eq!(w.generations(), 3);
}

#[test]
fn incremental_tick_handles_the_torus_seam() {
    // A blinker straddling the vertical wrap seam: its neighbors lie
    // on the opposite edge, so the incremental candidate set must be
    // resolved through the topology, not by raw index offsets.
    let mut full = World::new(8, 8);
    let mut incr = World::new(8, 8);
    for w in [&mut full, &mut incr] {
        w.set_mode(Mode::Torus);
        for c in [7, 0, 1] {
            w.set_cell(2, c, Cell::Alive);
        }
    }
    let mut probe = World::new(8, 8);
    probe.set_mode(Mode::Torus);
    for c in [7, 0, 1] {
        probe.set_cell(2, c, Cell::Alive);
    }
    probe.next_tick();
    // The horizontal blinker rotates to a vertical one on column 0.
    let expected: Vec<usize> = vec![1 * 8 + 0, 2 * 8 + 0, 3 * 8 + 0];
    assert_eq!(alive_indices(&probe), expected);
    for _ in 0..6 {
        full.tick();
        incr.next_tick();
        assert_eq!(full.cells(), incr.cells());
    }
}

#[test]
fn number_set_basics() {
    let mut s = game_of_life::number_hashset::hashset(10);
    assert!(s.is_empty());
    s.insert(3);
    s.insert(3);
    s.insert(7);
    assert!(!s.is_empty());
    assert!(s.contains(3));
    assert!(s.contains(7));
    assert!(!s.contains(4));
}
