use game_of_life::{Cell, PlaintextError, World};

fn alive_indices(w: &World) -> Vec<usize> {
    w.cells()
        .iter()
        .enumerate()
        .filter(|(_, c)| **c == Cell::Alive)
        .map(|(i, _)| i)
        .collect()
}

#[test]
fn export_of_an_empty_grid_is_empty() {
    let w = World::new(8, 8);
    assert_eq!(w.export_rle(), "");
}

#[test]
fn export_emits_origin_header_and_runs() {
    let mut w = World::new(4, 4);
    w.set_cell(1, 1, Cell::Alive);
    w.set_cell(1, 2, Cell::Alive);
    w.set_cell(2, 1, Cell::Alive);
    w.set_cell(2, 2, Cell::Alive);
    assert_eq!(w.export_rle(), "#R -1 -1\nx = 2, y = 2\n2o$2o!");
}

#[test]
fn export_collapses_interior_dead_runs() {
    let mut w = World::new(8, 8);
    w.set_cell(3, 1, Cell::Alive);
    w.set_cell(3, 4, Cell::Alive);
    // One row: alive, two dead, alive; the dead run is written, the
    // row has no trailing dead run.
    assert_eq!(w.export_rle(), "#R -3 -1\nx = 4, y = 1\n1o2b1o!");
}

#[test]
fn still_life_round_trips_through_rle_text() {
    let mut w = World::new(10, 10);
    for (r, c) in [(4, 4), (4, 5), (5, 4), (5, 5)] {
        w.set_cell(r, c, Cell::Alive);
    }
    let text = w.export_rle();
    let mut fresh = World::new(10, 10);
    assert!(fresh.load_string(text).is_ok());
    assert_eq!(alive_indices(&fresh), alive_indices(&w));
    // A still life: the reloaded grid is stable under ticking too.
    fresh.tick();
    assert_eq!(alive_indices(&fresh), alive_indices(&w));
}

#[test]
fn glider_round_trips_through_rle_text() {
    let mut w = World::new(12, 12);
    for (r, c) in [(2, 3), (3, 4), (4, 2), (4, 3), (4, 4)] {
        w.set_cell(r, c, Cell::Alive);
    }
    let text = w.export_rle();
    let mut fresh = World::new(12, 12);
    assert!(fresh.load_string(text).is_ok());
    assert_eq!(alive_indices(&fresh), alive_indices(&w));
}

#[test]
fn evolved_pattern_round_trips_and_reexports_identically() {
    let mut w = World::new(20, 20);
    // An R-pentomino, evolved into an irregular mid-flight shape.
    for (r, c) in [(9, 10), (9, 11), (10, 9), (10, 10), (11, 10)] {
        w.set_cell(r, c, Cell::Alive);
    }
    for _ in 0..15 {
        w.tick();
    }
    let text = w.export_rle();
    let mut fresh = World::new(20, 20);
    assert!(fresh.load_string(text.clone()).is_ok());
    assert_eq!(alive_indices(&fresh), alive_indices(&w));
    assert_eq!(fresh.export_rle(), text);
}

#[test]
fn load_without_coordinates_centers_the_pattern() {
    let mut w = World::new(9, 9);
    // A lone alive cell, declared 1x1: lands on the grid center.
    assert!(w.load_string("x = 1, y = 1\no!".to_string()).is_ok());
    assert_eq!(alive_indices(&w), vec![4 * 9 + 4]);
}

#[test]
fn parse_rejects_header_without_y() {
    let mut w = World::new(6, 6);
    let r = w.load_string("x = 3\n!".to_string());
    assert!(r.is_err());
    assert_eq!(alive_indices(&w), Vec::<usize>::new());
    assert_eq!(w.changed_cells_len(), 0);
}

#[test]
fn parse_rejects_bad_body_character() {
    let mut w = World::new(6, 6);
    let r = w.load_string("x = 3, y = 1\nzoo!".to_string());
    assert!(r.is_err());
    assert_eq!(alive_indices(&w), Vec::<usize>::new());
}

#[test]
fn parse_rejects_missing_terminator() {
    let mut w = World::new(6, 6);
    let r = w.load_string("x = 3, y = 1\n3o".to_string());
    assert!(r.is_err());
    assert_eq!(alive_indices(&w), Vec::<usize>::new());
}

#[test]
fn load_string_places_runs_and_advances_rows() {
    let mut w = World::new(8, 8);
    // Anchored explicitly at the top-left corner of the grid.
    let text = "#R -4 -4\nx = 3, y = 2\n2ob$3o!";
    assert!(w.load_string(text.to_string()).is_ok());
    let expected: Vec<usize> = vec![0, 1, 8, 9, 10];
    assert_eq!(alive_indices(&w), expected);
}

#[test]
fn plaintext_loads_rows_of_dots_and_os() {
    let mut w = World::new(6, 6);
    let r = w.load_plaintext(1, 1, ".o.\n.O.\n.o.");
    assert!(r.is_ok());
    assert_eq!(alive_indices(&w), vec![1 * 6 + 2, 2 * 6 + 2, 3 * 6 + 2]);
    // Every visited cell was recorded for the renderer.
    assert_eq!(w.changed_cells_len(), 9);
}

#[test]
fn plaintext_rejects_bad_characters_fast() {
    let mut w = World::new(6, 6);
    w.set_cell(0, 0, Cell::Alive);
    let before = alive_indices(&w);
    assert_eq!(
        w.load_plaintext(0, 0, ".o.\n.x.\n.o."),
        Err(PlaintextError::BadCharacter)
    );
    assert_eq!(alive_indices(&w), before);
}

#[test]
fn plaintext_rejects_ragged_rows() {
    let mut w = World::new(6, 6);
    assert_eq!(
        w.load_plaintext(0, 0, "..o\noo"),
        Err(PlaintextError::RaggedRows)
    );
    assert_eq!(alive_indices(&w), Vec::<usize>::new());
}
