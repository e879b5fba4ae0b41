use gridgrow::{Group, Square};

/// Grow `g` by exactly the cell `target`, which must be on the frontier.
fn force_cell(g: &mut Group, target: Square) {
    let f = g.surrounding_squares();
    let mut idx = None;
    for (i, s) in f.iter().enumerate() {
        if *s == target {
            idx = Some(i);
        }
    }
    g.grow_step(idx.expect("target cell is not on the frontier"));
}

#[test]
fn single_cell_renders_as_two_blank_lines() {
    let g = Group::new();
    let lines = g.render_grid();
    assert_eq!(lines, vec!["    ".to_string(), "    ".to_string()]);
}

#[test]
fn l_shape_renders_with_one_brick() {
    let mut g = Group::new();
    force_cell(&mut g, Square { x: 1, y: 0 });
    force_cell(&mut g, Square { x: 1, y: 1 });
    // Bounding box: x in 0..=1, y in 0..=1. Row y = 0 is fully occupied;
    // in row y = 1 only (0, 1) is empty and shows the brick glyphs.
    let lines = g.render_grid();
    assert_eq!(
        lines,
        vec![
            "        ".to_string(),
            "        ".to_string(),
            "▐▀▀▌    ".to_string(),
            "▐▄▄▌    ".to_string(),
        ]
    );
}

#[test]
fn horizontal_pair_renders_as_one_wide_blank_row() {
    let mut g = Group::new();
    force_cell(&mut g, Square { x: -1, y: 0 });
    let lines = g.render_grid();
    assert_eq!(lines, vec!["        ".to_string(), "        ".to_string()]);
}

#[test]
fn line_count_is_twice_the_row_count() {
    let mut g = Group::new();
    force_cell(&mut g, Square { x: 0, y: 1 });
    force_cell(&mut g, Square { x: 0, y: 2 });
    let lines = g.render_grid();
    assert_eq!(lines.len(), 6);
    for line in &lines {
        assert_eq!(line.chars().count(), 4);
    }
}
