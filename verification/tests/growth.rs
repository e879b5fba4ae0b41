use gridgrow::{add_random, grow, grow_with_choices, Group, Square};

/// The frontier cells of `g`, as a plain vector.
fn frontier_of(g: &Group) -> Vec<Square> {
    g.surrounding_squares()
}

/// Grow `g` by exactly the cell `target`, which must be on the frontier.
fn force_cell(g: &mut Group, target: Square) {
    let f = g.surrounding_squares();
    let mut idx = None;
    for (i, s) in f.iter().enumerate() {
        if *s == target {
            idx = Some(i);
        }
    }
    g.grow_step(idx.expect("target cell is not on the frontier"));
}

fn occupied_cells(g: &Group) -> Vec<Square> {
    let mut v = Vec::new();
    for i in 0..g.len() {
        v.push(g.square_at(i));
    }
    v
}

#[test]
fn new_group_holds_only_the_origin() {
    let g = Group::new();
    assert_eq!(g.len(), 1);
    assert!(g.contains_square(Square { x: 0, y: 0 }));
    assert!(!g.contains_square(Square { x: 1, y: 0 }));
}

#[test]
fn frontier_of_origin_is_the_four_neighbors() {
    let g = Group::new();
    let f = frontier_of(&g);
    assert_eq!(f.len(), 4);
    for c in [
        Square { x: 1, y: 0 },
        Square { x: -1, y: 0 },
        Square { x: 0, y: 1 },
        Square { x: 0, y: -1 },
    ] {
        assert!(f.contains(&c), "missing frontier cell ({}, {})", c.x, c.y);
    }
}

#[test]
fn forced_step_right_gives_six_frontier_cells() {
    let mut g = Group::new();
    force_cell(&mut g, Square { x: 1, y: 0 });
    assert_eq!(g.len(), 2);
    assert!(g.contains_square(Square { x: 0, y: 0 }));
    assert!(g.contains_square(Square { x: 1, y: 0 }));
    let f = frontier_of(&g);
    assert_eq!(f.len(), 6);
    for c in [
        Square { x: 2, y: 0 },
        Square { x: 1, y: 1 },
        Square { x: 1, y: -1 },
        Square { x: -1, y: 0 },
        Square { x: 0, y: 1 },
        Square { x: 0, y: -1 },
    ] {
        assert!(f.contains(&c), "missing frontier cell ({}, {})", c.x, c.y);
    }
    assert!(!f.contains(&Square { x: 0, y: 0 }));
    assert!(!f.contains(&Square { x: 1, y: 0 }));
}

#[test]
fn each_random_step_adds_exactly_one_cell() {
    let mut g = Group::new();
    add_random(&mut g);
    assert_eq!(g.len(), 2);
    add_random(&mut g);
    assert_eq!(g.len(), 3);
}

#[test]
fn n_growth_steps_give_n_plus_one_distinct_cells() {
    let mut g = Group::new();
    grow(&mut g, 40);
    assert_eq!(g.len(), 41);
    let cells = occupied_cells(&g);
    for (i, a) in cells.iter().enumerate() {
        for b in cells.iter().skip(i + 1) {
            assert_ne!(a, b, "duplicate cell ({}, {})", a.x, a.y);
        }
    }
}

#[test]
fn grown_shape_stays_connected_to_the_origin() {
    let mut g = Group::new();
    grow(&mut g, 60);
    // Flood out from the origin along axis-adjacent occupied cells.
    let cells = occupied_cells(&g);
    let mut reached = vec![Square { x: 0, y: 0 }];
    loop {
        let mut grew = false;
        for c in &cells {
            if reached.contains(c) {
                continue;
            }
            let touches = reached.iter().any(|r| {
                (r.x - c.x).abs() + (r.y - c.y).abs() == 1
            });
            if touches {
                reached.push(*c);
                grew = true;
            }
        }
        if !grew {
            break;
        }
    }
    assert_eq!(reached.len(), cells.len(), "some cell is cut off from the origin");
}

#[test]
fn frontier_never_meets_the_occupied_set() {
    let mut g = Group::new();
    grow(&mut g, 30);
    let f = frontier_of(&g);
    for c in &f {
        assert!(!g.contains_square(*c), "frontier cell ({}, {}) is occupied", c.x, c.y);
    }
}

#[test]
fn bounding_box_is_tight_on_a_forced_l_shape() {
    let mut g = Group::new();
    force_cell(&mut g, Square { x: 1, y: 0 });
    force_cell(&mut g, Square { x: 1, y: 1 });
    assert_eq!(g.min_x(), 0);
    assert_eq!(g.max_x(), 1);
    assert_eq!(g.min_y(), 0);
    assert_eq!(g.max_y(), 1);
    let rx = g.range_x();
    let ry = g.range_y();
    assert_eq!(rx.start, 0);
    assert_eq!(rx.end, 2);
    assert_eq!(ry.start, 0);
    assert_eq!(ry.end, 2);
}

#[test]
fn bounding_box_bounds_every_cell() {
    let mut g = Group::new();
    grow(&mut g, 50);
    let (lo_x, hi_x, lo_y, hi_y) = (g.min_x(), g.max_x(), g.min_y(), g.max_y());
    let mut hit_lo_x = false;
    let mut hit_hi_x = false;
    let mut hit_lo_y = false;
    let mut hit_hi_y = false;
    for c in occupied_cells(&g) {
        assert!(lo_x <= c.x && c.x <= hi_x);
        assert!(lo_y <= c.y && c.y <= hi_y);
        hit_lo_x |= c.x == lo_x;
        hit_hi_x |= c.x == hi_x;
        hit_lo_y |= c.y == lo_y;
        hit_hi_y |= c.y == hi_y;
    }
    assert!(hit_lo_x && hit_hi_x && hit_lo_y && hit_hi_y, "bounding box is not tight");
}

#[test]
fn same_choices_grow_the_same_shape() {
    let choices: Vec<usize> = vec![0, 3, 1, 4, 2, 7, 5, 0, 6, 3];
    let mut a = Group::new();
    let mut b = Group::new();
    grow_with_choices(&mut a, &choices);
    grow_with_choices(&mut b, &choices);
    assert_eq!(occupied_cells(&a), occupied_cells(&b));
    assert_eq!(a.render_grid(), b.render_grid());
}

#[test]
fn random_surrounding_square_lies_on_the_frontier() {
    let mut g = Group::new();
    grow(&mut g, 12);
    let f = frontier_of(&g);
    for _ in 0..20 {
        let c = g.random_surrounding_square();
        assert!(f.contains(&c), "({}, {}) is not a frontier cell", c.x, c.y);
        assert!(!g.contains_square(c));
    }
}
