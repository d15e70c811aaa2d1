use wasteland_tactics::grid;
use wasteland_tactics::grid::{CoverSides, Grid, GridPos};

#[test]
fn ascii_first_line_is_top_row() {
    let g = Grid::from_ascii("#..\n...");
    assert_eq!((g.width(), g.height()), (3, 2));
    assert!(
        !g.is_walkable(GridPos::new(0, 1)),
        "wall is on the top row (y=1)"
    );
    assert!(g.is_walkable(GridPos::new(0, 0)));
    assert!(
        !g.is_walkable(GridPos::new(5, 5)),
        "out of bounds is not walkable"
    );
}

#[test]
fn ascii_cover_glyphs() {
    let g = Grid::from_ascii("^>v<");
    assert_eq!(
        g.get(GridPos::new(0, 0)).unwrap().cover,
        CoverSides {
            n: true,
            ..Default::default()
        }
    );
    assert_eq!(
        g.get(GridPos::new(1, 0)).unwrap().cover,
        CoverSides {
            e: true,
            ..Default::default()
        }
    );
    assert_eq!(
        g.get(GridPos::new(2, 0)).unwrap().cover,
        CoverSides {
            s: true,
            ..Default::default()
        }
    );
    assert_eq!(
        g.get(GridPos::new(3, 0)).unwrap().cover,
        CoverSides {
            w: true,
            ..Default::default()
        }
    );
    assert!(
        g.is_walkable(GridPos::new(0, 0)),
        "cover tiles are walkable"
    );
    assert!(!g.get(GridPos::new(0, 0)).unwrap().blocks_sight);
}

#[test]
fn chebyshev_distance() {
    assert_eq!(GridPos::new(0, 0).distance(GridPos::new(3, -2)), 3);
}

#[test]
fn cover_sides_parse() {
    assert_eq!(
        CoverSides::parse("n,e"),
        CoverSides {
            n: true,
            e: true,
            ..Default::default()
        }
    );
    assert_eq!(
        CoverSides::parse("sw"),
        CoverSides {
            s: true,
            w: true,
            ..Default::default()
        }
    );
    assert!(!CoverSides::parse("xyz").any());
}

#[test]
fn bresenham_line_is_inclusive_and_connected() {
    let l = grid::line(GridPos::new(0, 0), GridPos::new(4, 2));
    assert_eq!(l.first(), Some(&GridPos::new(0, 0)));
    assert_eq!(l.last(), Some(&GridPos::new(4, 2)));
    assert_eq!(l.len(), 5, "one cell per x step on a shallow line");
    for w in l.windows(2) {
        assert_eq!(
            w[0].distance(w[1]),
            1,
            "consecutive cells are king-adjacent"
        );
    }
    assert_eq!(
        grid::line(GridPos::new(2, 2), GridPos::new(2, 2)),
        vec![GridPos::new(2, 2)]
    );
}

#[test]
fn walls_block_sight_but_cover_does_not() {
    let g = Grid::from_ascii(".#.\n...\n.^.");
    // top row y=2: (0,2) . (1,2) # (2,2) .
    assert!(
        !g.has_line_of_sight(GridPos::new(0, 2), GridPos::new(2, 2)),
        "wall between"
    );
    assert!(
        g.has_line_of_sight(GridPos::new(0, 0), GridPos::new(2, 0)),
        "cover between"
    );
    assert!(g.has_line_of_sight(GridPos::new(0, 1), GridPos::new(2, 1)));
    assert!(
        g.has_line_of_sight(GridPos::new(0, 2), GridPos::new(1, 2)),
        "endpoints never block"
    );
}

#[test]
fn cover_is_directional() {
    let g = Grid::from_ascii("...\n.^.\n...");
    let target = GridPos::new(1, 1); // sheltered on its north side
    assert!(
        g.cover_against(target, GridPos::new(1, 2)),
        "shot from north"
    );
    assert!(
        !g.cover_against(target, GridPos::new(1, 0)),
        "shot from south"
    );
    assert!(
        !g.cover_against(target, GridPos::new(0, 1)),
        "shot from west"
    );
    assert!(
        g.cover_against(target, GridPos::new(0, 2)),
        "diagonal from north-west crosses the north side"
    );
    assert!(
        !g.cover_against(GridPos::new(0, 0), GridPos::new(2, 2)),
        "plain floor gives no cover"
    );
}

#[test]
fn path_straight_corridor() {
    let g = Grid::from_ascii("#####\n#...#\n#####");
    let p = g.find_path(GridPos::new(1, 1), GridPos::new(3, 1)).unwrap();
    assert_eq!(p, vec![GridPos::new(2, 1), GridPos::new(3, 1)]);
    assert_eq!(
        g.find_path(GridPos::new(1, 1), GridPos::new(1, 1)),
        Some(vec![])
    );
}

#[test]
fn path_goes_around_walls() {
    let g = Grid::from_ascii("...\n.#.\n...");
    let p = g.find_path(GridPos::new(0, 0), GridPos::new(2, 2)).unwrap();
    assert_eq!(p.last(), Some(&GridPos::new(2, 2)));
    assert!(p.iter().all(|c| g.is_walkable(*c)));
    assert_eq!(
        p.len(),
        4,
        "no corner cutting past the centre wall: e.g. (1,0) (2,0) (2,1) (2,2)"
    );
}

#[test]
fn no_corner_cutting() {
    // Moving (0,0)->(1,1) diagonally would squeeze between two walls; must go the long way or fail.
    let g = Grid::from_ascii("#.\n.#");
    assert_eq!(g.find_path(GridPos::new(0, 0), GridPos::new(1, 1)), None);
}

#[test]
fn unreachable_or_unwalkable_goal_is_none() {
    let g = Grid::from_ascii(".#.\n.#.\n.#.");
    assert_eq!(g.find_path(GridPos::new(0, 0), GridPos::new(2, 0)), None);
    assert_eq!(
        g.find_path(GridPos::new(0, 0), GridPos::new(1, 0)),
        None,
        "goal is a wall"
    );
}
