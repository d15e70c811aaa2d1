use wasteland_tactics::battle::{Battle, Side, UnitId};
use wasteland_tactics::grid::{CoverSides, GridPos};
use wasteland_tactics::map::{grid_from_tiled, spawns_from_tiled, MapData, SpawnPoint, TileLayer, TileProps};

fn props(walkable: Option<bool>, blocks_sight: Option<bool>, cover: Option<&str>) -> Option<TileProps> {
    Some(TileProps { walkable, blocks_sight, cover: cover.map(|s| s.to_string()) })
}

/// A 3x2 map: a ground layer, then a wall in the top-left and a sandbag in the bottom-right.
fn sample() -> MapData {
    let ground = TileLayer { tiles: (0..6).map(|_| props(Some(true), Some(false), None)).collect() };
    let mut upper = Vec::new();
    upper.push(props(Some(false), Some(true), None)); // column 0, top row
    for _ in 0..4 {
        upper.push(None);
    }
    upper.push(props(None, None, Some("n,s"))); // column 2, bottom row
    MapData {
        width: 3,
        height: 2,
        layers: vec![ground, TileLayer { tiles: upper }],
        spawns: vec![
            SpawnPoint { column: 0, row: 1, faction: Some("player".to_string()) },
            SpawnPoint { column: 1, row: 0, faction: Some("neutral".to_string()) },
            SpawnPoint { column: 2, row: 0, faction: Some("enemy".to_string()) },
            SpawnPoint { column: 1, row: 1, faction: None },
        ],
    }
}

#[test]
fn later_layers_override_earlier_ones() {
    let g = grid_from_tiled(&sample());
    assert_eq!((g.width(), g.height()), (3, 2));
    assert!(!g.is_walkable(GridPos::new(0, 1)));
    assert!(g.get(GridPos::new(0, 1)).unwrap().blocks_sight);
    assert!(g.is_walkable(GridPos::new(0, 0)));
    let sandbag = g.get(GridPos::new(2, 0)).unwrap();
    assert!(sandbag.walkable && !sandbag.blocks_sight);
    assert_eq!(sandbag.cover, CoverSides { n: true, s: true, ..Default::default() });
}

#[test]
fn only_player_and_enemy_objects_spawn_with_rows_flipped() {
    let spawns = spawns_from_tiled(&sample());
    assert_eq!(
        spawns,
        vec![(Side::Player, GridPos::new(0, 0)), (Side::Enemy, GridPos::new(2, 1))]
    );
}

#[test]
fn a_battle_from_a_map_numbers_units_in_map_order() {
    let b = Battle::from_tiled(&sample(), 7);
    assert_eq!(b.units().len(), 2);
    assert_eq!(b.unit(UnitId(0)).unwrap().side, Side::Player);
    assert_eq!(b.unit(UnitId(1)).unwrap().pos, GridPos::new(2, 1));
    assert_eq!(b.turn_number(), 1);
    assert!(!b.grid().is_walkable(GridPos::new(0, 1)));
}

#[test]
fn an_empty_map_is_all_floor() {
    let m = MapData { width: 2, height: 2, layers: vec![], spawns: vec![] };
    let g = grid_from_tiled(&m);
    assert!(g.is_walkable(GridPos::new(1, 1)));
    assert!(spawns_from_tiled(&m).is_empty());
}

/// The mission map as `tools/gen_map.py` lays it out: a ground layer of floor tiles, a
/// walls layer (`#` wall, `=` sandbag sheltering north/south, `|` sandbag sheltering
/// east/west) and a spawn object at the centre of every `P` and `E`. First line is the top row.
const MISSION01: &str = "\
####################
#..................#
#......#........E..#
#......#....=...E..#
#......#.......E...#
#..........###.....#
#..|...............#
#..|.......#.......#
#..........#...=...#
#....###...#.......#
#..................#
#.........|........#
#..P.P.............#
#..P.P.............#
####################";

/// What the tileset gives each tile: ground, wall, sandbag, rotated sandbag.
fn tileset(c: char) -> Option<TileProps> {
    match c {
        '.' => props(Some(true), None, None),
        '#' => props(Some(false), Some(true), None),
        '=' => props(Some(true), None, Some("ns")),
        '|' => props(Some(true), None, Some("ew")),
        _ => None,
    }
}

fn mission01() -> MapData {
    let rows: Vec<&str> = MISSION01.lines().collect();
    let (w, h) = (rows[0].len() as u32, rows.len() as u32);
    let ground = TileLayer { tiles: (0..w * h).map(|_| tileset('.')).collect() };
    let walls = TileLayer {
        tiles: rows
            .iter()
            .flat_map(|r| r.chars())
            .map(|c| if "#=|".contains(c) { tileset(c) } else { None })
            .collect(),
    };
    let mut spawns = Vec::new();
    for (y, row) in rows.iter().enumerate() {
        for (x, c) in row.chars().enumerate() {
            let faction = match c {
                'P' => "player",
                'E' => "enemy",
                _ => continue,
            };
            spawns.push(SpawnPoint { column: x as i32, row: y as i32, faction: Some(faction.to_string()) });
        }
    }
    MapData { width: w, height: h, layers: vec![ground, walls], spawns }
}

#[test]
fn grid_matches_the_generated_layout() {
    let grid = grid_from_tiled(&mission01());
    assert_eq!((grid.width(), grid.height()), (20, 15));
    assert!(
        !grid.is_walkable(GridPos::new(0, 0)),
        "bottom-left corner is wall"
    );
    assert!(
        !grid.is_walkable(GridPos::new(19, 14)),
        "top-right corner is wall"
    );
    assert!(grid.is_walkable(GridPos::new(1, 1)));
    assert!(grid.get(GridPos::new(0, 0)).unwrap().blocks_sight);
    // '=' on ASCII row 3 (from top), column 12 -> y = 14 - 3 = 11
    let sandbag = grid.get(GridPos::new(12, 11)).unwrap();
    assert!(sandbag.walkable && !sandbag.blocks_sight);
    assert_eq!(
        sandbag.cover,
        CoverSides {
            n: true,
            s: true,
            ..Default::default()
        }
    );
    // '|' on row 6, column 3 -> y = 8
    assert_eq!(
        grid.get(GridPos::new(3, 8)).unwrap().cover,
        CoverSides {
            e: true,
            w: true,
            ..Default::default()
        }
    );
}

#[test]
fn spawns_come_from_the_object_layer() {
    let spawns = spawns_from_tiled(&mission01());
    let players = spawns.iter().filter(|(s, _)| *s == Side::Player).count();
    let enemies = spawns.iter().filter(|(s, _)| *s == Side::Enemy).count();
    assert_eq!((players, enemies), (4, 3));
    // 'P' on ASCII row 12, column 3 -> (3, 2)
    assert!(spawns.contains(&(Side::Player, GridPos::new(3, 2))));
    // 'E' on row 2, column 16 -> (16, 12)
    assert!(spawns.contains(&(Side::Enemy, GridPos::new(16, 12))));
}
