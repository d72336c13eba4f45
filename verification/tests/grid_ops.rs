use dungeon::grid::{connect_rooms, Cell, Grid, GRID_SIZE};
use dungeon::util::{Rect, Vec2};

#[test]
fn new_grid_is_all_walls() {
    let g = Grid::new();
    assert_eq!(g.size(), (GRID_SIZE, GRID_SIZE));
    for y in 0..GRID_SIZE {
        for x in 0..GRID_SIZE {
            assert_eq!(*g.get(x, y), Cell::Wall);
            assert!(!g.walkable(x, y));
        }
    }
    assert_eq!(g.first(), None);
    assert_eq!(g.last(), None);
}

#[test]
fn put_and_get_round_trip() {
    let mut g = Grid::new();
    g.put(Cell::Coin, 5, 7);
    assert_eq!(*g.get(5, 7), Cell::Coin);
    assert!(g.walkable(5, 7));
    assert_eq!(*g.get(7, 5), Cell::Wall);
}

#[test]
fn cell_walkable_is_everything_but_wall() {
    assert!(Cell::Blank.walkable());
    assert!(Cell::Coin.walkable());
    assert!(Cell::DPath.walkable());
    assert!(Cell::APath.walkable());
    assert!(Cell::BothPath.walkable());
    assert!(!Cell::Wall.walkable());
}

#[test]
fn cell_characters() {
    assert_eq!(Cell::Blank.as_char(), '.');
    assert_eq!(Cell::Wall.as_char(), 'X');
    assert_eq!(Cell::Coin.as_char(), 'o');
    assert_eq!(Cell::DPath.as_char(), '-');
    assert_eq!(Cell::APath.as_char(), '_');
    assert_eq!(Cell::BothPath.as_char(), '+');
}

#[test]
fn vert_line_spans_either_order() {
    let mut g = Grid::new();
    g.put_vert_line(3, 9, 5, Cell::Blank);
    for y in 5..=9 {
        assert_eq!(*g.get(3, y), Cell::Blank);
    }
    assert_eq!(*g.get(3, 4), Cell::Wall);
    assert_eq!(*g.get(3, 10), Cell::Wall);
    assert_eq!(*g.get(2, 7), Cell::Wall);
}

#[test]
fn hor_line_spans_either_order() {
    let mut g = Grid::new();
    g.put_hor_line(8, 2, 4, Cell::Coin);
    for x in 4..=8 {
        assert_eq!(*g.get(x, 2), Cell::Coin);
    }
    assert_eq!(*g.get(3, 2), Cell::Wall);
    assert_eq!(*g.get(9, 2), Cell::Wall);
}

#[test]
fn put_box_fills_inclusive() {
    let mut g = Grid::new();
    let r = Rect { left: 2, top: 3, right: 4, bottom: 5 };
    g.put_box(&r);
    for y in 3..=5 {
        for x in 2..=4 {
            assert_eq!(*g.get(x, y), Cell::Blank);
        }
    }
    assert_eq!(*g.get(1, 3), Cell::Wall);
    assert_eq!(*g.get(5, 3), Cell::Wall);
    assert_eq!(*g.get(2, 2), Cell::Wall);
    assert_eq!(*g.get(2, 6), Cell::Wall);
}

#[test]
fn first_and_last_scan_row_major() {
    let mut g = Grid::new();
    g.put(Cell::Blank, 9, 4);
    g.put(Cell::Blank, 2, 4);
    g.put(Cell::Blank, 5, 11);
    assert_eq!(g.first(), Some(Vec2 { x: 2, y: 4 }));
    assert_eq!(g.last(), Some(Vec2 { x: 5, y: 11 }));
}

#[test]
fn full_box_first_and_last_corners() {
    let mut g = Grid::new();
    g.put_box(&Rect { left: 0, top: 0, right: GRID_SIZE - 1, bottom: GRID_SIZE - 1 });
    assert_eq!(g.first(), Some(Vec2 { x: 0, y: 0 }));
    assert_eq!(g.last(), Some(Vec2 { x: GRID_SIZE - 1, y: GRID_SIZE - 1 }));
}

#[test]
fn clear_resets_to_walls() {
    let mut g = Grid::new();
    g.put_box(&Rect { left: 1, top: 1, right: 6, bottom: 6 });
    g.clear();
    assert_eq!(g.first(), None);
}

#[test]
fn connect_rooms_carves_l_corridor() {
    let mut g = Grid::new();
    let p = Rect { left: 0, top: 0, right: 4, bottom: 4 };
    let q = Rect { left: 10, top: 10, right: 14, bottom: 14 };
    connect_rooms(&mut g, &p, &q);
    // horizontal leg at p's center row, then vertical leg at q's center column
    for x in 2..=12 {
        assert_eq!(*g.get(x, 2), Cell::Blank);
    }
    for y in 2..=12 {
        assert_eq!(*g.get(12, y), Cell::Blank);
    }
    assert_eq!(*g.get(1, 2), Cell::Wall);
    assert_eq!(*g.get(12, 13), Cell::Wall);
}
