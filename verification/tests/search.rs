use dungeon::algs::{heuristic, pf_a_star, farthest};
use dungeon::dissector::Dissector;
use dungeon::grid::{connect_rooms, Cell, Grid};
use dungeon::pf::pf_dijkstra;
use dungeon::util::{Rect, Vec2};

const INF: u16 = 0xFFFF;

fn v(x: u16, y: u16) -> Vec2 {
    Vec2 { x, y }
}

fn cost_of(path: &[Vec2]) -> u32 {
    let mut total = 0u32;
    for w in path.windows(2) {
        let dx = w[0].x != w[1].x;
        let dy = w[0].y != w[1].y;
        total += if dx && dy { 14 } else { 10 };
    }
    total
}

#[test]
fn heuristic_is_scaled_chebyshev() {
    assert_eq!(heuristic(v(0, 0), v(3, 5)), 50);
    assert_eq!(heuristic(v(5, 3), v(0, 0)), 50);
    assert_eq!(heuristic(v(2, 2), v(2, 2)), 0);
}

#[test]
fn a_star_trivial_diagonal() {
    // a 3x3 fully walkable block: the corner-to-corner cost is two
    // diagonal steps, and the path is the exact diagonal
    let mut g = Grid::new();
    g.put_box(&Rect { left: 0, top: 0, right: 2, bottom: 2 });
    let (path, cost) = pf_a_star(&g, v(0, 0), v(2, 2));
    assert_eq!(cost, 28);
    assert_eq!(path, vec![v(2, 2), v(1, 1), v(0, 0)]);
}

#[test]
fn a_star_same_cell_is_free() {
    let mut g = Grid::new();
    g.put_box(&Rect { left: 0, top: 0, right: 2, bottom: 2 });
    let (path, cost) = pf_a_star(&g, v(1, 1), v(1, 1));
    assert_eq!(cost, 0);
    assert_eq!(path, vec![v(1, 1)]);
}

#[test]
fn a_star_unreachable_gives_sentinel() {
    // two rooms with no corridor between them
    let mut g = Grid::new();
    g.put_box(&Rect { left: 0, top: 0, right: 2, bottom: 2 });
    g.put_box(&Rect { left: 10, top: 10, right: 12, bottom: 12 });
    let (path, cost) = pf_a_star(&g, v(0, 0), v(11, 11));
    assert_eq!(cost, INF);
    assert!(path.is_empty());
}

#[test]
fn a_star_unwalkable_goal_gives_sentinel() {
    let mut g = Grid::new();
    g.put_box(&Rect { left: 0, top: 0, right: 2, bottom: 2 });
    let (path, cost) = pf_a_star(&g, v(0, 0), v(30, 30));
    assert_eq!(cost, INF);
    assert!(path.is_empty());
}

#[test]
fn farthest_on_straight_corridor() {
    // a 1x10 walkable row: the far end lies 9 orthogonal steps away
    let mut g = Grid::new();
    g.put_hor_line(0, 0, 9, Cell::Blank);
    let (path, cost) = farthest(&g, v(0, 0));
    assert_eq!(cost, 90);
    assert_eq!(path.len(), 10);
    assert_eq!(path[0], v(9, 0));
    assert_eq!(path[9], v(0, 0));
}

#[test]
fn farthest_never_leaves_the_component() {
    let mut g = Grid::new();
    g.put_box(&Rect { left: 0, top: 0, right: 2, bottom: 2 });
    g.put_box(&Rect { left: 10, top: 10, right: 20, bottom: 20 });
    let (path, cost) = farthest(&g, v(0, 0));
    // the larger, farther room is walled off; the probe stays in the 3x3 one
    assert_eq!(cost, 28);
    let far = path[0];
    assert!(far.x <= 2 && far.y <= 2);
}

#[test]
fn cost_model_consistency_corridor() {
    let mut g = Grid::new();
    g.put_hor_line(0, 0, 9, Cell::Blank);
    let (dpath, dcost) = farthest(&g, v(0, 0));
    let (apath, acost) = pf_a_star(&g, v(0, 0), dpath[0]);
    assert_eq!(acost, dcost);
    assert_eq!(cost_of(&apath), acost as u32);
}

#[test]
fn cost_model_consistency_l_bend() {
    let mut g = Grid::new();
    g.put_hor_line(0, 5, 5, Cell::Blank);
    g.put_vert_line(5, 0, 5, Cell::Blank);
    let (dpath, dcost) = farthest(&g, v(0, 5));
    let (apath, acost) = pf_a_star(&g, v(0, 5), dpath[0]);
    assert_eq!(acost, dcost);
    assert_eq!(cost_of(&apath), acost as u32);
    assert_eq!(cost_of(&dpath), dcost as u32);
}

#[test]
fn cost_model_consistency_open_room() {
    let mut g = Grid::new();
    g.put_box(&Rect { left: 0, top: 0, right: 7, bottom: 5 });
    let (dpath, dcost) = farthest(&g, v(3, 2));
    let (apath, acost) = pf_a_star(&g, v(3, 2), dpath[0]);
    assert_eq!(acost, dcost);
    assert_eq!(cost_of(&apath), acost as u32);
}

#[test]
fn dijkstra_matches_a_star_cost() {
    let mut g = Grid::new();
    g.put_hor_line(0, 5, 5, Cell::Blank);
    g.put_vert_line(5, 0, 5, Cell::Blank);
    let dpath = pf_dijkstra(&g, v(0, 5), v(5, 0));
    let (_, acost) = pf_a_star(&g, v(0, 5), v(5, 0));
    assert_eq!(dpath[0], v(5, 0));
    assert_eq!(*dpath.last().unwrap(), v(0, 5));
    assert_eq!(cost_of(&dpath), acost as u32);
}

#[test]
fn dijkstra_unreachable_gives_empty() {
    let mut g = Grid::new();
    g.put_box(&Rect { left: 0, top: 0, right: 2, bottom: 2 });
    g.put_box(&Rect { left: 10, top: 10, right: 12, bottom: 12 });
    let path = pf_dijkstra(&g, v(0, 0), v(11, 11));
    assert!(path.is_empty());
}

#[test]
fn search_avoids_walls() {
    // a wall column with one gap: the path must squeeze through it
    let mut g = Grid::new();
    g.put_box(&Rect { left: 0, top: 0, right: 10, bottom: 10 });
    g.put_vert_line(5, 0, 10, Cell::Wall);
    g.put(Cell::Blank, 5, 10);
    let (path, cost) = pf_a_star(&g, v(0, 0), v(10, 0));
    assert_ne!(cost, INF);
    for p in &path {
        assert!(g.walkable(p.x, p.y));
    }
    // down to the gap, across, and back up: far beyond the straight line
    assert!(cost > 100);
    assert_eq!(cost_of(&path), cost as u32);
}

#[test]
fn full_generation_cycle_connects_rooms() {
    let mut g = Grid::new();
    let d = Dissector::new_seeded(Rect { left: 1, top: 1, right: 62, bottom: 62 }, 11);
    let mut it = d.rooms(25);
    if let Some(first) = it.next() {
        g.put_box(&first);
        let mut prev = first;
        while let Some(r) = it.next() {
            connect_rooms(&mut g, &prev, &r);
            g.put_box(&r);
            prev = r;
        }
    }
    let start = g.first().unwrap();
    let (dpath, dcost) = farthest(&g, start);
    let (apath, acost) = pf_a_star(&g, start, dpath[0]);
    assert_eq!(acost, dcost);
    assert_eq!(cost_of(&apath), acost as u32);
    assert_eq!(cost_of(&dpath), dcost as u32);
    assert_eq!(apath[0], dpath[0]);
}
