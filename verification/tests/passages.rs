use rogue_gym_core::dungeon::rogue::graph::RoomGraph;
use rogue_gym_core::dungeon::rogue::passages::{
    add_shortcuts, connect_2rooms, dig_passage, dig_passges, door_kind, grid_fits, inclusive_edges,
    select_candidate, select_start_or_end, select_turn, select_unjoined_candidate, span_rooms,
    DigError, RoutingError,
};
use rogue_gym_core::dungeon::rogue::{Room, RoomKind, Surface, TileRange};
use rogue_gym_core::dungeon::{Coord, Direction, Positioned, X, Y};
use rogue_gym_core::fenwick::FenwickSet;
use rogue_gym_core::rng::RngHandle;
use std::collections::VecDeque;
use std::ops::Range;

const CARDINALS: [Direction; 4] =
    [Direction::Up, Direction::Right, Direction::Left, Direction::Down];

const WIDTH: usize = 80;
const HEIGHT: usize = 24;

/// A seed with bits set all over it, so that the first draws already differ
/// from seed to seed.
fn spread(seed: u128) -> u128 {
    (seed + 1).wrapping_mul(0x9E37_79B9_7F4A_7C15_F39C_C060_5CED_C835)
}

fn normal(xs: Range<i32>, ys: Range<i32>) -> Room {
    Room::new(RoomKind::Normal { range: TileRange::from_ranges(xs, ys).unwrap() })
}

/// Nine walled rooms, one in each cell of a grid of three by three cells of
/// 26 by 8 tiles; `shrink` makes every second room smaller.
fn gen(shrink: i32) -> Vec<Room> {
    let mut rooms = Vec::new();
    for cy in 0..3 {
        for cx in 0..3 {
            let s = if (cx + cy) % 2 == 0 { shrink } else { 0 };
            let x0 = cx * 26 + 1 + s;
            let y0 = cy * 8 + 1;
            rooms.push(normal(x0..cx * 26 + 25 - s, y0..cy * 8 + 7));
        }
    }
    rooms
}

fn draw_to_buffer(rooms: &[Room]) -> Vec<Vec<Surface>> {
    let mut buffer = vec![vec![Surface::Blank; WIDTH]; HEIGHT];
    for room in rooms {
        match &room.kind {
            RoomKind::Normal { range } => {
                let (xs, ys) = (range.get_x(), range.get_y());
                for y in ys.clone() {
                    for x in xs.clone() {
                        let surface = if y == ys.start || y == ys.end - 1 {
                            Surface::WallX
                        } else if x == xs.start || x == xs.end - 1 {
                            Surface::WallY
                        } else {
                            Surface::Floor
                        };
                        buffer[y as usize][x as usize] = surface;
                    }
                }
            }
            RoomKind::Maze { range: _, passages } => {
                for cd in passages {
                    buffer[cd.y.0 as usize][cd.x.0 as usize] = Surface::Passage;
                }
            }
            RoomKind::Empty { up_left } => {
                buffer[up_left.y.0 as usize][up_left.x.0 as usize] = Surface::Passage;
            }
        }
    }
    buffer
}

fn to_buffer(rooms: &[Room], seed: u128, max_extra_edges: usize) -> Vec<Vec<Surface>> {
    let mut buffer = draw_to_buffer(rooms);
    let mut rng = RngHandle::from_seed(spread(seed));
    let mut tiles = Vec::new();
    dig_passges(rooms, X(3), Y(3), &mut rng, max_extra_edges, &mut tiles).unwrap();
    for Positioned(cd, surface) in tiles {
        buffer[cd.y.0 as usize][cd.x.0 as usize] = surface;
    }
    buffer
}

fn assert_connected(buffer: &Vec<Vec<Surface>>) {
    let (xlen, ylen) = (buffer[0].len(), buffer.len());
    let mut start = None;
    for y in 0..ylen {
        for x in 0..xlen {
            if start.is_none() && buffer[y][x].can_walk() {
                start = Some((x, y));
            }
        }
    }
    let start = start.unwrap();
    let mut visited = vec![vec![false; xlen]; ylen];
    visited[start.1][start.0] = true;
    let mut queue = VecDeque::new();
    queue.push_back(start);
    while let Some((x, y)) = queue.pop_front() {
        for dir in CARDINALS {
            let d = dir.to_cd();
            let (nx, ny) = (x as i32 + d.x.0, y as i32 + d.y.0);
            if nx < 0 || ny < 0 || nx >= xlen as i32 || ny >= ylen as i32 {
                continue;
            }
            let (nx, ny) = (nx as usize, ny as usize);
            if buffer[ny][nx].can_walk() && !visited[ny][nx] {
                visited[ny][nx] = true;
                queue.push_back((nx, ny));
            }
        }
    }
    for y in 0..ylen {
        for x in 0..xlen {
            if buffer[y][x].can_walk() {
                assert!(visited[y][x]);
            }
        }
    }
}

fn count_pairs(graph: &RoomGraph) -> usize {
    let mut pairs = 0;
    for a in 0..graph.len() {
        for b in a + 1..graph.len() {
            if graph.node(a).is_connected(b) {
                assert!(graph.node(b).is_connected(a));
                pairs += 1;
            }
        }
    }
    pairs
}

#[test]
fn connectivity() {
    let rooms = gen(10);
    for seed in 0..1000 {
        let buffer = to_buffer(&rooms, seed, 5);
        assert_connected(&buffer);
    }
}

#[test]
fn connectivity_with_mazes_and_empty_rooms() {
    let mut rooms = gen(3);
    rooms[4] = Room::new(RoomKind::Empty { up_left: Coord::new(39, 12) });
    rooms[0] = Room::new(RoomKind::Maze {
        range: TileRange::from_ranges(1..25, 1..7).unwrap(),
        passages: vec![Coord::new(12, 3)],
    });
    for seed in 0..200 {
        let buffer = to_buffer(&rooms, seed, 5);
        assert_connected(&buffer);
    }
}

#[test]
fn test_inclusive_edges() {
    let range = TileRange::from_ranges(5..10, 6..9).unwrap();
    let edge_vec = |xfix: bool, fix: i32, range: Range<i32>| -> Vec<Coord> {
        if xfix {
            range.map(|y| Coord::new(fix, y)).collect()
        } else {
            range.map(|x| Coord::new(x, fix)).collect()
        }
    };
    assert_eq!(inclusive_edges(&range, Direction::Down), edge_vec(false, 8, 6..9));
    assert_eq!(inclusive_edges(&range, Direction::Up), edge_vec(false, 6, 6..9));
    assert_eq!(inclusive_edges(&range, Direction::Left), edge_vec(true, 5, 7..8));
    assert_eq!(inclusive_edges(&range, Direction::Right), edge_vec(true, 9, 7..8));
}

#[test]
fn edges_of_a_range_without_room_between_its_corners_are_empty() {
    let range = TileRange::from_ranges(0..2, 0..1).unwrap();
    for d in CARDINALS {
        assert!(inclusive_edges(&range, d).is_empty());
    }
    assert!(TileRange::from_ranges(3..3, 0..4).is_none());
    assert!(TileRange::from_ranges(0..4, 5..2).is_none());
}

#[test]
fn same_seed_lays_the_same_tiles() {
    let rooms = gen(4);
    for seed in [0u128, 1, 77, u128::MAX - 1] {
        let mut first = Vec::new();
        let mut second = Vec::new();
        let mut rng1 = RngHandle::from_seed(spread(seed));
        let mut rng2 = RngHandle::from_seed(spread(seed));
        let g1 = dig_passges(&rooms, X(3), Y(3), &mut rng1, 5, &mut first).unwrap();
        let g2 = dig_passges(&rooms, X(3), Y(3), &mut rng2, 5, &mut second).unwrap();
        assert!(!first.is_empty());
        assert_eq!(first, second);
        for a in 0..9 {
            for b in 0..9 {
                assert_eq!(g1.node(a).is_connected(b), g2.node(a).is_connected(b));
            }
        }
        assert_eq!(rng1.below(1 << 40), rng2.below(1 << 40));
    }
}

#[test]
fn different_seeds_lay_different_tiles() {
    let rooms = gen(4);
    let mut first = Vec::new();
    let mut second = Vec::new();
    dig_passges(&rooms, X(3), Y(3), &mut RngHandle::from_seed(1), 5, &mut first).unwrap();
    dig_passges(&rooms, X(3), Y(3), &mut RngHandle::from_seed(2), 5, &mut second).unwrap();
    assert_ne!(first, second);
}

#[test]
fn no_extra_edges_leaves_a_tree() {
    let rooms = gen(2);
    for seed in 0..100 {
        let mut tiles = Vec::new();
        let mut rng = RngHandle::from_seed(spread(seed));
        let graph = dig_passges(&rooms, X(3), Y(3), &mut rng, 0, &mut tiles).unwrap();
        assert_eq!(graph.len(), 9);
        assert_eq!(count_pairs(&graph), 8);
    }
}

#[test]
fn extra_edges_stay_within_their_bound() {
    let rooms = gen(2);
    let mut more_than_a_tree = false;
    for seed in 0..100 {
        let mut tiles = Vec::new();
        let mut rng = RngHandle::from_seed(spread(seed));
        let graph = dig_passges(&rooms, X(3), Y(3), &mut rng, 5, &mut tiles).unwrap();
        let pairs = count_pairs(&graph);
        assert!(8 <= pairs && pairs <= 12);
        more_than_a_tree = more_than_a_tree || pairs > 8;
        for a in 0..9 {
            for b in 0..9 {
                if graph.node(a).is_connected(b) {
                    assert!(graph.node(a).candidate(b).is_some());
                }
            }
        }
    }
    assert!(more_than_a_tree);
}

#[test]
fn a_single_room_needs_no_passage() {
    let rooms = vec![normal(0..3, 0..1)];
    let mut tiles = Vec::new();
    let mut rng = RngHandle::from_seed(5);
    let graph = dig_passges(&rooms, X(1), Y(1), &mut rng, 3, &mut tiles).unwrap();
    assert_eq!(graph.len(), 1);
    assert_eq!(count_pairs(&graph), 0);
    assert!(tiles.is_empty());
}

#[test]
fn graph_knows_the_neighbours_of_each_room() {
    let graph = RoomGraph::new(X(3), Y(2));
    assert_eq!(graph.len(), 6);
    assert_eq!(graph.node(0).candidate(1), Some(Direction::Right));
    assert_eq!(graph.node(0).candidate(3), Some(Direction::Down));
    assert_eq!(graph.node(0).candidate(2), None);
    assert_eq!(graph.node(0).candidate(4), None);
    assert_eq!(graph.node(2).candidate(3), None);
    assert_eq!(graph.node(3).candidate(2), None);
    assert_eq!(graph.node(4).candidate(1), Some(Direction::Up));
    assert_eq!(graph.node(4).candidate(3), Some(Direction::Left));
    assert_eq!(graph.node(4).candidate(5), Some(Direction::Right));
    assert_eq!(graph.node(4).candidate(4), None);
    assert_eq!(graph.node(5).candidate(6), None);
    for a in 0..6 {
        for b in 0..6 {
            assert!(!graph.node(a).is_connected(b));
        }
    }
}

#[test]
fn connect_is_mutual_and_idempotent() {
    let mut graph = RoomGraph::new(X(2), Y(2));
    graph.connect(0, 1);
    assert!(graph.node(0).is_connected(1));
    assert!(graph.node(1).is_connected(0));
    assert!(!graph.node(0).is_connected(2));
    assert_eq!(count_pairs(&graph), 1);
    graph.connect(0, 1);
    graph.connect(1, 0);
    assert_eq!(count_pairs(&graph), 1);
    graph.connect(1, 3);
    assert_eq!(count_pairs(&graph), 2);
}

#[test]
fn no_candidate_when_all_neighbours_are_selected() {
    let graph = RoomGraph::new(X(3), Y(1));
    let mut selected = FenwickSet::with_capacity(3);
    selected.insert(0);
    selected.insert(1);
    let mut rng = RngHandle::from_seed(9);
    let mut twin = RngHandle::from_seed(9);
    assert_eq!(select_candidate(3, graph.node(0), &selected, &mut rng), None);
    assert_eq!(rng.below(1 << 40), twin.below(1 << 40));
    assert_eq!(
        select_candidate(3, graph.node(1), &selected, &mut rng),
        Some((2, Direction::Right))
    );
    selected.insert(2);
    assert_eq!(select_candidate(3, graph.node(1), &selected, &mut rng), None);
}

#[test]
fn candidates_are_all_drawn() {
    let graph = RoomGraph::new(X(3), Y(3));
    let selected = FenwickSet::with_capacity(9);
    let mut seen = [false; 9];
    for seed in 0..200 {
        let mut rng = RngHandle::from_seed(spread(seed));
        let (to, d) = select_candidate(9, graph.node(4), &selected, &mut rng).unwrap();
        assert_eq!(graph.node(4).candidate(to), Some(d));
        seen[to] = true;
    }
    assert_eq!(seen, [false, true, false, true, false, true, false, true, false]);
}

#[test]
fn unjoined_candidates_leave_out_joined_rooms() {
    let mut graph = RoomGraph::new(X(2), Y(1));
    let mut rng = RngHandle::from_seed(3);
    assert_eq!(
        select_unjoined_candidate(2, graph.node(0), &mut rng),
        Some((1, Direction::Right))
    );
    graph.connect(0, 1);
    assert_eq!(select_unjoined_candidate(2, graph.node(0), &mut rng), None);
    assert_eq!(select_unjoined_candidate(2, graph.node(1), &mut rng), None);
}

#[test]
fn passage_path_down_with_a_turn() {
    let mut tiles = Vec::new();
    dig_passage(Coord::new(3, 1), Coord::new(5, 4), Direction::Down, 2, &mut tiles);
    let path: Vec<Coord> = tiles.iter().map(|t| t.0).collect();
    assert_eq!(
        path,
        vec![
            Coord::new(3, 2),
            Coord::new(4, 2),
            Coord::new(5, 2),
            Coord::new(5, 3),
            Coord::new(5, 4),
        ]
    );
    assert!(tiles.iter().all(|t| t.1 == Surface::Passage));
}

#[test]
fn passage_path_right_turning_up() {
    let mut tiles = Vec::new();
    dig_passage(Coord::new(0, 5), Coord::new(4, 3), Direction::Right, 2, &mut tiles);
    let path: Vec<Coord> = tiles.iter().map(|t| t.0).collect();
    assert_eq!(
        path,
        vec![
            Coord::new(1, 5),
            Coord::new(2, 5),
            Coord::new(2, 4),
            Coord::new(2, 3),
            Coord::new(3, 3),
            Coord::new(4, 3),
        ]
    );
}

#[test]
fn aligned_ends_give_a_straight_passage() {
    let mut tiles = vec![Positioned(Coord::new(9, 9), Surface::Door)];
    dig_passage(Coord::new(7, 0), Coord::new(7, 4), Direction::Down, 3, &mut tiles);
    let path: Vec<Coord> = tiles.iter().map(|t| t.0).collect();
    assert_eq!(
        path,
        vec![
            Coord::new(9, 9),
            Coord::new(7, 1),
            Coord::new(7, 2),
            Coord::new(7, 3),
            Coord::new(7, 4),
        ]
    );
}

#[test]
fn turn_lies_strictly_between_the_ends() {
    for seed in 0..200 {
        let mut rng = RngHandle::from_seed(spread(seed));
        let turn = select_turn(Coord::new(2, 3), Coord::new(9, 7), Direction::Down, &mut rng);
        let turn = turn.unwrap();
        assert!(3 < turn && turn < 7);
        let turn = select_turn(Coord::new(2, 3), Coord::new(9, 7), Direction::Right, &mut rng);
        let turn = turn.unwrap();
        assert!(2 < turn && turn < 9);
    }
    let mut rng = RngHandle::from_seed(1);
    assert_eq!(
        select_turn(Coord::new(0, 3), Coord::new(0, 5), Direction::Down, &mut rng),
        Ok(4)
    );
}

#[test]
fn no_turn_without_a_gap() {
    let mut rng = RngHandle::from_seed(1);
    let (start, end) = (Coord::new(4, 1), Coord::new(5, 1));
    assert_eq!(
        select_turn(start, end, Direction::Right, &mut rng),
        Err(RoutingError { start, end, direction: Direction::Right })
    );
    let (start, end) = (Coord::new(4, 8), Coord::new(5, 1));
    assert_eq!(
        select_turn(start, end, Direction::Down, &mut rng),
        Err(RoutingError { start, end, direction: Direction::Down })
    );
    let (start, end) = (Coord::new(0, i32::MAX), Coord::new(0, i32::MIN));
    assert!(select_turn(start, end, Direction::Down, &mut rng).is_err());
}

#[test]
fn ends_are_doors_in_walls_and_passages_elsewhere() {
    let room = normal(5..10, 6..9);
    let maze = Room::new(RoomKind::Maze {
        range: TileRange::from_ranges(0..4, 0..4).unwrap(),
        passages: vec![Coord::new(1, 1), Coord::new(3, 3)],
    });
    let empty = Room::new(RoomKind::Empty { up_left: Coord::new(7, 7) });
    assert_eq!(door_kind(&room), Surface::Door);
    assert_eq!(door_kind(&maze), Surface::Passage);
    assert_eq!(door_kind(&empty), Surface::Passage);
    let mut drawn = [false; 3];
    for seed in 0..100 {
        let mut rng = RngHandle::from_seed(spread(seed));
        let cd = select_start_or_end(&room, Direction::Down, &mut rng);
        assert_eq!(cd.y.0, 8);
        assert!(6 <= cd.x.0 && cd.x.0 < 9);
        drawn[(cd.x.0 - 6) as usize] = true;
        assert_eq!(select_start_or_end(&room, Direction::Left, &mut rng), Coord::new(5, 7));
        assert_eq!(select_start_or_end(&room, Direction::Right, &mut rng), Coord::new(9, 7));
        let cd = select_start_or_end(&maze, Direction::Up, &mut rng);
        assert!(cd == Coord::new(1, 1) || cd == Coord::new(3, 3));
        for d in CARDINALS {
            assert_eq!(select_start_or_end(&empty, d, &mut rng), Coord::new(7, 7));
        }
    }
    assert_eq!(drawn, [true, true, true]);
}

#[test]
fn passage_up_is_the_passage_down_from_the_other_room() {
    let upper = normal(0..5, 0..4);
    let lower = normal(2..9, 8..12);
    for seed in 0..50 {
        let mut down = Vec::new();
        let mut up = Vec::new();
        let mut rng = RngHandle::from_seed(spread(seed));
        connect_2rooms(&upper, &lower, Direction::Down, &mut rng, &mut down).unwrap();
        let mut rng = RngHandle::from_seed(spread(seed));
        connect_2rooms(&lower, &upper, Direction::Up, &mut rng, &mut up).unwrap();
        assert_eq!(down, up);
        let (start, end) = (down[0], down[1]);
        assert_eq!(start.1, Surface::Door);
        assert_eq!(end.1, Surface::Door);
        assert_eq!(start.0.y.0, 3);
        assert_eq!(end.0.y.0, 8);
        assert!(0 < start.0.x.0 && start.0.x.0 < 4);
        assert!(2 < end.0.x.0 && end.0.x.0 < 8);
        let mut at = start.0;
        for tile in &down[2..] {
            assert_eq!(tile.1, Surface::Passage);
            let step = (tile.0.x.0 - at.x.0).abs() + (tile.0.y.0 - at.y.0).abs();
            assert_eq!(step, 1);
            at = tile.0;
        }
        assert_eq!(at, end.0);
    }
}

#[test]
fn rooms_without_a_gap_cannot_be_joined() {
    let rooms = vec![normal(0..5, 0..3), normal(5..10, 0..3)];
    for seed in 0..20 {
        let mut tiles = Vec::new();
        let mut rng = RngHandle::from_seed(spread(seed));
        let res = dig_passges(&rooms, X(2), Y(1), &mut rng, 0, &mut tiles);
        let cause = RoutingError {
            start: Coord::new(4, 1),
            end: Coord::new(5, 1),
            direction: Direction::Right,
        };
        match res {
            Err(DigError::Routing { from, to, cause: c }) => {
                assert_eq!(c, cause);
                assert!((from, to) == (0, 1) || (from, to) == (1, 0));
            }
            _ => panic!("the rooms touch"),
        }
        assert_eq!(
            tiles,
            vec![
                Positioned(Coord::new(4, 1), Surface::Door),
                Positioned(Coord::new(5, 1), Surface::Door),
            ]
        );
    }
}

#[test]
fn walk_without_patience_stalls_at_a_room_with_no_neighbour_left() {
    let rooms = vec![normal(0..5, 0..3), normal(10..15, 0..3), normal(20..25, 0..3)];
    let (mut stalled, mut done) = (false, false);
    for seed in 0..100 {
        let mut tiles = Vec::new();
        let mut rng = RngHandle::from_seed(spread(seed));
        match span_rooms(&rooms, X(3), Y(1), &mut rng, 0, &mut tiles) {
            Ok(graph) => {
                done = true;
                assert_eq!(count_pairs(&graph), 2);
            }
            Err(DigError::Stalled { room }) => {
                stalled = true;
                assert!(room == 0 || room == 2);
            }
            Err(e) => panic!("{:?}", e),
        }
        let mut tiles = Vec::new();
        let mut rng = RngHandle::from_seed(spread(seed));
        let graph = span_rooms(&rooms, X(3), Y(1), &mut rng, 1000, &mut tiles).unwrap();
        assert_eq!(count_pairs(&graph), 2);
        assert!(graph.node(1).is_connected(0) && graph.node(1).is_connected(2));
    }
    assert!(stalled && done);
}

#[test]
fn shortcuts_join_only_neighbours_not_yet_joined() {
    let rooms = gen(2);
    for seed in 0..50 {
        let mut graph = RoomGraph::new(X(3), Y(3));
        let mut tiles = Vec::new();
        let mut rng = RngHandle::from_seed(spread(seed));
        add_shortcuts(&rooms, X(3), Y(3), &mut graph, &mut rng, 0, &mut tiles).unwrap();
        assert_eq!(count_pairs(&graph), 0);
        assert!(tiles.is_empty());
        add_shortcuts(&rooms, X(3), Y(3), &mut graph, &mut rng, 8, &mut tiles).unwrap();
        assert!(count_pairs(&graph) < 8);
        assert_eq!(tiles.is_empty(), count_pairs(&graph) == 0);
    }
}

#[test]
fn rooms_attach_where_a_wall_has_room_between_its_corners() {
    let wide = normal(0..3, 0..2);
    assert!(wide.attaches(Direction::Up) && wide.attaches(Direction::Down));
    assert!(!wide.attaches(Direction::Left) && !wide.attaches(Direction::Right));
    assert!(!wide.attaches(Direction::LeftUp) && !wide.attaches(Direction::Stay));
    let tall = normal(i32::MIN..i32::MIN + 2, i32::MIN..i32::MAX);
    assert!(!tall.attaches(Direction::Up) && tall.attaches(Direction::Left));
    let maze = |passages: Vec<Coord>| {
        Room::new(RoomKind::Maze { range: TileRange::from_ranges(0..9, 0..9).unwrap(), passages })
    };
    assert!(maze(vec![Coord::new(1, 1)]).attaches(Direction::Up));
    assert!(!maze(vec![]).attaches(Direction::Up));
    assert!(Room::new(RoomKind::Empty { up_left: Coord::new(0, 0) }).attaches(Direction::Stay));
}

#[test]
fn grid_fits_rooms_that_attach_towards_their_neighbours() {
    let rooms = gen(0);
    assert!(grid_fits(&rooms, X(3), Y(3)));
    assert!(!grid_fits(&rooms, X(3), Y(2)));
    assert!(!grid_fits(&rooms, X(9), Y(0)));
    assert!(!grid_fits(&rooms, X(-3), Y(-3)));
    assert!(!grid_fits(&rooms, X(i32::MAX), Y(i32::MAX)));
    assert!(grid_fits(&rooms, X(9), Y(1)));
    assert!(grid_fits(&rooms[..6], X(2), Y(3)));
    assert!(!grid_fits(&[], X(1), Y(1)));
    // A room too low for a door in its side walls fits a column, not a row.
    let low = vec![normal(0..5, 0..2), normal(0..5, 4..6)];
    assert!(grid_fits(&low, X(1), Y(2)));
    assert!(!grid_fits(&low, X(2), Y(1)));
    assert!(grid_fits(&low[..1], X(1), Y(1)));
}
