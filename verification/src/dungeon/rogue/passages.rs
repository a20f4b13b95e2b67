//! Passages between the rooms of a grid: which rooms to join, and where each
//! passage runs.
use crate::dungeon::rogue::graph::{
    adjacent_only, candidates_of, connected, degree_sum, direction_to, lemma_degree_none,
    lemma_direction_back, lemma_link_adds_pair, lemma_reach_self, lemma_reach_step,
    lemma_reach_survives, lemma_spanned_is_connected, linked, mutual, neighbor, pair_count,
    reachable, Node, RoomGraph,
};
use crate::dungeon::rogue::{edge_tiles, Room, RoomKind, Surface, TileRange};
use crate::dungeon::{scaled, Coord, Direction, Positioned, X, Y};
use crate::fenwick::{nth_member, FenwickSet};
use crate::rng::{happens, ranged, seeded_words, RngHandle};
use vstd::prelude::*;

verus! {

/// The tiles of the wall of `range` that faces `direction`, corners left out.
pub fn inclusive_edges(range: &TileRange, direction: Direction) -> (edges: Vec<Coord>)
    requires
        direction.is_cardinal(),
    ensures
        edges@ == edge_tiles(*range, direction),
{
    let xs = range.get_x();
    let ys = range.get_y();
    let bound_x: i32 = xs.end - 1;
    let bound_y: i32 = ys.end - 1;
    let mut edges: Vec<Coord> = Vec::new();
    match direction {
        Direction::Down | Direction::Up => {
            let y: i32 = if direction == Direction::Down { bound_y } else { ys.start };
            let mut x: i32 = xs.start + 1;
            while x < bound_x
                invariant
                    xs.start < x,
                    x <= bound_x || x == xs.start + 1,
                    bound_x == xs.end - 1,
                    edges@.len() == x - xs.start - 1,
                    forall|i: int|
                        0 <= i < edges@.len() ==> edges@[i] == Coord::at(
                            xs.start + 1 + i,
                            y as int,
                        ),
                decreases bound_x - x,
            {
                edges.push(Coord::new(x, y));
                x = x + 1;
            }
        },
        _ => {
            let x: i32 = if direction == Direction::Right { bound_x } else { xs.start };
            let mut y: i32 = ys.start + 1;
            while y < bound_y
                invariant
                    ys.start < y,
                    y <= bound_y || y == ys.start + 1,
                    bound_y == ys.end - 1,
                    edges@.len() == y - ys.start - 1,
                    forall|i: int|
                        0 <= i < edges@.len() ==> edges@[i] == Coord::at(
                            x as int,
                            ys.start + 1 + i,
                        ),
                decreases bound_y - y,
            {
                edges.push(Coord::new(x, y));
                y = y + 1;
            }
        },
    }
    assert(edges@ =~= edge_tiles(*range, direction));
    edges
}

/// What marks the end of a passage at `room`: a door in the wall of a walled
/// room, plain passage elsewhere.
pub open spec fn door_surface(room: Room) -> Surface {
    match room.kind {
        RoomKind::Normal { range } => Surface::Door,
        _ => Surface::Passage,
    }
}

/// What marks the end of a passage at `room`.
pub fn door_kind(room: &Room) -> (surface: Surface)
    ensures
        surface == door_surface(*room),
{
    match room.kind {
        RoomKind::Normal { .. } => Surface::Door,
        _ => Surface::Passage,
    }
}

/// Where a passage that leaves `room` in direction `d` attaches, drawn on the
/// state `words`, and the state afterwards.
pub open spec fn endpoint(room: Room, d: Direction, words: Seq<u32>) -> (Coord, Seq<u32>) {
    match room.kind {
        RoomKind::Normal { range } => {
            let edges = edge_tiles(range, d);
            let drawn = ranged(words, 0, edges.len() as int);
            (edges[drawn.0], drawn.1)
        },
        RoomKind::Maze { range, passages } => {
            let drawn = ranged(words, 0, passages@.len() as int);
            (passages@[drawn.0], drawn.1)
        },
        RoomKind::Empty { up_left } => (up_left, words),
    }
}

/// Draws the tile where a passage that leaves `room` in `direction` attaches.
pub fn select_start_or_end(room: &Room, direction: Direction, rng: &mut RngHandle) -> (cd: Coord)
    requires
        direction.is_cardinal(),
        room.can_attach(direction),
    ensures
        cd == endpoint(*room, direction, old(rng)@).0,
        final(rng)@ == endpoint(*room, direction, old(rng)@).1,
        room.kind matches RoomKind::Normal { range } ==> edge_tiles(range, direction).contains(cd),
        room.kind matches RoomKind::Maze { range, passages } ==> passages@.contains(cd),
{
    match &room.kind {
        RoomKind::Normal { range } => {
            let candidates = inclusive_edges(range, direction);
            let picked = rng.pick(candidates.as_slice());
            *picked.unwrap()
        },
        RoomKind::Maze { range: _, passages } => {
            let picked = rng.pick(passages.as_slice());
            *picked.unwrap()
        },
        RoomKind::Empty { up_left } => *up_left,
    }
}

/// Why no passage could be routed between two rooms: the walls that face each
/// other leave no row or column between `start` and `end` to turn in.
#[derive(Clone, Copy, Debug, PartialEq, Eq, Structural)]
pub struct RoutingError {
    pub start: Coord,
    pub end: Coord,
    pub direction: Direction,
}

/// The coordinate of `c` on the axis that a passage in direction `d` runs
/// along: the row for `Down`, the column for `Right`.
pub open spec fn along(c: Coord, d: Direction) -> int {
    if d == Direction::Down {
        c.y.0 as int
    } else {
        c.x.0 as int
    }
}

/// The coordinate of `c` on the other axis.
pub open spec fn across(c: Coord, d: Direction) -> int {
    if d == Direction::Down {
        c.x.0 as int
    } else {
        c.y.0 as int
    }
}

/// The coordinate with the given positions on the two axes.
pub open spec fn on_axes(d: Direction, along: int, across: int) -> Coord {
    if d == Direction::Down {
        Coord::at(across, along)
    } else {
        Coord::at(along, across)
    }
}

/// The direction of the middle leg of a passage from `start` to `end`.
pub open spec fn turn_direction(start: Coord, end: Coord, d: Direction) -> Direction {
    if d == Direction::Down {
        if start.x.0 < end.x.0 {
            Direction::Right
        } else {
            Direction::Left
        }
    } else {
        if start.y.0 < end.y.0 {
            Direction::Down
        } else {
            Direction::Up
        }
    }
}

/// `n` passage tiles in a row that starts at `from` and runs in direction `d`.
pub open spec fn passage_run(from: Coord, d: Direction, n: int) -> Seq<Positioned<Surface>> {
    Seq::new(
        if n > 0 { n as nat } else { 0 },
        |i: int| Positioned(from.stepped(d, i), Surface::Passage),
    )
}

/// The passage tiles from `start` to `end` with the turn at position `turn`
/// of the axis along `d`: the leg from the tile after `start` to the tile
/// before the turn, the leg across, from the turn behind `start` to the tile
/// before the turn in front of `end`, and the leg from there up to `end`
/// itself.
pub open spec fn passage_tiles(start: Coord, end: Coord, d: Direction, turn: int) -> Seq<
    Positioned<Surface>,
> {
    let gap = across(end, d) - across(start, d);
    passage_run(start.stepped(d, 1), d, turn - along(start, d) - 1) + passage_run(
        on_axes(d, turn, across(start, d)),
        turn_direction(start, end, d),
        if gap < 0 { -gap } else { gap },
    ) + passage_run(on_axes(d, turn, across(end, d)), d, along(end, d) - turn + 1)
}

/// Appends `n` passage tiles in a row from `from` in direction `d`.
fn dig_run(from: Coord, d: Direction, n: u64, register: &mut Vec<Positioned<Surface>>)
    requires
        n > 0 ==> {
            &&& i32::MIN <= from.x.0 + scaled(d.dx(), n - 1) <= i32::MAX
            &&& i32::MIN <= from.y.0 + scaled(d.dy(), n - 1) <= i32::MAX
        },
    ensures
        final(register)@ == old(register)@ + passage_run(from, d, n as int),
{
    let ghost before = register@;
    let mut cur: Coord = from;
    let mut i: u64 = 0;
    assert(register@ =~= before + passage_run(from, d, 0));
    while i < n
        invariant
            i <= n,
            n > 0 ==> {
                &&& i32::MIN <= from.x.0 + scaled(d.dx(), n - 1) <= i32::MAX
                &&& i32::MIN <= from.y.0 + scaled(d.dy(), n - 1) <= i32::MAX
            },
            i < n ==> cur == from.stepped(d, i as int),
            register@ == before + passage_run(from, d, i as int),
        decreases n - i,
    {
        register.push(Positioned(cur, Surface::Passage));
        assert(register@ =~= before + passage_run(from, d, i + 1));
        i = i + 1;
        if i < n {
            cur = cur.step(d);
        }
    }
}

/// Appends the passage tiles from `start` to `end` with the turn at `turn`.
pub fn dig_passage(
    start: Coord,
    end: Coord,
    direction: Direction,
    turn: i32,
    register: &mut Vec<Positioned<Surface>>,
)
    requires
        direction == Direction::Down || direction == Direction::Right,
        along(start, direction) < turn < along(end, direction),
    ensures
        final(register)@ == old(register)@ + passage_tiles(start, end, direction, turn as int),
{
    let ghost before = register@;
    let down: bool = direction == Direction::Down;
    let (from, to, side_from, side_to): (i32, i32, i32, i32) = if down {
        (start.y.0, end.y.0, start.x.0, end.x.0)
    } else {
        (start.x.0, end.x.0, start.y.0, end.y.0)
    };
    let turn_start: Coord = if down { Coord::new(side_from, turn) } else { Coord::new(turn, side_from) };
    let turn_end: Coord = if down { Coord::new(side_to, turn) } else { Coord::new(turn, side_to) };
    let turn_dir: Direction = if down {
        if start.is_lefter(end) { Direction::Right } else { Direction::Left }
    } else {
        if start.is_upper(end) { Direction::Down } else { Direction::Up }
    };
    let first: u64 = (turn as i64 - from as i64 - 1) as u64;
    let middle: u64 = if side_from < side_to {
        (side_to as i64 - side_from as i64) as u64
    } else {
        (side_from as i64 - side_to as i64) as u64
    };
    let last: u64 = (to as i64 - turn as i64 + 1) as u64;
    dig_run(start.step(direction), direction, first, register);
    dig_run(turn_start, turn_dir, middle, register);
    dig_run(turn_end, direction, last, register);
    assert(register@ =~= before + passage_tiles(start, end, direction, turn as int));
}

/// Whether each tile of `path` but the first lies one step from the tile before
/// it.
pub open spec fn unbroken(path: Seq<Positioned<Surface>>) -> bool {
    forall|i: int| 0 < i < path.len() ==> path[i - 1].0.touches(#[trigger] path[i].0)
}

/// A run in a cardinal direction that stays on the grid is unbroken.
proof fn lemma_run_unbroken(from: Coord, d: Direction, n: int)
    requires
        d.is_cardinal(),
        n > 0 ==> {
            &&& i32::MIN <= from.x.0 + scaled(d.dx(), n - 1) <= i32::MAX
            &&& i32::MIN <= from.y.0 + scaled(d.dy(), n - 1) <= i32::MAX
        },
    ensures
        unbroken(passage_run(from, d, n)),
        n > 0 ==> passage_run(from, d, n).len() == n,
        n <= 0 ==> passage_run(from, d, n).len() == 0,
        n > 0 ==> passage_run(from, d, n)[0].0 == from,
        n > 0 ==> passage_run(from, d, n).last().0 == from.stepped(d, n - 1),
{
    let run = passage_run(from, d, n);
    assert forall|i: int| 0 < i < run.len() implies run[i - 1].0.touches(#[trigger] run[i].0) by {
        assert(run[i].0 == from.stepped(d, i));
        assert(run[i - 1].0 == from.stepped(d, i - 1));
    }
}

/// Two unbroken paths, the second starting one step from the end of the
/// first, make an unbroken path.
proof fn lemma_unbroken_joined(a: Seq<Positioned<Surface>>, b: Seq<Positioned<Surface>>)
    requires
        unbroken(a),
        unbroken(b),
        a.len() > 0 && b.len() > 0 ==> a.last().0.touches(b[0].0),
    ensures
        unbroken(a + b),
{
    let whole = a + b;
    assert forall|i: int| 0 < i < whole.len() implies whole[i - 1].0.touches(
        #[trigger] whole[i].0,
    ) by {
        if i < a.len() {
            assert(a[i - 1].0.touches(a[i].0));
        } else if i > a.len() {
            assert(b[i - a.len() - 1].0.touches(b[i - a.len()].0));
        }
    }
}

/// Three unbroken runs, each starting one step from the end of the run before
/// it or, where that is empty, of the one before that, make an unbroken path.
proof fn lemma_three_runs(
    start: Coord,
    first: Seq<Positioned<Surface>>,
    middle: Seq<Positioned<Surface>>,
    last: Seq<Positioned<Surface>>,
    corner: Coord,
    far_corner: Coord,
)
    requires
        unbroken(first),
        unbroken(middle),
        unbroken(last),
        last.len() > 0,
        last[0].0 == far_corner,
        first.len() > 0 ==> start.touches(first[0].0) && first.last().0.touches(corner),
        first.len() == 0 ==> start.touches(corner),
        middle.len() > 0 ==> middle[0].0 == corner && middle.last().0.touches(far_corner),
        middle.len() == 0 ==> corner == far_corner,
    ensures
        (first + middle + last).len() > 0,
        start.touches((first + middle + last)[0].0),
        (first + middle + last).last() == last.last(),
        unbroken(first + middle + last),
{
    lemma_unbroken_joined(first, middle);
    lemma_unbroken_joined(first + middle, last);
}

/// The passage tiles make an unbroken path: the first lies one step from
/// `start`, each of the others one step from the tile before it, and the last
/// is `end`.
pub proof fn lemma_passage_unbroken(start: Coord, end: Coord, d: Direction, turn: int)
    requires
        d == Direction::Down || d == Direction::Right,
        along(start, d) < turn < along(end, d),
    ensures
        passage_tiles(start, end, d, turn).len() > 0,
        start.touches(passage_tiles(start, end, d, turn)[0].0),
        passage_tiles(start, end, d, turn).last().0 == end,
        unbroken(passage_tiles(start, end, d, turn)),
{
    let gap = across(end, d) - across(start, d);
    let width = if gap < 0 { -gap } else { gap };
    let side = turn_direction(start, end, d);
    let corner = on_axes(d, turn, across(start, d));
    let far_corner = on_axes(d, turn, across(end, d));
    let first = passage_run(start.stepped(d, 1), d, turn - along(start, d) - 1);
    let middle = passage_run(corner, side, width);
    let last = passage_run(far_corner, d, along(end, d) - turn + 1);
    lemma_run_unbroken(start.stepped(d, 1), d, turn - along(start, d) - 1);
    lemma_run_unbroken(corner, side, width);
    lemma_run_unbroken(far_corner, d, along(end, d) - turn + 1);
    assert(last.last().0 == end);
    assert(first.len() > 0 ==> start.touches(first[0].0) && first.last().0.touches(corner));
    assert(first.len() == 0 ==> start.touches(corner));
    assert(middle.len() > 0 ==> middle.last().0.touches(far_corner));
    assert(middle.len() == 0 ==> corner == far_corner);
    lemma_three_runs(start, first, middle, last, corner, far_corner);
}

/// Every passage tile can be walked on.
pub proof fn lemma_passage_walkable(start: Coord, end: Coord, d: Direction, turn: int)
    ensures
        forall|i: int|
            0 <= i < passage_tiles(start, end, d, turn).len() ==> (#[trigger] passage_tiles(
                start,
                end,
                d,
                turn,
            )[i]).1 == Surface::Passage,
{
}

/// The number of positions strictly between `start` and `end` on the axis
/// along `d`; a turn needs one of them.
pub open spec fn turn_room(start: Coord, end: Coord, d: Direction) -> int {
    along(end, d) - along(start, d) - 1
}

/// Draws the position of the turn of a passage from `start` to `end`, strictly
/// between the two on the axis along `direction`; fails where they leave no
/// position between them.
pub fn select_turn(start: Coord, end: Coord, direction: Direction, rng: &mut RngHandle) -> (res:
    Result<i32, RoutingError>)
    requires
        direction == Direction::Down || direction == Direction::Right,
    ensures
        res.is_ok() == (turn_room(start, end, direction) > 0),
        res matches Ok(turn) ==> {
            let drawn = ranged(
                old(rng)@,
                along(start, direction) + 1,
                along(end, direction),
            );
            &&& turn == drawn.0
            &&& final(rng)@ == drawn.1
            &&& along(start, direction) < turn < along(end, direction)
        },
        res matches Err(e) ==> e == (RoutingError { start, end, direction }) && final(rng)@ == old(
            rng,
        )@,
{
    let (from, to): (i32, i32) = if direction == Direction::Down {
        (start.y.0, end.y.0)
    } else {
        (start.x.0, end.x.0)
    };
    if from >= to || from + 1 >= to {
        return Err(RoutingError { start, end, direction });
    }
    Ok(rng.range_i32(from + 1..to))
}

/// A passage between two rooms: the tiles in the order in which they are laid,
/// the state of the random source afterwards, and whether the passage could be
/// routed.
pub struct Corridor {
    pub tiles: Seq<Positioned<Surface>>,
    pub words: Seq<u32>,
    pub result: Result<(), RoutingError>,
}

/// The passage from `room1` to the room `room2` that lies in direction
/// `direction` of it, drawn on the state `words`.
///
/// A passage up or to the left is routed as the passage down or to the right
/// from the other room. Its two ends are drawn first, the one in the upper or
/// left room before the other, and laid as doors; then the turn is drawn and
/// the passage tiles are laid from the first end to the second.
pub open spec fn corridor(room1: Room, room2: Room, direction: Direction, words: Seq<u32>) -> Corridor {
    let flip = direction == Direction::Up || direction == Direction::Left;
    let first = if flip { room2 } else { room1 };
    let second = if flip { room1 } else { room2 };
    let d = if flip { direction.opposite() } else { direction };
    let start = endpoint(first, d, words);
    let end = endpoint(second, d.opposite(), start.1);
    let doors = seq![
        Positioned(start.0, door_surface(first)),
        Positioned(end.0, door_surface(second)),
    ];
    if turn_room(start.0, end.0, d) > 0 {
        let turn = ranged(end.1, along(start.0, d) + 1, along(end.0, d));
        Corridor {
            tiles: doors + passage_tiles(start.0, end.0, d, turn.0),
            words: turn.1,
            result: Ok(()),
        }
    } else {
        Corridor {
            tiles: doors,
            words: end.1,
            result: Err(RoutingError { start: start.0, end: end.0, direction: d }),
        }
    }
}

/// Whether a passage may attach to `room` at the tile `cd`: a tile of one of
/// its walls between the corners, one of the attachment points of a maze, or
/// the point of an empty room.
pub open spec fn attach_point(room: Room, cd: Coord) -> bool {
    match room.kind {
        RoomKind::Normal { range } => exists|d: Direction| edge_tiles(range, d).contains(cd),
        RoomKind::Maze { range, passages } => passages@.contains(cd),
        RoomKind::Empty { up_left } => cd == up_left,
    }
}

/// Whether `tiles` hold, from position `at` on, a passage of `len` tiles from
/// room `a` to room `b`: the two ends, one at each room, and then an unbroken
/// path from beside the first end to the second; all of it can be walked on.
pub open spec fn passage_at(tiles: Seq<Positioned<Surface>>, at: int, len: int, a: Room, b: Room) -> bool {
    &&& 0 <= at
    &&& 1 <= len
    &&& at + 2 + len <= tiles.len()
    &&& attach_point(a, tiles[at].0)
    &&& attach_point(b, tiles[at + 1].0)
    &&& tiles[at].0.touches(tiles[at + 2].0)
    &&& tiles[at + 1 + len].0 == tiles[at + 1].0
    &&& unbroken(tiles.subrange(at + 2, at + 2 + len))
    &&& forall|i: int| at <= i < at + 2 + len ==> (#[trigger] tiles[i]).1.walkable()
}

/// Whether `tiles` hold, from position `at` on, a passage of `len` tiles
/// between the rooms `a` and `b`, from the one to the other.
pub open spec fn passage_between(tiles: Seq<Positioned<Surface>>, at: int, len: int, a: Room, b: Room) -> bool {
    passage_at(tiles, at, len, a, b) || passage_at(tiles, at, len, b, a)
}

/// Whether `tiles` hold a passage between the rooms `a` and `b`.
pub open spec fn joined_by(tiles: Seq<Positioned<Surface>>, a: Room, b: Room) -> bool {
    exists|at: int, len: int| #[trigger] passage_between(tiles, at, len, a, b)
}

/// Whether `tiles` hold a passage between every two rooms that `links` join.
#[verifier::opaque]
pub open spec fn all_joined(links: Seq<Set<int>>, tiles: Seq<Positioned<Surface>>, rooms: Seq<Room>) -> bool {
    forall|a: int, b: int|
        0 <= a < links.len() && 0 <= b < rooms.len() && a < rooms.len()
            && #[trigger] links[a].contains(b) ==> joined_by(tiles, rooms[a], rooms[b])
}

/// Tiles laid after a passage leave it in place.
pub proof fn lemma_passage_stays(
    tiles: Seq<Positioned<Surface>>,
    more: Seq<Positioned<Surface>>,
    a: Room,
    b: Room,
)
    requires
        joined_by(tiles, a, b),
    ensures
        joined_by(tiles + more, a, b),
{
    let (at, len) = choose|at: int, len: int| #[trigger] passage_between(tiles, at, len, a, b);
    let after = tiles + more;
    assert(after.subrange(at + 2, at + 2 + len) =~= tiles.subrange(at + 2, at + 2 + len));
    assert forall|i: int| at <= i < at + 2 + len implies (#[trigger] after[i]).1.walkable() by {
        assert(after[i] == tiles[i]);
    }
    assert(after[at] == tiles[at]);
    assert(after[at + 1] == tiles[at + 1]);
    assert(after[at + 2] == tiles[at + 2]);
    assert(after[at + 1 + len] == tiles[at + 1 + len]);
    assert(passage_between(after, at, len, a, b));
}

/// A passage between two rooms is one between the second and the first.
pub proof fn lemma_joined_both_ways(tiles: Seq<Positioned<Surface>>, a: Room, b: Room)
    requires
        joined_by(tiles, a, b),
    ensures
        joined_by(tiles, b, a),
{
    let (at, len) = choose|at: int, len: int| #[trigger] passage_between(tiles, at, len, a, b);
    assert(passage_between(tiles, at, len, b, a));
}

/// Where passages lie between all joined rooms, and two more rooms are joined
/// and the passage between them is laid, passages lie between all joined
/// rooms again.
pub proof fn lemma_all_joined_grows(
    links: Seq<Set<int>>,
    tiles: Seq<Positioned<Surface>>,
    more: Seq<Positioned<Surface>>,
    rooms: Seq<Room>,
    a: int,
    b: int,
)
    requires
        all_joined(links, tiles, rooms),
        0 <= a < links.len(),
        0 <= b < links.len(),
        links.len() == rooms.len(),
        joined_by(tiles + more, rooms[a], rooms[b]),
    ensures
        all_joined(linked(links, a, b), tiles + more, rooms),
{
    reveal(all_joined);
    let after = linked(links, a, b);
    lemma_joined_both_ways(tiles + more, rooms[a], rooms[b]);
    assert forall|p: int, q: int|
        0 <= p < after.len() && 0 <= q < rooms.len() && p < rooms.len()
            && #[trigger] after[p].contains(q) implies joined_by(
        tiles + more,
        rooms[p],
        rooms[q],
    ) by {
        if links[p].contains(q) {
            lemma_passage_stays(tiles, more, rooms[p], rooms[q]);
        } else {
            assert((p == a && q == b) || (p == b && q == a));
        }
    }
}

/// Where no rooms are joined, passages lie between all joined rooms.
pub proof fn lemma_none_joined(
    links: Seq<Set<int>>,
    tiles: Seq<Positioned<Surface>>,
    rooms: Seq<Room>,
)
    requires
        forall|a: int| 0 <= a < links.len() ==> links[a] == Set::<int>::empty(),
    ensures
        all_joined(links, tiles, rooms),
{
    reveal(all_joined);
}

/// Where passages lie between all joined rooms, one lies between any two
/// rooms that are joined.
pub proof fn lemma_joined_pair(
    links: Seq<Set<int>>,
    tiles: Seq<Positioned<Surface>>,
    rooms: Seq<Room>,
    a: int,
    b: int,
)
    requires
        all_joined(links, tiles, rooms),
        0 <= a < links.len(),
        a < rooms.len(),
        0 <= b < rooms.len(),
        links[a].contains(b),
    ensures
        joined_by(tiles, rooms[a], rooms[b]),
{
    reveal(all_joined);
}

/// Tiles laid after the passages between all joined rooms leave them in place.
pub proof fn lemma_all_stay(
    links: Seq<Set<int>>,
    tiles: Seq<Positioned<Surface>>,
    more: Seq<Positioned<Surface>>,
    rooms: Seq<Room>,
)
    requires
        all_joined(links, tiles, rooms),
    ensures
        all_joined(links, tiles + more, rooms),
{
    reveal(all_joined);
    assert forall|a: int, b: int|
        0 <= a < links.len() && 0 <= b < rooms.len() && a < rooms.len()
            && #[trigger] links[a].contains(b) implies joined_by(
        tiles + more,
        rooms[a],
        rooms[b],
    ) by {
        lemma_passage_stays(tiles, more, rooms[a], rooms[b]);
    }
}

/// Lays the passage from `room1` to `room2`, which lies in `direction` of it.
pub fn connect_2rooms(
    room1: &Room,
    room2: &Room,
    direction: Direction,
    rng: &mut RngHandle,
    register: &mut Vec<Positioned<Surface>>,
) -> (res: Result<(), RoutingError>)
    requires
        direction.is_cardinal(),
        room1.can_attach(direction),
        room2.can_attach(direction.opposite()),
    ensures
        res == corridor(*room1, *room2, direction, old(rng)@).result,
        final(rng)@ == corridor(*room1, *room2, direction, old(rng)@).words,
        final(register)@ == old(register)@ + corridor(
            *room1,
            *room2,
            direction,
            old(rng)@,
        ).tiles,
        res.is_ok() ==> joined_by(final(register)@, *room1, *room2),
{
    let ghost before = register@;
    let (first, second, d) = match direction {
        Direction::Up | Direction::Left => (room2, room1, direction.reverse()),
        _ => (room1, room2, direction),
    };
    let start = select_start_or_end(first, d, rng);
    let end = select_start_or_end(second, d.reverse(), rng);
    register.push(Positioned(start, door_kind(first)));
    register.push(Positioned(end, door_kind(second)));
    let ghost doors = seq![
        Positioned(start, door_surface(*first)),
        Positioned(end, door_surface(*second)),
    ];
    assert(register@ =~= before + doors);
    let turn = select_turn(start, end, d, rng)?;
    dig_passage(start, end, d, turn, register);
    assert(register@ =~= before + (doors + passage_tiles(start, end, d, turn as int)));
    proof {
        lemma_attach_point(*first, d, start);
        lemma_attach_point(*second, d.opposite(), end);
        lemma_corridor_joins(before, *first, *second, start, end, d, turn as int);
    }
    Ok(())
}

/// The tile drawn on a wall, among the attachment points of a maze, or the
/// point of an empty room is a tile where a passage may attach to the room.
proof fn lemma_attach_point(room: Room, d: Direction, cd: Coord)
    requires
        room.kind matches RoomKind::Normal { range } ==> edge_tiles(range, d).contains(cd),
        room.kind matches RoomKind::Maze { range, passages } ==> passages@.contains(cd),
        room.kind matches RoomKind::Empty { up_left } ==> cd == up_left,
    ensures
        attach_point(room, cd),
{
}

/// The two ends of a passage, laid after `before` and followed by its passage
/// tiles, make a passage between the two rooms.
proof fn lemma_corridor_joins(
    before: Seq<Positioned<Surface>>,
    first: Room,
    second: Room,
    start: Coord,
    end: Coord,
    d: Direction,
    turn: int,
)
    requires
        d == Direction::Down || d == Direction::Right,
        along(start, d) < turn < along(end, d),
        attach_point(first, start),
        attach_point(second, end),
    ensures
        joined_by(
            before + (seq![
                Positioned(start, door_surface(first)),
                Positioned(end, door_surface(second)),
            ] + passage_tiles(start, end, d, turn)),
            first,
            second,
        ),
        joined_by(
            before + (seq![
                Positioned(start, door_surface(first)),
                Positioned(end, door_surface(second)),
            ] + passage_tiles(start, end, d, turn)),
            second,
            first,
        ),
{
    lemma_passage_unbroken(start, end, d, turn);
    lemma_passage_walkable(start, end, d, turn);
    lemma_laid_passage(
        before,
        first,
        second,
        Positioned(start, door_surface(first)),
        Positioned(end, door_surface(second)),
        passage_tiles(start, end, d, turn),
    );
}

/// The two ends of a passage, laid after `before` and followed by an unbroken
/// path from beside the first to the second, make a passage between the two
/// rooms.
proof fn lemma_laid_passage(
    before: Seq<Positioned<Surface>>,
    first: Room,
    second: Room,
    start: Positioned<Surface>,
    end: Positioned<Surface>,
    path: Seq<Positioned<Surface>>,
)
    requires
        attach_point(first, start.0),
        attach_point(second, end.0),
        start.1.walkable(),
        end.1.walkable(),
        path.len() > 0,
        start.0.touches(path[0].0),
        path.last().0 == end.0,
        unbroken(path),
        forall|i: int| 0 <= i < path.len() ==> (#[trigger] path[i]).1 == Surface::Passage,
    ensures
        joined_by(before + (seq![start, end] + path), first, second),
        joined_by(before + (seq![start, end] + path), second, first),
{
    let doors = seq![start, end];
    let tiles = before + (doors + path);
    let at = before.len() as int;
    assert(tiles.subrange(at + 2, at + 2 + path.len()) =~= path);
    assert(tiles[at] == doors[0]);
    assert(tiles[at + 1] == doors[1]);
    assert(tiles[at + 2] == path[0]);
    assert(tiles[at + 1 + path.len()] == path.last());
    assert forall|i: int| at <= i < at + 2 + path.len() implies (#[trigger] tiles[i]).1.walkable() by {
        if i >= at + 2 {
            assert(tiles[i] == path[i - at - 2]);
        } else if i == at {
            assert(tiles[i] == doors[0]);
        } else {
            assert(tiles[i] == doors[1]);
        }
    }
    assert(passage_at(tiles, at, path.len() as int, first, second));
    assert(passage_between(tiles, at, path.len() as int, first, second));
    assert(passage_between(tiles, at, path.len() as int, second, first));
}

/// Whether room `i` can be picked from `candidates`: it is one of them and is
/// not among `taken`.
pub open spec fn eligible(candidates: Map<usize, Direction>, taken: Set<int>, i: int) -> bool {
    0 <= i <= usize::MAX && candidates.contains_key(i as usize) && !taken.contains(i)
}

/// The rest of one pass over the rooms below `n`, from room `i` on, when
/// `seen` eligible rooms have been passed and `best` is the pick so far: each
/// eligible room takes the place of the pick with one chance in the number of
/// eligible rooms seen up to it.
pub open spec fn pick_among(
    n: int,
    candidates: Map<usize, Direction>,
    taken: Set<int>,
    i: int,
    seen: int,
    best: Option<(usize, Direction)>,
    words: Seq<u32>,
) -> (Option<(usize, Direction)>, Seq<u32>)
    decreases n - i,
{
    if i >= n {
        (best, words)
    } else if eligible(candidates, taken, i) {
        let hit = happens(words, seen + 1);
        pick_among(
            n,
            candidates,
            taken,
            i + 1,
            seen + 1,
            if hit.0 {
                Some((i as usize, candidates[i as usize]))
            } else {
                best
            },
            hit.1,
        )
    } else {
        pick_among(n, candidates, taken, i + 1, seen, best, words)
    }
}

/// The room picked among the eligible rooms below `n`, with its direction, on
/// the state `words`, and the state afterwards.
pub open spec fn pick(n: int, candidates: Map<usize, Direction>, taken: Set<int>, words: Seq<u32>) -> (
    Option<(usize, Direction)>,
    Seq<u32>,
) {
    pick_among(n, candidates, taken, 0, 0, None, words)
}

/// A pass over rooms of which none is eligible draws nothing and keeps the
/// pick it started with.
pub proof fn lemma_pick_none(
    n: int,
    candidates: Map<usize, Direction>,
    taken: Set<int>,
    i: int,
    seen: int,
    best: Option<(usize, Direction)>,
    words: Seq<u32>,
)
    requires
        0 <= i,
        forall|k: int| i <= k < n ==> !eligible(candidates, taken, k),
    ensures
        pick_among(n, candidates, taken, i, seen, best, words) == (best, words),
    decreases n - i,
{
    if i < n {
        lemma_pick_none(n, candidates, taken, i + 1, seen, best, words);
    }
}

/// Whether one of the rooms below `n` is eligible.
pub open spec fn has_eligible(n: int, candidates: Map<usize, Direction>, taken: Set<int>) -> bool {
    exists|i: int| 0 <= i < n && eligible(candidates, taken, i)
}

/// Picks one of the rooms next to `node` that are not in `selected` or, where
/// no set is given, that no passage joins to `node` yet.
fn pick_candidate(
    num_rooms: usize,
    node: &Node,
    selected: Option<&FenwickSet>,
    rng: &mut RngHandle,
) -> (picked: Option<(usize, Direction)>)
    ensures
        ({
            let taken = match selected {
                Some(set) => set@,
                None => node.links(),
            };
            &&& picked == pick(num_rooms as int, node.candidates(), taken, old(rng)@).0
            &&& final(rng)@ == pick(num_rooms as int, node.candidates(), taken, old(rng)@).1
            &&& picked.is_some() == has_eligible(num_rooms as int, node.candidates(), taken)
            &&& picked.is_none() ==> final(rng)@ == old(rng)@
            &&& picked matches Some((to, d)) ==> {
                &&& to < num_rooms
                &&& eligible(node.candidates(), taken, to as int)
                &&& node.candidates()[to] == d
            }
        }),
{
    let ghost taken = match selected {
        Some(set) => set@,
        None => node.links(),
    };
    let ghost candidates = node.candidates();
    let ghost n = num_rooms as int;
    let mut best: Option<(usize, Direction)> = None;
    let mut seen: u64 = 0;
    let mut i: usize = 0;
    while i < num_rooms
        invariant
            i <= num_rooms,
            n == num_rooms,
            seen <= i,
            candidates == node.candidates(),
            taken == match selected {
                Some(set) => set@,
                None => node.links(),
            },
            pick_among(n, candidates, taken, i as int, seen as int, best, rng@) == pick(
                n,
                candidates,
                taken,
                old(rng)@,
            ),
            best.is_some() == (seen > 0),
            seen == 0 ==> rng@ == old(rng)@,
            seen == 0 ==> forall|k: int| 0 <= k < i ==> !eligible(candidates, taken, k),
            best matches Some((to, d)) ==> {
                &&& to < i
                &&& eligible(candidates, taken, to as int)
                &&& candidates[to] == d
            },
        decreases num_rooms - i,
    {
        let is_taken: bool = match selected {
            Some(set) => set.contains(i),
            None => node.is_connected(i),
        };
        if !is_taken {
            if let Some(d) = node.candidate(i) {
                seen = seen + 1;
                if rng.does_happen(seen) {
                    best = Some((i, d));
                }
            }
        }
        i = i + 1;
    }
    proof {
        picked_is_eligible(best, n, candidates, taken);
    }
    best
}

/// A pick is one of the eligible rooms.
proof fn picked_is_eligible(
    best: Option<(usize, Direction)>,
    n: int,
    candidates: Map<usize, Direction>,
    taken: Set<int>,
)
    requires
        best matches Some((to, d)) ==> to < n && eligible(candidates, taken, to as int),
        best.is_none() ==> forall|k: int| 0 <= k < n ==> !eligible(candidates, taken, k),
    ensures
        best.is_some() == has_eligible(n, candidates, taken),
{
    if let Some((to, d)) = best {
        assert(0 <= to < n && eligible(candidates, taken, to as int));
    }
}

/// Picks, with the same chance for each, one of the rooms next to `node` that
/// are not in `selected`; none where there is no such room.
pub fn select_candidate(
    num_rooms: usize,
    node: &Node,
    selected: &FenwickSet,
    rng: &mut RngHandle,
) -> (picked: Option<(usize, Direction)>)
    ensures
        picked == pick(num_rooms as int, node.candidates(), selected@, old(rng)@).0,
        final(rng)@ == pick(num_rooms as int, node.candidates(), selected@, old(rng)@).1,
        picked.is_some() == has_eligible(num_rooms as int, node.candidates(), selected@),
        picked.is_none() ==> final(rng)@ == old(rng)@,
        picked matches Some((to, d)) ==> {
            &&& to < num_rooms
            &&& eligible(node.candidates(), selected@, to as int)
            &&& node.candidates()[to] == d
        },
{
    pick_candidate(num_rooms, node, Some(selected), rng)
}

/// Picks, with the same chance for each, one of the rooms next to `node` that
/// no passage joins to it yet; none where there is no such room.
pub fn select_unjoined_candidate(num_rooms: usize, node: &Node, rng: &mut RngHandle) -> (picked:
    Option<(usize, Direction)>)
    ensures
        picked == pick(num_rooms as int, node.candidates(), node.links(), old(rng)@).0,
        final(rng)@ == pick(num_rooms as int, node.candidates(), node.links(), old(rng)@).1,
        picked.is_some() == has_eligible(num_rooms as int, node.candidates(), node.links()),
        picked.is_none() ==> final(rng)@ == old(rng)@,
        picked matches Some((to, d)) ==> {
            &&& to < num_rooms
            &&& eligible(node.candidates(), node.links(), to as int)
            &&& node.candidates()[to] == d
        },
{
    pick_candidate(num_rooms, node, None, rng)
}

/// How often in all the walk that joins the rooms may stand at a room whose
/// neighbours are all joined already, and move on to another joined room,
/// before it gives up.
pub const RESELECT_LIMIT: u64 = 0xffff_ffff_ffff_ffff;

/// Why the rooms of a grid could not all be joined.
#[derive(Clone, Copy, Debug, PartialEq, Eq, Structural)]
pub enum DigError {
    /// No passage could be routed from room `from` to room `to`.
    Routing { from: usize, to: usize, cause: RoutingError },
    /// The walk stood at room `room`, with no neighbour left to join, and had
    /// used up the moves it may make from such a room.
    Stalled { room: usize },
}

/// Whether `rooms` fill a grid of `xrooms` columns and `yrooms` rows, row by
/// row, and each room offers a tile to attach to towards each of its
/// neighbours.
pub open spec fn fits_grid(rooms: Seq<Room>, xrooms: int, yrooms: int) -> bool {
    &&& xrooms > 0
    &&& yrooms > 0
    &&& xrooms * yrooms <= i32::MAX
    &&& rooms.len() == xrooms * yrooms
    &&& forall|i: int, d: Direction|
        0 <= i < rooms.len() && neighbor(xrooms, yrooms, i, d).is_some()
            ==> #[trigger] rooms[i].can_attach(d)
}

/// Whether room `i` of the grid, at column `x` and row `y`, offers a tile to
/// attach to towards each of its neighbours.
fn room_fits(room: &Room, xrooms: X, yrooms: Y, x: i32, y: i32, i: usize) -> (ok: bool)
    requires
        0 <= x < xrooms.0,
        0 <= y < yrooms.0,
        x == i % (xrooms.0 as usize),
        y == i / (xrooms.0 as usize),
    ensures
        ok == forall|d: Direction|
            neighbor(xrooms.0 as int, yrooms.0 as int, i as int, d).is_some()
                ==> #[trigger] room.can_attach(d),
{
    let up: bool = y < 1 || room.attaches(Direction::Up);
    let down: bool = y + 1 >= yrooms.0 || room.attaches(Direction::Down);
    let left: bool = x < 1 || room.attaches(Direction::Left);
    let right: bool = x + 1 >= xrooms.0 || room.attaches(Direction::Right);
    proof {
        let w = xrooms.0 as int;
        let h = yrooms.0 as int;
        if !up {
            assert(neighbor(w, h, i as int, Direction::Up).is_some());
        }
        if !down {
            assert(neighbor(w, h, i as int, Direction::Down).is_some());
        }
        if !left {
            assert(neighbor(w, h, i as int, Direction::Left).is_some());
        }
        if !right {
            assert(neighbor(w, h, i as int, Direction::Right).is_some());
        }
    }
    up && down && left && right
}

/// Whether `rooms` fill a grid of `xrooms` columns and `yrooms` rows, so that
/// passages can be made between them.
pub fn grid_fits(rooms: &[Room], xrooms: X, yrooms: Y) -> (ok: bool)
    ensures
        ok == fits_grid(rooms@, xrooms.0 as int, yrooms.0 as int),
{
    if xrooms.0 <= 0 || yrooms.0 <= 0 {
        return false;
    }
    let ghost w = xrooms.0 as int;
    let ghost h = yrooms.0 as int;
    proof {
        assert(0 < w * h <= 0x7fff_ffff * 0x7fff_ffff) by (nonlinear_arith)
            requires
                0 < w <= 0x7fff_ffff,
                0 < h <= 0x7fff_ffff,
        ;
    }
    let num_rooms: i64 = xrooms.0 as i64 * yrooms.0 as i64;
    if num_rooms > i32::MAX as i64 || rooms.len() as u64 != num_rooms as u64 {
        return false;
    }
    let width: usize = xrooms.0 as usize;
    let mut i: usize = 0;
    while i < rooms.len()
        invariant
            i <= rooms@.len(),
            w == xrooms.0,
            h == yrooms.0,
            width == w,
            w > 0,
            h > 0,
            rooms@.len() == w * h,
            forall|k: int, d: Direction|
                0 <= k < i && neighbor(w, h, k, d).is_some() ==> #[trigger] rooms@[k].can_attach(
                    d,
                ),
        decreases rooms@.len() - i,
    {
        let x: usize = i % width;
        let y: usize = i / width;
        proof {
            vstd::arithmetic::div_mod::lemma_fundamental_div_mod(i as int, w);
            assert(w * (i as int / w) == (i as int / w) * w) by (nonlinear_arith);
            assert(y < h) by (nonlinear_arith)
                requires
                    i < w * h,
                    i == y * w + x,
                    0 <= x,
                    w > 0,
            ;
        }
        if !room_fits(&rooms[i], xrooms, yrooms, x as i32, y as i32, i) {
            return false;
        }
        i = i + 1;
    }
    true
}

/// What laying passages has come to: the passages laid and the rooms joined.
pub struct Layout {
    /// The state of the random source.
    pub words: Seq<u32>,
    /// The tiles laid, in order.
    pub tiles: Seq<Positioned<Surface>>,
    /// For each room, the rooms joined to it.
    pub links: Seq<Set<int>>,
    /// Why the work stopped, if it did.
    pub failure: Option<DigError>,
}

/// The state of the walk that joins all rooms.
pub struct Walk {
    pub layout: Layout,
    /// The rooms that the walk has reached.
    pub selected: Set<int>,
    /// How many rooms the walk has reached.
    pub joined: nat,
    /// The room at which the walk stands.
    pub current: int,
    /// How often the walk may still move on from a room with no neighbour
    /// left to join.
    pub patience: nat,
}

/// The layout `lay` after the rooms `from` and `to`, which lies in direction
/// `d` of `from`, are joined and the passage between them is laid, drawn on
/// the state `words`.
pub open spec fn join(rooms: Seq<Room>, lay: Layout, from: int, to: int, d: Direction, words: Seq<u32>) -> Layout {
    let c = corridor(rooms[from], rooms[to], d, words);
    Layout {
        words: c.words,
        tiles: lay.tiles + c.tiles,
        links: linked(lay.links, from, to),
        failure: match c.result {
            Ok(_) => None,
            Err(cause) => Some(DigError::Routing { from: from as usize, to: to as usize, cause }),
        },
    }
}

/// The state in which the walk that is in state `st` ends.
///
/// While rooms are left to reach, the walk picks a room next to the one it
/// stands at among those it has not reached, joins the two and lays the
/// passage; it stays where it stands. Where no such room is left, it moves to
/// a room drawn from those it has reached. It stops when a passage cannot be
/// routed, or when it may move on no more.
#[verifier::opaque]
pub open spec fn span(rooms: Seq<Room>, xrooms: int, yrooms: int, st: Walk) -> Walk
    decreases rooms.len() - st.joined, st.patience,
{
    if st.layout.failure.is_some() || st.joined >= rooms.len() {
        st
    } else {
        let p = pick(
            rooms.len() as int,
            candidates_of(xrooms, yrooms, st.current),
            st.selected,
            st.layout.words,
        );
        match p.0 {
            Some((to, d)) => span(
                rooms,
                xrooms,
                yrooms,
                Walk {
                    layout: join(rooms, st.layout, st.current, to as int, d, p.1),
                    selected: st.selected.insert(to as int),
                    joined: st.joined + 1,
                    ..st
                },
            ),
            None => if st.patience == 0 {
                Walk {
                    layout: Layout {
                        words: p.1,
                        failure: Some(DigError::Stalled { room: st.current as usize }),
                        ..st.layout
                    },
                    ..st
                }
            } else {
                let moved = ranged(p.1, 0, st.joined as int);
                span(
                    rooms,
                    xrooms,
                    yrooms,
                    Walk {
                        layout: Layout { words: moved.1, ..st.layout },
                        current: nth_member(st.selected, moved.0),
                        patience: (st.patience - 1) as nat,
                        ..st
                    },
                )
            },
        }
    }
}

/// The layout after the walk that joins all rooms, started at a room drawn on
/// the state `words`, with nothing joined and nothing laid before it. The walk
/// may move on `patience` times from a room with no neighbour left to join.
pub open spec fn spanning(rooms: Seq<Room>, xrooms: int, yrooms: int, words: Seq<u32>, patience: nat) -> Layout {
    let first = ranged(words, 0, rooms.len() as int);
    span(
        rooms,
        xrooms,
        yrooms,
        Walk {
            layout: Layout {
                words: first.1,
                tiles: Seq::empty(),
                links: Seq::new(rooms.len(), |i: int| Set::<int>::empty()),
                failure: None,
            },
            selected: Set::<int>::empty().insert(first.0),
            joined: 1,
            current: first.0,
            patience,
        },
    ).layout
}

/// The layout `lay` after `tries` attempts to join one more pair of rooms:
/// each attempt draws a room and picks a room next to it among those that no
/// passage joins to it yet; where there is one, the two are joined and the
/// passage is laid. The attempts stop when a passage cannot be routed.
#[verifier::opaque]
pub open spec fn shortcuts(rooms: Seq<Room>, xrooms: int, yrooms: int, lay: Layout, tries: nat) -> Layout
    decreases tries,
{
    if tries == 0 || lay.failure.is_some() {
        lay
    } else {
        let first = ranged(lay.words, 0, rooms.len() as int);
        let p = pick(
            rooms.len() as int,
            candidates_of(xrooms, yrooms, first.0),
            lay.links[first.0],
            first.1,
        );
        match p.0 {
            Some((to, d)) => shortcuts(
                rooms,
                xrooms,
                yrooms,
                join(rooms, lay, first.0, to as int, d, p.1),
                (tries - 1) as nat,
            ),
            None => shortcuts(
                rooms,
                xrooms,
                yrooms,
                Layout { words: p.1, ..lay },
                (tries - 1) as nat,
            ),
        }
    }
}

/// The layout `lay` after the extra passages: the number of attempts is drawn
/// below `max_extra_edges`; nothing is drawn where that is zero.
pub open spec fn extras(rooms: Seq<Room>, xrooms: int, yrooms: int, lay: Layout, max_extra_edges: int) -> Layout {
    if max_extra_edges <= 0 {
        lay
    } else {
        let tries = ranged(lay.words, 0, max_extra_edges);
        shortcuts(rooms, xrooms, yrooms, Layout { words: tries.1, ..lay }, tries.0 as nat)
    }
}

/// The whole generation on the state `words`: the walk that joins all rooms
/// and, where it succeeds, the extra passages after it.
pub open spec fn dig(rooms: Seq<Room>, xrooms: int, yrooms: int, words: Seq<u32>, max_extra_edges: int) -> Layout {
    let walked = spanning(rooms, xrooms, yrooms, words, RESELECT_LIMIT as nat);
    if walked.failure.is_some() {
        walked
    } else {
        let more = extras(
            rooms,
            xrooms,
            yrooms,
            Layout { tiles: Seq::empty(), ..walked },
            max_extra_edges,
        );
        Layout { tiles: walked.tiles + more.tiles, ..more }
    }
}

/// A walk that stands at a room with no neighbour left to join does not fail
/// on that account: while it may move on, it does so to one of the rooms it
/// has reached, drawn at random, and goes on from there.
pub proof fn lemma_stuck_walk_moves_on(rooms: Seq<Room>, xrooms: int, yrooms: int, st: Walk)
    requires
        st.layout.failure.is_none(),
        st.joined < rooms.len(),
        st.patience > 0,
        !has_eligible(
            rooms.len() as int,
            candidates_of(xrooms, yrooms, st.current),
            st.selected,
        ),
    ensures
        span(rooms, xrooms, yrooms, st) == span(
            rooms,
            xrooms,
            yrooms,
            Walk {
                layout: Layout {
                    words: ranged(st.layout.words, 0, st.joined as int).1,
                    ..st.layout
                },
                current: nth_member(st.selected, ranged(st.layout.words, 0, st.joined as int).0),
                patience: (st.patience - 1) as nat,
                ..st
            },
        ),
{
    reveal(span);
    lemma_pick_none(
        rooms.len() as int,
        candidates_of(xrooms, yrooms, st.current),
        st.selected,
        0,
        0,
        None,
        st.layout.words,
    );
}

/// The generation is a function of its inputs: two runs on the same rooms and
/// grid, from sources of the same seed and with the same bound on the extra
/// passages, lay the same tiles in the same order, join the same rooms, end
/// in the same way and leave the random source in the same state.
pub proof fn lemma_dig_repeats(
    rooms1: Seq<Room>,
    rooms2: Seq<Room>,
    xrooms: int,
    yrooms: int,
    seed1: u128,
    seed2: u128,
    max_extra_edges: int,
)
    requires
        rooms1 == rooms2,
        seed1 == seed2,
    ensures
        dig(rooms1, xrooms, yrooms, seeded_words(seed1), max_extra_edges) == dig(
            rooms2,
            xrooms,
            yrooms,
            seeded_words(seed2),
            max_extra_edges,
        ),
{
}

/// A walk that has failed or has reached all rooms is at its end.
proof fn lemma_span_ends(rooms: Seq<Room>, xrooms: int, yrooms: int, st: Walk)
    requires
        st.layout.failure.is_some() || st.joined >= rooms.len(),
    ensures
        span(rooms, xrooms, yrooms, st) == st,
{
    reveal(span);
}

/// A walk that picks a room goes on with that room joined.
proof fn lemma_span_joins(
    rooms: Seq<Room>,
    xrooms: int,
    yrooms: int,
    st: Walk,
    to: usize,
    d: Direction,
)
    requires
        st.layout.failure.is_none(),
        st.joined < rooms.len(),
        pick(
            rooms.len() as int,
            candidates_of(xrooms, yrooms, st.current),
            st.selected,
            st.layout.words,
        ).0 == Some((to, d)),
    ensures
        span(rooms, xrooms, yrooms, st) == span(
            rooms,
            xrooms,
            yrooms,
            Walk {
                layout: join(
                    rooms,
                    st.layout,
                    st.current,
                    to as int,
                    d,
                    pick(
                        rooms.len() as int,
                        candidates_of(xrooms, yrooms, st.current),
                        st.selected,
                        st.layout.words,
                    ).1,
                ),
                selected: st.selected.insert(to as int),
                joined: st.joined + 1,
                ..st
            },
        ),
{
    reveal(span);
}

/// A walk that picks no room stalls when it may move on no more, and else
/// goes on from a room drawn among those it has reached.
proof fn lemma_span_moves(rooms: Seq<Room>, xrooms: int, yrooms: int, st: Walk)
    requires
        st.layout.failure.is_none(),
        st.joined < rooms.len(),
        pick(
            rooms.len() as int,
            candidates_of(xrooms, yrooms, st.current),
            st.selected,
            st.layout.words,
        ) == (None::<(usize, Direction)>, st.layout.words),
    ensures
        st.patience == 0 ==> span(rooms, xrooms, yrooms, st) == (Walk {
            layout: Layout {
                failure: Some(DigError::Stalled { room: st.current as usize }),
                ..st.layout
            },
            ..st
        }),
        st.patience > 0 ==> span(rooms, xrooms, yrooms, st) == span(
            rooms,
            xrooms,
            yrooms,
            Walk {
                layout: Layout {
                    words: ranged(st.layout.words, 0, st.joined as int).1,
                    ..st.layout
                },
                current: nth_member(st.selected, ranged(st.layout.words, 0, st.joined as int).0),
                patience: (st.patience - 1) as nat,
                ..st
            },
        ),
{
    reveal(span);
}

/// The attempts are over when none is left or a passage could not be routed.
proof fn lemma_shortcuts_end(rooms: Seq<Room>, xrooms: int, yrooms: int, lay: Layout, tries: nat)
    requires
        tries == 0 || lay.failure.is_some(),
    ensures
        shortcuts(rooms, xrooms, yrooms, lay, tries) == lay,
{
    reveal(shortcuts);
}

/// One attempt: the room drawn and the room picked next to it are joined, or
/// nothing but the random source changes.
proof fn lemma_shortcuts_step(rooms: Seq<Room>, xrooms: int, yrooms: int, lay: Layout, tries: nat)
    requires
        tries > 0,
        lay.failure.is_none(),
    ensures
        ({
            let first = ranged(lay.words, 0, rooms.len() as int);
            let p = pick(
                rooms.len() as int,
                candidates_of(xrooms, yrooms, first.0),
                lay.links[first.0],
                first.1,
            );
            shortcuts(rooms, xrooms, yrooms, lay, tries) == shortcuts(
                rooms,
                xrooms,
                yrooms,
                match p.0 {
                    Some((to, d)) => join(rooms, lay, first.0, to as int, d, p.1),
                    None => Layout { words: p.1, ..lay },
                },
                (tries - 1) as nat,
            )
        }),
{
    reveal(shortcuts);
}

/// Whether every room that `links` join to another is among `selected`.
pub open spec fn links_within(links: Seq<Set<int>>, selected: Set<int>) -> bool {
    forall|a: int, b: int|
        0 <= a < links.len() && #[trigger] links[a].contains(b) ==> selected.contains(b)
}

/// Whether passages lead from room `root` to every room among `selected`.
pub open spec fn reaches_all(links: Seq<Set<int>>, root: int, selected: Set<int>) -> bool {
    forall|m: int| selected.contains(m) ==> #[trigger] reachable(links, root, m)
}

/// One step of the walk keeps what holds of the graph: joining a room that the
/// walk has reached to a room next to it that it has not reached adds one
/// pair of rooms next to each other, and passages then lead from the first
/// room to the new one too.
proof fn lemma_walk_step(
    links: Seq<Set<int>>,
    selected: Set<int>,
    root: int,
    cur: int,
    nxt: int,
    xrooms: int,
    yrooms: int,
)
    requires
        xrooms > 0,
        yrooms > 0,
        links.len() == xrooms * yrooms,
        mutual(links),
        adjacent_only(links, xrooms, yrooms),
        links_within(links, selected),
        reaches_all(links, root, selected),
        0 <= cur < links.len(),
        selected.contains(cur),
        !selected.contains(nxt),
        direction_to(xrooms, yrooms, cur, nxt).is_some(),
    ensures
        0 <= nxt < links.len(),
        mutual(linked(links, cur, nxt)),
        adjacent_only(linked(links, cur, nxt), xrooms, yrooms),
        links_within(linked(links, cur, nxt), selected.insert(nxt)),
        reaches_all(linked(links, cur, nxt), root, selected.insert(nxt)),
        degree_sum(linked(links, cur, nxt)) == degree_sum(links) + 2,
        linked(links, cur, nxt).len() == links.len(),
{
    let after = linked(links, cur, nxt);
    lemma_direction_back(xrooms, yrooms, cur, nxt);
    lemma_link_adds_pair(links, cur, nxt);
    assert forall|m: int| selected.insert(nxt).contains(m) implies #[trigger] reachable(
        after,
        root,
        m,
    ) by {
        if m == nxt {
            assert(reachable(links, root, cur));
            lemma_reach_survives(links, cur, nxt, root, cur);
            lemma_reach_step(after, root, cur, nxt);
        } else {
            assert(reachable(links, root, m));
            lemma_reach_survives(links, cur, nxt, root, m);
        }
    }
    assert forall|a: int, b: int|
        0 <= a < after.len() && #[trigger] after[a].contains(b) implies selected.insert(
        nxt,
    ).contains(b) && direction_to(xrooms, yrooms, a, b).is_some() by {
        if !links[a].contains(b) {
            assert((a == cur && b == nxt) || (a == nxt && b == cur));
        }
    }
}

/// One more pair of rooms next to each other, joined in a graph, keeps what
/// holds of the graph and cuts no walk.
proof fn lemma_shortcut_step(
    before: Seq<Set<int>>,
    links: Seq<Set<int>>,
    a: int,
    b: int,
    xrooms: int,
    yrooms: int,
)
    requires
        xrooms > 0,
        yrooms > 0,
        links.len() == xrooms * yrooms,
        mutual(links),
        adjacent_only(links, xrooms, yrooms),
        forall|p: int, q: int| #[trigger] reachable(before, p, q) ==> reachable(links, p, q),
        0 <= a < links.len(),
        !links[a].contains(b),
        direction_to(xrooms, yrooms, a, b).is_some(),
    ensures
        0 <= b < links.len(),
        mutual(linked(links, a, b)),
        adjacent_only(linked(links, a, b), xrooms, yrooms),
        forall|p: int, q: int| #[trigger]
            reachable(before, p, q) ==> reachable(linked(links, a, b), p, q),
        degree_sum(linked(links, a, b)) == degree_sum(links) + 2,
        linked(links, a, b).len() == links.len(),
{
    let after = linked(links, a, b);
    lemma_direction_back(xrooms, yrooms, a, b);
    lemma_link_adds_pair(links, a, b);
    assert forall|p: int, q: int| #[trigger] reachable(before, p, q) implies reachable(
        after,
        p,
        q,
    ) by {
        lemma_reach_survives(links, a, b, p, q);
    }
    assert forall|p: int, q: int|
        0 <= p < after.len() && #[trigger] after[p].contains(q) implies direction_to(
        xrooms,
        yrooms,
        p,
        q,
    ).is_some() by {
        if !links[p].contains(q) {
            assert((p == a && q == b) || (p == b && q == a));
        }
    }
}

/// Joins all rooms by a walk from a room drawn at random, and appends the
/// tiles of the passages to `register`. The walk may move on at most
/// `patience` times from a room with no neighbour left to join.
pub fn span_rooms(
    rooms: &[Room],
    xrooms: X,
    yrooms: Y,
    rng: &mut RngHandle,
    patience: u64,
    register: &mut Vec<Positioned<Surface>>,
) -> (res: Result<RoomGraph, DigError>)
    requires
        fits_grid(rooms@, xrooms.0 as int, yrooms.0 as int),
    ensures
        ({
            let end = spanning(
                rooms@,
                xrooms.0 as int,
                yrooms.0 as int,
                old(rng)@,
                patience as nat,
            );
            &&& final(rng)@ == end.words
            &&& final(register)@ == old(register)@ + end.tiles
            &&& match res {
                Ok(graph) => end.failure.is_none() && graph@ == end.links,
                Err(e) => end.failure == Some(e),
            }
        }),
        res matches Ok(graph) ==> {
            &&& graph.wf(xrooms.0 as int, yrooms.0 as int)
            &&& graph@.len() == rooms@.len()
            &&& mutual(graph@)
            &&& adjacent_only(graph@, xrooms.0 as int, yrooms.0 as int)
            &&& connected(graph@)
            &&& pair_count(graph@) == rooms@.len() - 1
            &&& all_joined(graph@, final(register)@, rooms@)
        },
{
    let ghost w = xrooms.0 as int;
    let ghost h = yrooms.0 as int;
    let ghost before = register@;
    let ghost goal = spanning(rooms@, w, h, rng@, patience as nat);
    let num_rooms: usize = rooms.len();
    proof {
        assert(w * h > 0) by (nonlinear_arith)
            requires
                w > 0,
                h > 0,
        ;
    }
    let mut graph = RoomGraph::new(xrooms, yrooms);
    let mut selected = FenwickSet::with_capacity(num_rooms);
    let mut cur_room: usize = rng.range(0..num_rooms);
    selected.insert(cur_room);
    let mut patience_left: u64 = patience;
    let ghost root = cur_room as int;
    let ghost mut laid: Seq<Positioned<Surface>> = Seq::empty();
    proof {
        assert(graph@ =~= Seq::new(rooms@.len(), |i: int| Set::<int>::empty()));
        assert(register@ =~= before + laid);
        lemma_degree_none(graph@);
        lemma_reach_self(graph@, root);
        lemma_none_joined(graph@, register@, rooms@);
        selected.lemma_members_bounded();
    }
    while selected.len() < num_rooms
        invariant
            fits_grid(rooms@, w, h),
            w == xrooms.0,
            h == yrooms.0,
            num_rooms == rooms@.len(),
            selected.wf(),
            selected.capacity() == num_rooms,
            selected@.contains(cur_room as int),
            selected@.contains(root),
            cur_room < num_rooms,
            graph.wf(w, h),
            graph@.len() == num_rooms,
            mutual(graph@),
            adjacent_only(graph@, w, h),
            links_within(graph@, selected@),
            reaches_all(graph@, root, selected@),
            degree_sum(graph@) + 2 == 2 * selected@.len(),
            all_joined(graph@, register@, rooms@),
            register@ == before + laid,
            span(
                rooms@,
                w,
                h,
                Walk {
                    layout: Layout { words: rng@, tiles: laid, links: graph@, failure: None },
                    selected: selected@,
                    joined: selected@.len(),
                    current: cur_room as int,
                    patience: patience_left as nat,
                },
            ).layout == goal,
            goal == spanning(rooms@, w, h, old(rng)@, patience as nat),
            before == old(register)@,
        decreases num_rooms - selected@.len(), patience_left,
    {
        let ghost st = Walk {
            layout: Layout { words: rng@, tiles: laid, links: graph@, failure: None },
            selected: selected@,
            joined: selected@.len(),
            current: cur_room as int,
            patience: patience_left as nat,
        };
        let ghost links = graph@;
        proof {
            selected.lemma_members_bounded();
        }
        let nxt = select_candidate(num_rooms, graph.node(cur_room), &selected, rng);
        if let Some((nxt_room, direction)) = nxt {
            let ghost drawn = rng@;
            proof {
                lemma_walk_step(links, selected@, root, cur_room as int, nxt_room as int, w, h);
                lemma_direction_back(w, h, cur_room as int, nxt_room as int);
            }
            let ghost held = register@;
            selected.insert(nxt_room);
            graph.connect(cur_room, nxt_room);
            let routed = connect_2rooms(
                &rooms[cur_room],
                &rooms[nxt_room],
                direction,
                rng,
                register,
            );
            proof {
                let c = corridor(rooms@[cur_room as int], rooms@[nxt_room as int], direction, drawn);
                assert(register@ =~= before + (laid + c.tiles));
                laid = laid + c.tiles;
            }
            let ghost next = Walk {
                layout: join(rooms@, st.layout, cur_room as int, nxt_room as int, direction, drawn),
                selected: selected@,
                joined: selected@.len(),
                ..st
            };
            proof {
                lemma_span_joins(rooms@, w, h, st, nxt_room, direction);
            }
            if let Err(cause) = routed {
                proof {
                    lemma_span_ends(rooms@, w, h, next);
                }
                return Err(DigError::Routing { from: cur_room, to: nxt_room, cause });
            }
            proof {
                lemma_all_joined_grows(
                    links,
                    held,
                    corridor(
                        rooms@[cur_room as int],
                        rooms@[nxt_room as int],
                        direction,
                        drawn,
                    ).tiles,
                    rooms@,
                    cur_room as int,
                    nxt_room as int,
                );
            }
        } else {
            proof {
                lemma_span_moves(rooms@, w, h, st);
            }
            if patience_left == 0 {
                return Err(DigError::Stalled { room: cur_room });
            }
            patience_left = patience_left - 1;
            cur_room = selected.select(rng).unwrap();
        }
    }
    proof {
        lemma_span_ends(
            rooms@,
            w,
            h,
            Walk {
                layout: Layout { words: rng@, tiles: laid, links: graph@, failure: None },
                selected: selected@,
                joined: selected@.len(),
                current: cur_room as int,
                patience: patience_left as nat,
            },
        );
        selected.lemma_full();
        assert forall|b: int| 0 <= b < graph@.len() implies reachable(graph@, root, b) by {
            assert(selected@.contains(b));
        }
        lemma_spanned_is_connected(graph@, root);
    }
    Ok(graph)
}

/// Makes a number of attempts, drawn below `max_extra_edges`, to join one more
/// pair of rooms each, so that more than one way leads from room to room, and
/// appends the tiles of the passages to `register`. An attempt that finds no
/// pair to join is passed over.
pub fn add_shortcuts(
    rooms: &[Room],
    xrooms: X,
    yrooms: Y,
    graph: &mut RoomGraph,
    rng: &mut RngHandle,
    max_extra_edges: usize,
    register: &mut Vec<Positioned<Surface>>,
) -> (res: Result<(), DigError>)
    requires
        fits_grid(rooms@, xrooms.0 as int, yrooms.0 as int),
        old(graph).wf(xrooms.0 as int, yrooms.0 as int),
        old(graph)@.len() == rooms@.len(),
        mutual(old(graph)@),
        adjacent_only(old(graph)@, xrooms.0 as int, yrooms.0 as int),
    ensures
        ({
            let end = extras(
                rooms@,
                xrooms.0 as int,
                yrooms.0 as int,
                Layout {
                    words: old(rng)@,
                    tiles: Seq::empty(),
                    links: old(graph)@,
                    failure: None,
                },
                max_extra_edges as int,
            );
            &&& final(rng)@ == end.words
            &&& final(register)@ == old(register)@ + end.tiles
            &&& final(graph)@ == end.links
            &&& res == match end.failure {
                None => Ok::<(), DigError>(()),
                Some(e) => Err(e),
            }
        }),
        final(graph).wf(xrooms.0 as int, yrooms.0 as int),
        final(graph)@.len() == rooms@.len(),
        mutual(final(graph)@),
        adjacent_only(final(graph)@, xrooms.0 as int, yrooms.0 as int),
        connected(old(graph)@) ==> connected(final(graph)@),
        pair_count(old(graph)@) <= pair_count(final(graph)@),
        max_extra_edges == 0 ==> pair_count(final(graph)@) == pair_count(old(graph)@),
        max_extra_edges > 0 ==> pair_count(final(graph)@) < pair_count(old(graph)@)
            + max_extra_edges,
        res.is_ok() && all_joined(old(graph)@, old(register)@, rooms@) ==> all_joined(
            final(graph)@,
            final(register)@,
            rooms@,
        ),
{
    let ghost w = xrooms.0 as int;
    let ghost h = yrooms.0 as int;
    let ghost before = register@;
    let ghost links0 = graph@;
    let ghost start = Layout { words: rng@, tiles: Seq::empty(), links: graph@, failure: None };
    let ghost goal = extras(rooms@, w, h, start, max_extra_edges as int);
    let num_rooms: usize = rooms.len();
    if max_extra_edges == 0 {
        assert(register@ =~= before + goal.tiles);
        return Ok(());
    }
    proof {
        assert(w * h > 0) by (nonlinear_arith)
            requires
                w > 0,
                h > 0,
        ;
    }
    let try_num: usize = rng.range(0..max_extra_edges);
    let ghost mut laid: Seq<Positioned<Surface>> = Seq::empty();
    let ghost mut added: nat = 0;
    let mut tried: usize = 0;
    assert(register@ =~= before + laid);
    while tried < try_num
        invariant
            fits_grid(rooms@, w, h),
            w == xrooms.0,
            h == yrooms.0,
            num_rooms == rooms@.len(),
            num_rooms > 0,
            tried <= try_num,
            try_num < max_extra_edges,
            graph.wf(w, h),
            graph@.len() == num_rooms,
            links0.len() == num_rooms,
            mutual(graph@),
            adjacent_only(graph@, w, h),
            forall|a: int, b: int| #[trigger]
                reachable(links0, a, b) ==> reachable(graph@, a, b),
            added <= tried,
            degree_sum(graph@) == degree_sum(links0) + 2 * added,
            all_joined(links0, before, rooms@) ==> all_joined(graph@, register@, rooms@),
            links0 == old(graph)@,
            before == old(register)@,
            goal == extras(
                rooms@,
                w,
                h,
                Layout { words: old(rng)@, tiles: Seq::empty(), links: links0, failure: None },
                max_extra_edges as int,
            ),
            register@ == before + laid,
            shortcuts(
                rooms@,
                w,
                h,
                Layout { words: rng@, tiles: laid, links: graph@, failure: None },
                (try_num - tried) as nat,
            ) == goal,
        decreases try_num - tried,
    {
        let ghost lay = Layout { words: rng@, tiles: laid, links: graph@, failure: None };
        let ghost links = graph@;
        proof {
            lemma_shortcuts_step(rooms@, w, h, lay, (try_num - tried) as nat);
        }
        let room1: usize = rng.range(0..num_rooms);
        let picked = select_unjoined_candidate(num_rooms, graph.node(room1), rng);
        if let Some((room2, direction)) = picked {
            let ghost drawn = rng@;
            proof {
                lemma_shortcut_step(links0, links, room1 as int, room2 as int, w, h);
                lemma_direction_back(w, h, room1 as int, room2 as int);
            }
            let ghost held = register@;
            graph.connect(room1, room2);
            let routed = connect_2rooms(&rooms[room1], &rooms[room2], direction, rng, register);
            let ghost next = join(rooms@, lay, room1 as int, room2 as int, direction, drawn);
            proof {
                let c = corridor(rooms@[room1 as int], rooms@[room2 as int], direction, drawn);
                assert(register@ =~= before + (laid + c.tiles));
                laid = laid + c.tiles;
                added = added + 1;
            }
            if let Err(cause) = routed {
                proof {
                    lemma_shortcuts_end(rooms@, w, h, next, (try_num - tried - 1) as nat);
                    lemma_reach_all(links0, graph@);
                }
                return Err(DigError::Routing { from: room1, to: room2, cause });
            }
            proof {
                if all_joined(links0, before, rooms@) {
                    lemma_all_joined_grows(
                        links,
                        held,
                        corridor(rooms@[room1 as int], rooms@[room2 as int], direction, drawn).tiles,
                        rooms@,
                        room1 as int,
                        room2 as int,
                    );
                }
            }
        }
        tried = tried + 1;
    }
    proof {
        lemma_shortcuts_end(
            rooms@,
            w,
            h,
            Layout { words: rng@, tiles: laid, links: graph@, failure: None },
            0,
        );
        lemma_reach_all(links0, graph@);
    }
    Ok(())
}

/// Where every walk of one graph is a walk of another with as many rooms, the
/// second is connected if the first is.
proof fn lemma_reach_all(before: Seq<Set<int>>, after: Seq<Set<int>>)
    requires
        before.len() == after.len(),
        forall|a: int, b: int| #[trigger] reachable(before, a, b) ==> reachable(after, a, b),
    ensures
        connected(before) ==> connected(after),
{
    if connected(before) {
        assert forall|a: int, b: int|
            0 <= a < after.len() && 0 <= b < after.len() implies #[trigger] reachable(
            after,
            a,
            b,
        ) by {
            assert(reachable(before, a, b));
        }
    }
}

/// Makes passages between the rooms of a grid, so that a way leads from every
/// room to every other, and appends their tiles to `register` in the order in
/// which they are laid. Returns the graph of the rooms as the passages join
/// them.
pub fn dig_passges(
    rooms: &[Room],
    xrooms: X,
    yrooms: Y,
    rng: &mut RngHandle,
    max_extra_edges: usize,
    register: &mut Vec<Positioned<Surface>>,
) -> (res: Result<RoomGraph, DigError>)
    requires
        fits_grid(rooms@, xrooms.0 as int, yrooms.0 as int),
    ensures
        ({
            let end = dig(
                rooms@,
                xrooms.0 as int,
                yrooms.0 as int,
                old(rng)@,
                max_extra_edges as int,
            );
            &&& final(rng)@ == end.words
            &&& final(register)@ == old(register)@ + end.tiles
            &&& match res {
                Ok(graph) => end.failure.is_none() && graph@ == end.links,
                Err(e) => end.failure == Some(e),
            }
        }),
        res matches Ok(graph) ==> {
            &&& graph.wf(xrooms.0 as int, yrooms.0 as int)
            &&& graph@.len() == rooms@.len()
            &&& mutual(graph@)
            &&& adjacent_only(graph@, xrooms.0 as int, yrooms.0 as int)
            &&& connected(graph@)
            &&& rooms@.len() - 1 <= pair_count(graph@)
            &&& max_extra_edges == 0 ==> pair_count(graph@) == rooms@.len() - 1
            &&& max_extra_edges > 0 ==> pair_count(graph@) < rooms@.len() - 1 + max_extra_edges
            &&& all_joined(graph@, final(register)@, rooms@)
        },
{
    let ghost before = register@;
    let ghost walked = spanning(
        rooms@,
        xrooms.0 as int,
        yrooms.0 as int,
        rng@,
        RESELECT_LIMIT as nat,
    );
    let mut graph = span_rooms(rooms, xrooms, yrooms, rng, RESELECT_LIMIT, register)?;
    let ghost more = extras(
        rooms@,
        xrooms.0 as int,
        yrooms.0 as int,
        Layout { tiles: Seq::empty(), ..walked },
        max_extra_edges as int,
    );
    let extra = add_shortcuts(rooms, xrooms, yrooms, &mut graph, rng, max_extra_edges, register);
    assert(register@ =~= before + (walked.tiles + more.tiles));
    match extra {
        Ok(_) => Ok(graph),
        Err(e) => Err(e),
    }
}

} // verus!
