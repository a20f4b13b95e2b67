//! The graph of the rooms of a grid: which rooms lie next to each other, and
//! which of them a passage joins already.
use crate::bits::{bit_length, enabled_bits};
use crate::dungeon::{Direction, X, Y};
use fixedbitset::FixedBitSet;
use std::collections::HashMap;
use vstd::arithmetic::div_mod::lemma_fundamental_div_mod_converse;
use vstd::prelude::*;

verus! {

broadcast use vstd::std_specs::hash::group_hash_axioms;

/// The room next to room `from` in the cardinal direction `d`, in a grid of
/// `xrooms` columns and `yrooms` rows that numbers its rooms row by row.
pub open spec fn neighbor(xrooms: int, yrooms: int, from: int, d: Direction) -> Option<int> {
    let x = from % xrooms;
    let y = from / xrooms;
    match d {
        Direction::Up => if y >= 1 { Some(from - xrooms) } else { None },
        Direction::Down => if y + 1 < yrooms { Some(from + xrooms) } else { None },
        Direction::Left => if x >= 1 { Some(from - 1) } else { None },
        Direction::Right => if x + 1 < xrooms { Some(from + 1) } else { None },
        _ => None,
    }
}

/// The cardinal direction in which room `to` lies next to room `from`.
pub open spec fn direction_to(xrooms: int, yrooms: int, from: int, to: int) -> Option<Direction> {
    if neighbor(xrooms, yrooms, from, Direction::Down) == Some(to) {
        Some(Direction::Down)
    } else if neighbor(xrooms, yrooms, from, Direction::Left) == Some(to) {
        Some(Direction::Left)
    } else if neighbor(xrooms, yrooms, from, Direction::Right) == Some(to) {
        Some(Direction::Right)
    } else if neighbor(xrooms, yrooms, from, Direction::Up) == Some(to) {
        Some(Direction::Up)
    } else {
        None
    }
}

/// The rooms next to room `from`, each with the direction towards it.
pub open spec fn candidates_of(xrooms: int, yrooms: int, from: int) -> Map<usize, Direction> {
    Map::new(
        |to: usize| direction_to(xrooms, yrooms, from, to as int).is_some(),
        |to: usize| direction_to(xrooms, yrooms, from, to as int).unwrap(),
    )
}

/// The connections `links` with rooms `a` and `b` joined.
pub open spec fn linked(links: Seq<Set<int>>, a: int, b: int) -> Seq<Set<int>> {
    let half = links.update(a, links[a].insert(b));
    half.update(b, half[b].insert(a))
}

/// `candidates` with the room next to `from` in direction `d`, if there is one.
pub open spec fn with_candidate(
    candidates: Map<usize, Direction>,
    xrooms: int,
    yrooms: int,
    from: int,
    d: Direction,
) -> Map<usize, Direction> {
    match neighbor(xrooms, yrooms, from, d) {
        Some(to) => candidates.insert(to as usize, d),
        None => candidates,
    }
}

/// The cell at column `x` and row `y` of a grid of `w` columns and `h` rows has
/// the number `x + y * w`, which gives the column and the row back.
pub proof fn lemma_cell_number(w: int, h: int, x: int, y: int)
    requires
        0 <= x < w,
        0 <= y < h,
    ensures
        0 <= x + y * w < w * h,
        (x + y * w) % w == x,
        (x + y * w) / w == y,
        (y + 1) * w == y * w + w,
        (y - 1) * w == y * w - w,
        h * w == w * h,
{
    assert(0 <= y * w <= (h - 1) * w) by (nonlinear_arith)
        requires
            0 <= y <= h - 1,
            w > 0,
    ;
    assert((h - 1) * w == w * h - w) by (nonlinear_arith);
    assert((y + 1) * w == y * w + w) by (nonlinear_arith);
    assert((y - 1) * w == y * w - w) by (nonlinear_arith);
    assert(h * w == w * h) by (nonlinear_arith);
    lemma_fundamental_div_mod_converse(x + y * w, w, y, x);
}

/// A room of the graph.
pub struct Node {
    connections: FixedBitSet,
    candidates: HashMap<usize, Direction>,
    id: usize,
}

/// Adds the room next to the room at `room_pos` in direction `d`, if there is
/// one, to `candidates`.
fn add_candidate(
    candidates: &mut HashMap<usize, Direction>,
    xrooms: X,
    yrooms: Y,
    room_pos: (i32, i32),
    d: Direction,
)
    requires
        d.is_cardinal(),
        xrooms.0 * yrooms.0 <= i32::MAX,
        0 <= room_pos.0 < xrooms.0,
        0 <= room_pos.1 < yrooms.0,
    ensures
        final(candidates)@ == with_candidate(
            old(candidates)@,
            xrooms.0 as int,
            yrooms.0 as int,
            room_pos.0 + room_pos.1 * xrooms.0,
            d,
        ),
{
    let delta = d.to_cd();
    let next: (i32, i32) = (room_pos.0 + delta.x.0, room_pos.1 + delta.y.0);
    proof {
        lemma_cell_number(
            xrooms.0 as int,
            yrooms.0 as int,
            room_pos.0 as int,
            room_pos.1 as int,
        );
    }
    if next.0 < 0 || next.1 < 0 || next.0 >= xrooms.0 || next.1 >= yrooms.0 {
        return ;
    }
    proof {
        lemma_cell_number(xrooms.0 as int, yrooms.0 as int, next.0 as int, next.1 as int);
    }
    candidates.insert((next.0 + next.1 * xrooms.0) as usize, d);
}

impl Node {
    /// The rooms that a passage joins to this one.
    pub closed spec fn links(&self) -> Set<int> {
        enabled_bits(self.connections)
    }

    /// The rooms next to this one, each with the direction towards it.
    pub closed spec fn candidates(&self) -> Map<usize, Direction> {
        self.candidates@
    }

    /// The number of this room.
    pub closed spec fn id(&self) -> usize {
        self.id
    }

    /// The number of rooms that this room can be joined to.
    pub closed spec fn capacity(&self) -> nat {
        bit_length(self.connections)
    }

    /// Whether this is room `at` of a grid of `xrooms` columns and `yrooms` rows.
    pub open spec fn wf(&self, xrooms: int, yrooms: int, at: int) -> bool {
        &&& self.id() == at
        &&& self.candidates() == candidates_of(xrooms, yrooms, at)
        &&& self.capacity() == xrooms * yrooms
    }

    /// Room `id`, at column `room_pos.0` and row `room_pos.1` of the grid, with
    /// no connection yet.
    pub fn new(xrooms: X, yrooms: Y, room_pos: (i32, i32), id: usize) -> (node: Node)
        requires
            xrooms.0 * yrooms.0 <= i32::MAX,
            0 <= room_pos.0 < xrooms.0,
            0 <= room_pos.1 < yrooms.0,
            id == room_pos.0 + room_pos.1 * xrooms.0,
        ensures
            node.wf(xrooms.0 as int, yrooms.0 as int, id as int),
            node.links() == Set::<int>::empty(),
    {
        let mut candidates: HashMap<usize, Direction> = HashMap::new();
        add_candidate(&mut candidates, xrooms, yrooms, room_pos, Direction::Up);
        add_candidate(&mut candidates, xrooms, yrooms, room_pos, Direction::Right);
        add_candidate(&mut candidates, xrooms, yrooms, room_pos, Direction::Left);
        add_candidate(&mut candidates, xrooms, yrooms, room_pos, Direction::Down);
        proof {
            lemma_cell_number(
                xrooms.0 as int,
                yrooms.0 as int,
                room_pos.0 as int,
                room_pos.1 as int,
            );
            assert(candidates@ =~= candidates_of(xrooms.0 as int, yrooms.0 as int, id as int));
        }
        let num_rooms: usize = (xrooms.0 * yrooms.0) as usize;
        Node { connections: FixedBitSet::with_capacity(num_rooms), candidates, id }
    }

    /// The direction towards room `to`, if it lies next to this room.
    pub fn candidate(&self, to: usize) -> (d: Option<Direction>)
        ensures
            d.is_some() == self.candidates().contains_key(to),
            d matches Some(dir) ==> self.candidates()[to] == dir,
    {
        match self.candidates.get(&to) {
            Some(d) => Some(*d),
            None => None,
        }
    }

    /// Whether a passage joins room `to` to this room.
    pub fn is_connected(&self, to: usize) -> (joined: bool)
        ensures
            joined == self.links().contains(to as int),
    {
        self.connections.contains(to)
    }
}

/// The rooms of a grid with their connections. Its view gives, for each room,
/// the rooms joined to it.
pub struct RoomGraph {
    inner: Vec<Node>,
}

impl View for RoomGraph {
    type V = Seq<Set<int>>;

    closed spec fn view(&self) -> Seq<Set<int>> {
        Seq::new(self.inner.len() as nat, |i: int| self.inner[i].links())
    }
}

impl RoomGraph {
    /// Whether this is the graph of a grid of `xrooms` columns and `yrooms` rows.
    pub closed spec fn wf(&self, xrooms: int, yrooms: int) -> bool {
        &&& xrooms > 0
        &&& yrooms > 0
        &&& self.inner.len() == xrooms * yrooms
        &&& forall|i: int|
            0 <= i < self.inner.len() ==> (#[trigger] self.inner[i]).wf(xrooms, yrooms, i)
    }

    /// The graph of a grid of `xrooms` columns and `yrooms` rows, with no two
    /// rooms joined.
    pub fn new(xrooms: X, yrooms: Y) -> (graph: RoomGraph)
        requires
            xrooms.0 > 0,
            yrooms.0 > 0,
            xrooms.0 * yrooms.0 <= i32::MAX,
        ensures
            graph.wf(xrooms.0 as int, yrooms.0 as int),
            graph@.len() == xrooms.0 * yrooms.0,
            forall|i: int| 0 <= i < graph@.len() ==> graph@[i] == Set::<int>::empty(),
    {
        let mut inner: Vec<Node> = Vec::new();
        let mut y: i32 = 0;
        while y < yrooms.0
            invariant
                xrooms.0 > 0,
                yrooms.0 > 0,
                xrooms.0 * yrooms.0 <= i32::MAX,
                0 <= y <= yrooms.0,
                inner.len() == y * xrooms.0,
                forall|i: int|
                    0 <= i < inner.len() ==> (#[trigger] inner[i]).wf(
                        xrooms.0 as int,
                        yrooms.0 as int,
                        i,
                    ) && inner[i].links() == Set::<int>::empty(),
            decreases yrooms.0 - y,
        {
            let mut x: i32 = 0;
            while x < xrooms.0
                invariant
                    xrooms.0 > 0,
                    yrooms.0 > 0,
                    xrooms.0 * yrooms.0 <= i32::MAX,
                    0 <= y < yrooms.0,
                    0 <= x <= xrooms.0,
                    inner.len() == y * xrooms.0 + x,
                    forall|i: int|
                        0 <= i < inner.len() ==> (#[trigger] inner[i]).wf(
                            xrooms.0 as int,
                            yrooms.0 as int,
                            i,
                        ) && inner[i].links() == Set::<int>::empty(),
                decreases xrooms.0 - x,
            {
                let id: usize = inner.len();
                proof {
                    lemma_cell_number(xrooms.0 as int, yrooms.0 as int, x as int, y as int);
                }
                inner.push(Node::new(xrooms, yrooms, (x, y), id));
                x = x + 1;
            }
            proof {
                assert((y + 1) * xrooms.0 == y * xrooms.0 + xrooms.0) by (nonlinear_arith);
            }
            y = y + 1;
        }
        proof {
            assert(yrooms.0 * xrooms.0 == xrooms.0 * yrooms.0) by (nonlinear_arith);
        }
        RoomGraph { inner }
    }

    /// The number of rooms.
    pub fn len(&self) -> (n: usize)
        ensures
            n == self@.len(),
    {
        self.inner.len()
    }

    /// Room `i` of the graph.
    pub fn node(&self, i: usize) -> (node: &Node)
        requires
            i < self@.len(),
        ensures
            node.links() == self@[i as int],
            forall|xrooms: int, yrooms: int| #[trigger]
                self.wf(xrooms, yrooms) ==> node.wf(xrooms, yrooms, i as int),
    {
        &self.inner[i]
    }

    /// Joins the rooms `node1` and `node2`. Joining them again changes nothing.
    pub fn connect(&mut self, node1: usize, node2: usize)
        requires
            node1 < old(self)@.len(),
            node2 < old(self)@.len(),
            exists|xrooms: int, yrooms: int| old(self).wf(xrooms, yrooms),
        ensures
            final(self)@ == linked(old(self)@, node1 as int, node2 as int),
            forall|xrooms: int, yrooms: int| #[trigger]
                old(self).wf(xrooms, yrooms) ==> final(self).wf(xrooms, yrooms),
    {
        let ghost before = self.inner@;
        proof {
            let (xrooms, yrooms) = choose|xrooms: int, yrooms: int| self.wf(xrooms, yrooms);
            assert(self.inner[node1 as int].wf(xrooms, yrooms, node1 as int));
            assert(self.inner[node2 as int].wf(xrooms, yrooms, node2 as int));
        }
        self.inner[node1].connections.insert(node2);
        self.inner[node2].connections.insert(node1);
        proof {
            assert(self@ =~= linked(old(self)@, node1 as int, node2 as int));
        }
    }
}

/// Whether `route` is a walk through the graph: a sequence of rooms, each
/// joined to the one before it.
pub open spec fn is_route(links: Seq<Set<int>>, route: Seq<int>) -> bool {
    &&& route.len() > 0
    &&& forall|i: int| 0 <= i < route.len() ==> 0 <= #[trigger] route[i] < links.len()
    &&& forall|i: int| 0 < i < route.len() ==> links[route[i - 1]].contains(#[trigger] route[i])
}

/// Whether passages lead from room `a` to room `b`.
pub open spec fn reachable(links: Seq<Set<int>>, a: int, b: int) -> bool {
    exists|route: Seq<int>| is_route(links, route) && route[0] == a && route.last() == b
}

/// Whether passages lead from every room to every other.
pub open spec fn connected(links: Seq<Set<int>>) -> bool {
    forall|a: int, b: int|
        0 <= a < links.len() && 0 <= b < links.len() ==> #[trigger] reachable(links, a, b)
}

/// Whether every connection is recorded at both of its rooms, and each room
/// has finitely many connections, all of them to rooms of the graph.
pub open spec fn mutual(links: Seq<Set<int>>) -> bool {
    &&& forall|a: int| 0 <= a < links.len() ==> (#[trigger] links[a]).finite()
    &&& forall|a: int, b: int|
        0 <= a < links.len() && #[trigger] links[a].contains(b) ==> {
            &&& 0 <= b < links.len()
            &&& links[b].contains(a)
        }
}

/// Whether every connection joins two rooms that lie next to each other in the
/// grid.
pub open spec fn adjacent_only(links: Seq<Set<int>>, xrooms: int, yrooms: int) -> bool {
    forall|a: int, b: int|
        0 <= a < links.len() && #[trigger] links[a].contains(b) ==> direction_to(
            xrooms,
            yrooms,
            a,
            b,
        ).is_some()
}

/// The number of connections counted at each room and added up.
pub open spec fn degree_sum(links: Seq<Set<int>>) -> nat
    decreases links.len(),
{
    if links.len() == 0 {
        0
    } else {
        degree_sum(links.drop_last()) + links.last().len()
    }
}

/// The number of pairs of rooms that a passage joins. Each pair counts at
/// both of its rooms.
pub open spec fn pair_count(links: Seq<Set<int>>) -> nat {
    degree_sum(links) / 2
}

/// The room next to `a` in direction `d` is a room of the grid, and has `a`
/// next to it in the opposite direction.
pub proof fn lemma_neighbor_back(xrooms: int, yrooms: int, a: int, d: Direction)
    requires
        xrooms > 0,
        yrooms > 0,
        0 <= a < xrooms * yrooms,
        neighbor(xrooms, yrooms, a, d).is_some(),
    ensures
        0 <= neighbor(xrooms, yrooms, a, d).unwrap() < xrooms * yrooms,
        neighbor(xrooms, yrooms, neighbor(xrooms, yrooms, a, d).unwrap(), d.opposite()) == Some(a),
        d.is_cardinal(),
{
    let x = a % xrooms;
    let y = a / xrooms;
    vstd::arithmetic::div_mod::lemma_fundamental_div_mod(a, xrooms);
    assert(a == xrooms * y + x);
    assert(xrooms * y == y * xrooms) by (nonlinear_arith);
    assert(0 <= x < xrooms);
    assert(0 <= y < yrooms) by (nonlinear_arith)
        requires
            0 <= a < xrooms * yrooms,
            a == y * xrooms + x,
            0 <= x < xrooms,
            xrooms > 0,
    ;
    let b = neighbor(xrooms, yrooms, a, d).unwrap();
    match d {
        Direction::Up => {
            lemma_cell_number(xrooms, yrooms, x, y - 1);
        },
        Direction::Down => {
            lemma_cell_number(xrooms, yrooms, x, y + 1);
        },
        Direction::Left => {
            lemma_cell_number(xrooms, yrooms, x - 1, y);
        },
        Direction::Right => {
            lemma_cell_number(xrooms, yrooms, x + 1, y);
        },
        _ => {},
    }
}

/// Two rooms that lie next to each other do so from both sides, in opposite
/// directions.
pub proof fn lemma_direction_back(xrooms: int, yrooms: int, a: int, b: int)
    requires
        xrooms > 0,
        yrooms > 0,
        0 <= a < xrooms * yrooms,
        direction_to(xrooms, yrooms, a, b).is_some(),
    ensures
        0 <= b < xrooms * yrooms,
        a != b,
        direction_to(xrooms, yrooms, b, a).is_some(),
        neighbor(xrooms, yrooms, a, direction_to(xrooms, yrooms, a, b).unwrap()) == Some(b),
        neighbor(
            xrooms,
            yrooms,
            b,
            direction_to(xrooms, yrooms, a, b).unwrap().opposite(),
        ) == Some(a),
        direction_to(xrooms, yrooms, a, b).unwrap().is_cardinal(),
{
    let d = direction_to(xrooms, yrooms, a, b).unwrap();
    lemma_neighbor_back(xrooms, yrooms, a, d);
}

/// A room is reached from itself.
pub proof fn lemma_reach_self(links: Seq<Set<int>>, a: int)
    requires
        0 <= a < links.len(),
    ensures
        reachable(links, a, a),
{
    let route = seq![a];
    assert(is_route(links, route) && route[0] == a && route.last() == a);
}

/// A walk that ends at a room leads on to the rooms joined to it.
pub proof fn lemma_reach_step(links: Seq<Set<int>>, from: int, mid: int, to: int)
    requires
        reachable(links, from, mid),
        links[mid].contains(to),
        0 <= to < links.len(),
    ensures
        reachable(links, from, to),
{
    let route = choose|route: Seq<int>|
        is_route(links, route) && route[0] == from && route.last() == mid;
    let longer = route.push(to);
    assert(is_route(links, longer) && longer[0] == from && longer.last() == to);
}

/// Joining two rooms cuts no walk.
pub proof fn lemma_reach_survives(links: Seq<Set<int>>, a: int, b: int, from: int, to: int)
    requires
        reachable(links, from, to),
        0 <= a < links.len(),
        0 <= b < links.len(),
    ensures
        reachable(linked(links, a, b), from, to),
{
    let route = choose|route: Seq<int>|
        is_route(links, route) && route[0] == from && route.last() == to;
    let after = linked(links, a, b);
    assert forall|i: int| 0 < i < route.len() implies after[route[i - 1]].contains(
        #[trigger] route[i],
    ) by {
        assert(links[route[i - 1]].contains(route[i]));
    }
    assert(is_route(after, route) && route[0] == from && route.last() == to);
}

/// Two walks, the second from the end of the first, make one.
pub proof fn lemma_reach_chain(links: Seq<Set<int>>, a: int, b: int, c: int)
    requires
        reachable(links, a, b),
        reachable(links, b, c),
    ensures
        reachable(links, a, c),
{
    let first = choose|route: Seq<int>|
        is_route(links, route) && route[0] == a && route.last() == b;
    let second = choose|route: Seq<int>|
        is_route(links, route) && route[0] == b && route.last() == c;
    let whole = first + second.drop_first();
    assert forall|i: int| 0 < i < whole.len() implies links[whole[i - 1]].contains(
        #[trigger] whole[i],
    ) by {
        if i < first.len() {
            assert(links[first[i - 1]].contains(first[i]));
        } else {
            let j = i - first.len() + 1;
            assert(links[second[j - 1]].contains(second[j]));
        }
    }
    assert(is_route(links, whole) && whole[0] == a && whole.last() == c);
}

/// Where every connection counts at both rooms, a walk can be walked back.
pub proof fn lemma_reach_back(links: Seq<Set<int>>, a: int, b: int)
    requires
        mutual(links),
        reachable(links, a, b),
    ensures
        reachable(links, b, a),
{
    let route = choose|route: Seq<int>|
        is_route(links, route) && route[0] == a && route.last() == b;
    let back = Seq::new(route.len(), |i: int| route[route.len() - 1 - i]);
    assert forall|i: int| 0 < i < back.len() implies links[back[i - 1]].contains(
        #[trigger] back[i],
    ) by {
        let j = route.len() - i;
        assert(links[route[j - 1]].contains(route[j]));
    }
    assert(is_route(links, back) && back[0] == b && back.last() == a);
}

/// Where passages lead from one room to every room, they lead from every room
/// to every other.
pub proof fn lemma_spanned_is_connected(links: Seq<Set<int>>, root: int)
    requires
        mutual(links),
        forall|b: int| 0 <= b < links.len() ==> reachable(links, root, b),
    ensures
        connected(links),
{
    assert forall|a: int, b: int|
        0 <= a < links.len() && 0 <= b < links.len() implies #[trigger] reachable(
        links,
        a,
        b,
    ) by {
        lemma_reach_back(links, root, a);
        lemma_reach_chain(links, a, root, b);
    }
}

/// Where no rooms are joined, no connection is counted.
pub proof fn lemma_degree_none(links: Seq<Set<int>>)
    requires
        forall|i: int| 0 <= i < links.len() ==> links[i] == Set::<int>::empty(),
    ensures
        degree_sum(links) == 0,
    decreases links.len(),
{
    if links.len() > 0 {
        lemma_degree_none(links.drop_last());
    }
}

/// Replacing the connections of one room changes the sum by the difference.
pub proof fn lemma_degree_update(links: Seq<Set<int>>, i: int, s: Set<int>)
    requires
        0 <= i < links.len(),
    ensures
        degree_sum(links.update(i, s)) + links[i].len() == degree_sum(links) + s.len(),
    decreases links.len(),
{
    let after = links.update(i, s);
    if i == links.len() - 1 {
        assert(after.drop_last() =~= links.drop_last());
    } else {
        assert(after.drop_last() =~= links.drop_last().update(i, s));
        lemma_degree_update(links.drop_last(), i, s);
    }
}

/// Joining two different rooms that were not joined adds one pair, and keeps
/// the connections mutual.
pub proof fn lemma_link_adds_pair(links: Seq<Set<int>>, a: int, b: int)
    requires
        mutual(links),
        0 <= a < links.len(),
        0 <= b < links.len(),
        a != b,
        !links[a].contains(b),
    ensures
        mutual(linked(links, a, b)),
        degree_sum(linked(links, a, b)) == degree_sum(links) + 2,
        linked(links, a, b).len() == links.len(),
{
    let half = links.update(a, links[a].insert(b));
    lemma_degree_update(links, a, links[a].insert(b));
    lemma_degree_update(half, b, half[b].insert(a));
    assert(!links[b].contains(a));
    let after = linked(links, a, b);
    assert forall|p: int, q: int| 0 <= p < after.len() && #[trigger] after[p].contains(
        q,
    ) implies 0 <= q < after.len() && after[q].contains(p) by {
        if !links[p].contains(q) {
            assert((p == a && q == b) || (p == b && q == a));
        }
    }
}

/// Joining two rooms again changes nothing.
pub proof fn lemma_link_idempotent(links: Seq<Set<int>>, a: int, b: int)
    requires
        0 <= a < links.len(),
        0 <= b < links.len(),
    ensures
        linked(linked(links, a, b), a, b) == linked(links, a, b),
{
    let once = linked(links, a, b);
    let twice = linked(once, a, b);
    assert forall|i: int| 0 <= i < once.len() implies #[trigger] twice[i] =~= once[i] by {}
    assert(twice =~= once);
}

} // verus!
