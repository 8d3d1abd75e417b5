//! The procedural dungeon generator.
//!
//! Starting from an all-wall grid, rooms and corridors are placed one at a
//! time: the first anywhere, every later one anchored to a uniformly chosen
//! existing placement, with a door carved at the connector point. A
//! placement whose footprint (with its one-tile buffer) is not entirely
//! wall is rejected and redrawn. Room placement stops once the requested
//! number of non-corridor rooms stands; a breadth-first search over the
//! room adjacency list then picks the entrance (a random non-corridor
//! room) and the exit (the non-corridor room furthest from it), and
//! monsters are scattered in proportion to each placement's area.
//!
//! Rejection is retried silently. The retry loops carry a very large
//! attempt budget so that they provably terminate; a run that exhausts a
//! budget (pathological parameters) returns `None`.

use vstd::prelude::*;

use crate::dungeon::Dungeon;
use crate::dungeon::Entity;
use crate::dungeon::Room;
use crate::dungeon::TileType;
use crate::rng::SeededRng;
use crate::rng::draw_of;
use crate::connect::lemma_connected_monotone;
use crate::connect::lemma_connected_refl;
use crate::connect::lemma_connected_step;
use crate::connect::lemma_connected_sym;
use crate::connect::lemma_connected_trans;
use crate::connect::lemma_rect_connected;
use crate::connect::passable_at;
use crate::connect::tiles_connected;

verus! {

/// The generator's configuration. All fields are required; none has a
/// hidden default inside the algorithm. The corridor-vs-room probability
/// is given in thousandths.
#[derive(Clone, Copy, PartialEq, Eq, Structural, Debug)]
pub struct DungeonParams {
    pub room_count: isize,
    pub room_size_min: isize,
    pub room_size_max: isize,
    pub hall_width_min: isize,
    pub hall_width_max: isize,
    pub hall_length_min: isize,
    pub hall_length_max: isize,
    pub room_monsters_max: isize,
    pub hall_monsters_max: isize,
    pub hall_chance_permille: isize,
    pub map_width: isize,
    pub map_height: isize,
}

/// The parameters the generator accepts: non-degenerate ranges, a map that
/// the largest room fits into with its buffer, and sizes small enough for
/// the placement arithmetic.
pub open spec fn params_valid(p: DungeonParams) -> bool {
    &&& 1 <= p.room_count
    &&& 1 <= p.room_size_min <= p.room_size_max
    &&& 1 <= p.hall_width_min <= p.hall_width_max <= 1000000
    &&& 1 <= p.hall_length_min <= p.hall_length_max <= 1000000
    &&& 0 <= p.room_monsters_max <= 1000000
    &&& 0 <= p.hall_monsters_max <= 1000000
    &&& 0 <= p.hall_chance_permille <= 1000
    &&& p.room_size_max + 3 <= p.map_width
    &&& p.room_size_max + 3 <= p.map_height
    &&& p.map_width <= 1000000
    &&& p.map_height <= 1000000
}

impl Default for DungeonParams {
    /// The stock configuration: 25 rooms of side 5 to 12, one-tile-wide
    /// corridors of length 3 to 12, a quarter chance of a corridor, up to
    /// 10 monsters in a room and 2 in a corridor, on a 250 by 250 map.
    fn default() -> (r: DungeonParams)
        ensures
            r == (DungeonParams {
                room_count: 25,
                room_size_min: 5,
                room_size_max: 12,
                hall_width_min: 1,
                hall_width_max: 1,
                hall_length_min: 3,
                hall_length_max: 12,
                room_monsters_max: 10,
                hall_monsters_max: 2,
                hall_chance_permille: 250,
                map_width: 250,
                map_height: 250,
            }),
            params_valid(r),
    {
        DungeonParams {
            room_count: 25,
            room_size_min: 5,
            room_size_max: 12,
            hall_width_min: 1,
            hall_width_max: 1,
            hall_length_min: 3,
            hall_length_max: 12,
            room_monsters_max: 10,
            hall_monsters_max: 2,
            hall_chance_permille: 250,
            map_width: 250,
            map_height: 250,
        }
    }
}

/// How many placement attempts (and, per placement, monster-drop attempts)
/// the generator is willing to make before giving up.
pub const PLACEMENT_BUDGET: u64 = 100000000;

/// The cells of a room's footprint.
pub open spec fn core_cells(r: Room) -> Set<(int, int)> {
    Set::new(|c: (int, int)| r.x <= c.0 < r.x + r.w && r.y <= c.1 < r.y + r.h)
}

/// One draw and the history it leaves behind.
pub open spec fn drawn(seed: Seq<u8>, hist: Seq<(int, int)>, lo: int, hi: int) -> (
    int,
    Seq<(int, int)>,
) {
    (draw_of(seed, hist, lo, hi), hist.push((lo, hi)))
}

/// The evolving state of the placement loop, replayed at the
/// specification level: the rooms placed so far, the set of carved
/// (non-wall) cells, the count of non-corridor rooms among them, and the
/// request history of the seeded generator.
pub ghost struct PlaceState {
    pub rooms: Seq<Room>,
    pub carved: Set<(int, int)>,
    pub actual: int,
    pub hist: Seq<(int, int)>,
}

/// The replay's clear-to-carve test: the footprint with its one-tile
/// buffer lies on the map and touches nothing carved. Against a grid
/// whose non-wall cells are exactly `carved`, this is `room_clear`.
pub open spec fn replay_clear(
    params: DungeonParams,
    carved: Set<(int, int)>,
    x: int,
    y: int,
    w: int,
    h: int,
) -> bool {
    &&& 1 <= x
    &&& 1 <= y
    &&& x + w + 1 <= params.map_width
    &&& y + h + 1 <= params.map_height
    &&& forall|c: (int, int)|
        x - 1 <= c.0 < x + w + 1 && y - 1 <= c.1 < y + h + 1 ==> !(#[trigger] carved.contains(c))
}

/// The carved set after committing a placement: the old cells, the new
/// footprint, and the connector cell if any.
pub open spec fn commit_carved(
    prev: Set<(int, int)>,
    room: Room,
    conn: Option<(int, int)>,
) -> Set<(int, int)> {
    prev.union(core_cells(room)).union(
        match conn {
            None => Set::empty(),
            Some(p) => set![p],
        },
    )
}

/// Commits one drawn placement: if its footprint is clear it is carved
/// (the connector cell included) and recorded, otherwise only the request
/// history advances.
pub open spec fn place_commit(
    params: DungeonParams,
    st: PlaceState,
    room: Room,
    connector: Option<(int, int)>,
    hist: Seq<(int, int)>,
) -> PlaceState {
    if replay_clear(params, st.carved, room.x as int, room.y as int, room.w as int, room.h as int) {
        PlaceState {
            rooms: st.rooms.push(room),
            carved: commit_carved(st.carved, room, connector),
            actual: st.actual + if room.hall {
                0int
            } else {
                1int
            },
            hist,
        }
    } else {
        PlaceState { hist, ..st }
    }
}

/// One iteration of the placement loop, replayed over the named draws of
/// the seeded generator: exactly the requests the loop makes, in order.
#[verifier::opaque]
pub open spec fn place_step(seed: Seq<u8>, params: DungeonParams, st: PlaceState) -> PlaceState {
    let is_first = st.rooms.len() == 0;
    let (is_hall, h0) = if is_first {
        (false, st.hist)
    } else {
        let (b, h) = drawn(seed, st.hist, 0, 1000);
        (b < params.hall_chance_permille, h)
    };
    let (w, h, h1) = if is_hall {
        let (len, ha) = drawn(seed, h0, params.hall_length_min as int, params.hall_length_max + 1);
        let (wid, hb) = drawn(seed, ha, params.hall_width_min as int, params.hall_width_max + 1);
        let (orient, hc) = drawn(seed, hb, 0, 2);
        if orient == 0 {
            (len, wid, hc)
        } else {
            (wid, len, hc)
        }
    } else {
        let (w0, ha) = drawn(seed, h0, params.room_size_min as int, params.room_size_max + 1);
        let (h0v, hb) = drawn(seed, ha, params.room_size_min as int, params.room_size_max + 1);
        (w0, h0v, hb)
    };
    if is_first {
        let (x, h2) = drawn(seed, h1, 1, params.map_width - 1 - w);
        let (y, h3) = drawn(seed, h2, 1, params.map_height - 1 - h);
        let room = Room {
            x: x as isize,
            y: y as isize,
            w: w as isize,
            h: h as isize,
            hall: is_hall,
        };
        place_commit(params, st, room, None, h3)
    } else {
        let (ei, h2) = drawn(seed, h1, 0, st.rooms.len() as int);
        let existing = st.rooms[ei];
        if !is_hall && !existing.hall {
            // rooms are never joined to rooms directly: retry
            PlaceState { hist: h2, ..st }
        } else {
            let (direction, h3) = drawn(seed, h2, 0, 4);
            let (cx, h4) = if direction == 0 || direction == 2 {
                drawn(seed, h3, existing.x as int, existing.x + existing.w)
            } else {
                let (side, ha) = drawn(seed, h3, 0, 2);
                if side == 0 {
                    ((existing.x - 1) as int, ha)
                } else {
                    ((existing.x + existing.w) as int, ha)
                }
            };
            let (cy, h5) = if direction == 1 || direction == 3 {
                drawn(seed, h4, existing.y as int, existing.y + existing.h)
            } else {
                let (side, ha) = drawn(seed, h4, 0, 2);
                if side == 0 {
                    ((existing.y - 1) as int, ha)
                } else {
                    ((existing.y + existing.h) as int, ha)
                }
            };
            let (x, h6) = if direction == 0 || direction == 2 {
                drawn(seed, h5, cx - (w - 1), cx + 1)
            } else if direction == 1 {
                (cx + 1, h5)
            } else {
                (cx - w, h5)
            };
            let (y, h7) = if direction == 1 || direction == 3 {
                drawn(seed, h6, cy - (h - 1), cy + 1)
            } else if direction == 2 {
                (cy + 1, h6)
            } else {
                (cy - h, h6)
            };
            let room = Room {
                x: x as isize,
                y: y as isize,
                w: w as isize,
                h: h as isize,
                hall: is_hall,
            };
            place_commit(params, st, room, Some((cx, cy)), h7)
        }
    }
}

/// The placement loop runs out of attempts: starting from `st`, `fuel`
/// iterations of the replay never reach the requested room count.
pub open spec fn place_runs_out(
    seed: Seq<u8>,
    params: DungeonParams,
    st: PlaceState,
    fuel: nat,
) -> bool
    decreases fuel,
{
    if st.actual >= params.room_count {
        false
    } else if fuel == 0 {
        true
    } else {
        place_runs_out(seed, params, place_step(seed, params, st), (fuel - 1) as nat)
    }
}

/// The placement loop's starting state, over a generator with the given
/// request history.
pub open spec fn place_start_state(hist: Seq<(int, int)>) -> PlaceState {
    PlaceState { rooms: Seq::empty(), carved: Set::empty(), actual: 0, hist }
}

/// Generation succeeds for this seed and parameter set: the placement
/// replay, drawing from a fresh generator, reaches the requested room
/// count within the attempt budget.
pub open spec fn placement_succeeds(seed: Seq<u8>, params: DungeonParams) -> bool {
    !place_runs_out(seed, params, place_start_state(Seq::empty()), PLACEMENT_BUDGET as nat)
}

/// Against a grid whose non-wall cells within bounds are exactly `carved`,
/// the replay's clear test agrees with the grid's.
proof fn lemma_clear_matches(
    d: Dungeon,
    params: DungeonParams,
    carved: Set<(int, int)>,
    x: int,
    y: int,
    w: int,
    h: int,
)
    requires
        d.wf(),
        d.spec_width() == params.map_width,
        d.spec_height() == params.map_height,
        1 <= w,
        1 <= h,
        forall|c: (int, int)|
            #![trigger carved.contains(c)]
            d.in_bounds(c.0, c.1) ==> (d.type_at(c.0, c.1) != TileType::Wall <==> carved.contains(
                c,
            )),
        forall|c: (int, int)|
            #[trigger] carved.contains(c) ==> 0 <= c.0 < params.map_width && 0 <= c.1
                < params.map_height,
    ensures
        d.room_clear(x, y, w, h) == replay_clear(params, carved, x, y, w, h),
{
    if d.room_clear(x, y, w, h) {
        let t0 = d.tile_at(x - 1, y - 1);
        let t1 = d.tile_at(x + w, y + h);
        assert forall|c: (int, int)|
            x - 1 <= c.0 < x + w + 1 && y - 1 <= c.1 < y + h + 1 implies !(
        #[trigger] carved.contains(c)) by {
            let t = d.tile_at(c.0, c.1);
            assert(d.type_at(c.0, c.1) == TileType::Wall);
        }
        assert(replay_clear(params, carved, x, y, w, h));
    }
    if replay_clear(params, carved, x, y, w, h) {
        assert forall|xx: int, yy: int|
            #![trigger d.tile_at(xx, yy)]
            x - 1 <= xx < x + w + 1 && y - 1 <= yy < y + h + 1 implies d.in_bounds(xx, yy)
            && d.type_at(xx, yy) == TileType::Wall by {
            assert(!carved.contains((xx, yy)));
        }
        assert(d.room_clear(x, y, w, h));
    }
}


/// `r` is placed on `d`: it lies strictly inside the grid with a one-tile
/// border to spare, and its whole footprint has been carved (is not wall).
pub open spec fn room_placed(r: Room, d: Dungeon) -> bool {
    &&& 1 <= r.x
    &&& 1 <= r.y
    &&& 1 <= r.w
    &&& 1 <= r.h
    &&& r.x + r.w < d.spec_width()
    &&& r.y + r.h < d.spec_height()
    &&& forall|xx: int, yy: int|
        #![trigger d.tile_at(xx, yy)]
        r.x <= xx < r.x + r.w && r.y <= yy < r.y + r.h ==> d.type_at(xx, yy) != TileType::Wall
}

/// The footprints of `a` and `b` do not meet even when either is widened
/// by the one-tile buffer: a full wall tile stands between them in some
/// direction.
pub open spec fn rooms_separated(a: Room, b: Room) -> bool {
    ||| a.x + a.w + 1 <= b.x
    ||| b.x + b.w + 1 <= a.x
    ||| a.y + a.h + 1 <= b.y
    ||| b.y + b.h + 1 <= a.y
}

/// The number of non-corridor rooms in `rooms`.
pub open spec fn count_non_hall(rooms: Seq<Room>) -> int
    decreases rooms.len(),
{
    if rooms.len() == 0 {
        0
    } else {
        count_non_hall(rooms.drop_last()) + if rooms.last().hall {
            0int
        } else {
            1int
        }
    }
}

/// Room `j` appears in room `i`'s adjacency list.
pub open spec fn adj_contains(nb: Seq<Vec<usize>>, i: int, j: int) -> bool {
    exists|k: int| 0 <= k < nb[i]@.len() && nb[i]@[k] == j
}

/// The rooms placed by the generator, with the adjacency bookkeeping that
/// records which placement each room was anchored to. The ghost `anchors`
/// witness that every room after the first is adjacent to an earlier one,
/// so the adjacency graph is connected.
pub struct RoomLayout {
    pub rooms: Vec<Room>,
    pub neighbors: Vec<Vec<usize>>,
    pub anchors: Ghost<Seq<int>>,
}

impl RoomLayout {
    /// The layout is consistent with the dungeon `d`: every room is carved
    /// on `d`; no two rooms meet, even buffered (no overlap); the adjacency
    /// list is within bounds and mirrors every anchor edge in both
    /// directions; and every room after the first is anchored to an
    /// earlier room.
    pub open spec fn wf(self, d: Dungeon) -> bool {
        &&& self.rooms@.len() == self.neighbors@.len()
        &&& self.rooms@.len() == self.anchors@.len()
        &&& forall|i: int| 0 <= i < self.rooms@.len() ==> room_placed(#[trigger] self.rooms@[i], d)
        &&& forall|i: int, j: int|
            0 <= i < self.rooms@.len() && 0 <= j < self.rooms@.len() && i != j ==> rooms_separated(
                #[trigger] self.rooms@[i],
                #[trigger] self.rooms@[j],
            )
        &&& forall|i: int, k: int|
            0 <= i < self.neighbors@.len() && 0 <= k < self.neighbors@[i]@.len()
                ==> (#[trigger] self.neighbors@[i]@[k]) < self.rooms@.len()
        &&& forall|i: int|
            1 <= i < self.rooms@.len() ==> 0 <= #[trigger] self.anchors@[i] < i && adj_contains(
                self.neighbors@,
                self.anchors@[i],
                i,
            ) && adj_contains(self.neighbors@, i, self.anchors@[i])
    }
}

/// A footprint that is clear to carve (wall throughout, buffer included)
/// cannot meet an already carved room, whose footprint is not wall.
proof fn lemma_clear_separates(d: Dungeon, a: Room, b: Room)
    requires
        d.room_clear(a.x as int, a.y as int, a.w as int, a.h as int),
        room_placed(b, d),
        1 <= a.w,
        1 <= a.h,
    ensures
        rooms_separated(a, b),
{
    if !rooms_separated(a, b) {
        let px: int = if a.x - 1 >= b.x {
            a.x - 1
        } else {
            b.x as int
        };
        let py: int = if a.y - 1 >= b.y {
            a.y - 1
        } else {
            b.y as int
        };
        let t = d.tile_at(px, py);
        assert(a.x - 1 <= px < a.x + a.w + 1 && a.y - 1 <= py < a.y + a.h + 1);
        assert(b.x <= px < b.x + b.w && b.y <= py < b.y + b.h);
        assert(d.type_at(px, py) == TileType::Wall);
        assert(d.type_at(px, py) != TileType::Wall);
    }
}


/// Committing one placement keeps every carved cell connected to every
/// other: the new footprint is internally connected, the connector joins
/// it to the anchor room's footprint, and older cells were connected
/// already.
#[verifier::rlimit(100)]
proof fn lemma_carved_stays_connected(
    dprev: Dungeon,
    dnew: Dungeon,
    prev: Set<(int, int)>,
    room: Room,
    conn: Option<(int, int)>,
    anchor: Room,
)
    requires
        1 <= room.w,
        1 <= room.h,
        forall|c: (int, int)| passable_at(dprev, c) ==> passable_at(dnew, c),
        forall|c: (int, int)|
            room.x <= c.0 < room.x + room.w && room.y <= c.1 < room.y + room.h
                ==> #[trigger] passable_at(dnew, c),
        forall|c1: (int, int), c2: (int, int)|
            #[trigger] prev.contains(c1) && #[trigger] prev.contains(c2) ==> tiles_connected(
                dprev,
                c1,
                c2,
            ),
        match conn {
            Some(p) => {
                &&& passable_at(dnew, p)
                &&& ((room.x <= p.0 < room.x + room.w && (p.1 == room.y - 1 || p.1 == room.y
                    + room.h)) || (room.y <= p.1 < room.y + room.h && (p.0 == room.x - 1 || p.0
                    == room.x + room.w)))
                &&& ((anchor.x <= p.0 < anchor.x + anchor.w && (p.1 == anchor.y - 1 || p.1
                    == anchor.y + anchor.h)) || (anchor.y <= p.1 < anchor.y + anchor.h && (p.0
                    == anchor.x - 1 || p.0 == anchor.x + anchor.w)))
                &&& 1 <= anchor.w
                &&& 1 <= anchor.h
                &&& forall|c: (int, int)|
                    anchor.x <= c.0 < anchor.x + anchor.w && anchor.y <= c.1 < anchor.y + anchor.h
                        ==> #[trigger] prev.contains(c)
            },
            None => prev == Set::<(int, int)>::empty(),
        },
    ensures
        forall|c1: (int, int), c2: (int, int)|
            #[trigger] commit_carved(prev, room, conn).contains(c1) && #[trigger] commit_carved(
                prev,
                room,
                conn,
            ).contains(c2) ==> tiles_connected(dnew, c1, c2),
{
    let all = commit_carved(prev, room, conn);
    let hub: (int, int) = match conn {
        Some(p) => p,
        None => (room.x as int, room.y as int),
    };
    assert forall|c: (int, int)| #[trigger] all.contains(c) implies tiles_connected(
        dnew,
        c,
        hub,
    ) by {
        match conn {
            Some(p) => {
                let nb: (int, int) = if room.y <= p.1 < room.y + room.h {
                    if p.0 == room.x - 1 {
                        (room.x as int, p.1)
                    } else {
                        (room.x + room.w - 1, p.1)
                    }
                } else {
                    if p.1 == room.y - 1 {
                        (p.0, room.y as int)
                    } else {
                        (p.0, room.y + room.h - 1)
                    }
                };
                assert(passable_at(dnew, nb));
                assert(crate::connect::tiles_adjacent(dnew, nb, hub));
                let ab: (int, int) = if anchor.y <= p.1 < anchor.y + anchor.h {
                    if p.0 == anchor.x - 1 {
                        (anchor.x as int, p.1)
                    } else {
                        (anchor.x + anchor.w - 1, p.1)
                    }
                } else {
                    if p.1 == anchor.y - 1 {
                        (p.0, anchor.y as int)
                    } else {
                        (p.0, anchor.y + anchor.h - 1)
                    }
                };
                assert(prev.contains(ab));
                assert(passable_at(dprev, ab) || passable_at(dnew, ab)) by {
                    assert(tiles_connected(dprev, ab, ab));
                    let q = choose|q: Seq<(int, int)>|
                        crate::connect::tile_path(dprev, q) && q.first() == ab && q.last() == ab;
                    assert(passable_at(dprev, q[0]));
                }
                assert(passable_at(dnew, ab));
                assert(crate::connect::tiles_adjacent(dnew, ab, hub));
                if core_cells(room).contains(c) {
                    lemma_rect_connected(
                        dnew,
                        room.x as int,
                        room.y as int,
                        room.w as int,
                        room.h as int,
                        c,
                        nb,
                    );
                    lemma_connected_step(dnew, nb, hub);
                    lemma_connected_trans(dnew, c, nb, hub);
                } else if c == p {
                    lemma_connected_refl(dnew, hub);
                } else {
                    assert(prev.contains(c));
                    assert(tiles_connected(dprev, c, ab));
                    lemma_connected_monotone(dprev, dnew, c, ab);
                    lemma_connected_step(dnew, ab, hub);
                    lemma_connected_trans(dnew, c, ab, hub);
                }
            },
            None => {
                assert(core_cells(room).contains(c));
                lemma_rect_connected(
                    dnew,
                    room.x as int,
                    room.y as int,
                    room.w as int,
                    room.h as int,
                    c,
                    hub,
                );
            },
        }
    }
    assert forall|c1: (int, int), c2: (int, int)|
        #[trigger] all.contains(c1) && #[trigger] all.contains(c2) implies tiles_connected(
        dnew,
        c1,
        c2,
    ) by {
        lemma_connected_sym(dnew, c2, hub);
        lemma_connected_trans(dnew, c1, hub, c2);
    }
}

/// A connector joins the buffer rings of two separated rooms, so it can
/// never lie on the map border: on a border line both rings would force
/// the rooms' footprints to meet one cell inward.
proof fn lemma_connector_interior(params: DungeonParams, r: Room, a: Room, p: (int, int))
    requires
        rooms_separated(r, a),
        1 <= r.w,
        1 <= r.h,
        1 <= r.x,
        1 <= r.y,
        r.x + r.w + 1 <= params.map_width,
        r.y + r.h + 1 <= params.map_height,
        1 <= a.w,
        1 <= a.h,
        1 <= a.x,
        1 <= a.y,
        a.x + a.w < params.map_width,
        a.y + a.h < params.map_height,
        (r.x <= p.0 < r.x + r.w && (p.1 == r.y - 1 || p.1 == r.y + r.h)) || (r.y <= p.1 < r.y
            + r.h && (p.0 == r.x - 1 || p.0 == r.x + r.w)),
        (a.x <= p.0 < a.x + a.w && (p.1 == a.y - 1 || p.1 == a.y + a.h)) || (a.y <= p.1 < a.y
            + a.h && (p.0 == a.x - 1 || p.0 == a.x + a.w)),
    ensures
        1 <= p.0 < params.map_width - 1,
        1 <= p.1 < params.map_height - 1,
{
}

/// Places rooms and corridors on the all-wall dungeon `d` until the count
/// of non-corridor rooms reaches `params.room_count` exactly (corridors do
/// not count), or the attempt budget runs out (`None`). Whether it
/// succeeds is a function of the generator's seed, its request history and
/// the parameters: the result is `Some` exactly when the specification
/// replay of this loop reaches the room count within the budget. On
/// success the returned layout is consistent with the carved dungeon: in
/// particular, no two placed footprints intersect, buffers included.
#[verifier::rlimit(100)]
pub fn place_rooms(rng: &mut SeededRng, params: &DungeonParams, d: &mut Dungeon) -> (r: Option<
    RoomLayout,
>)
    requires
        params_valid(*params),
        old(d).wf(),
        old(d).spec_width() == params.map_width,
        old(d).spec_height() == params.map_height,
        forall|x: int, y: int|
            old(d).in_bounds(x, y) ==> old(d).type_at(x, y) == TileType::Wall && old(
                d,
            ).entity_at(x, y) is None,
    ensures
        final(d).wf(),
        final(d).spec_width() == old(d).spec_width(),
        final(d).spec_height() == old(d).spec_height(),
        final(d).spec_start_coords() == old(d).spec_start_coords(),
        final(d).spec_end_coords() == old(d).spec_end_coords(),
        final(d).spec_path_length() == old(d).spec_path_length(),
        r matches Some(layout) ==> layout.wf(*final(d)) && count_non_hall(layout.rooms@)
            == params.room_count && 1 <= layout.rooms@.len() <= PLACEMENT_BUDGET,
        r matches Some(layout) ==> forall|i: int, j: int|
            0 <= i < layout.rooms@.len() && 0 <= j < layout.rooms@.len() && i != j
                ==> rooms_separated(#[trigger] layout.rooms@[i], #[trigger] layout.rooms@[j]),
        r matches Some(layout) ==> forall|i: int, k: int|
            0 <= i < layout.neighbors@.len() && 0 <= k < layout.neighbors@[i]@.len()
                ==> layout.rooms@[i].hall || layout.rooms@[
                (#[trigger] layout.neighbors@[i]@[k]) as int].hall,
        forall|x: int, y: int|
            final(d).in_bounds(x, y) ==> #[trigger] final(d).type_at(x, y) != TileType::StairsUp
                && final(d).type_at(x, y) != TileType::StairsDown,
        forall|x: int, y: int|
            final(d).in_bounds(x, y) ==> #[trigger] final(d).entity_at(x, y) is None,
        r is Some <==> !place_runs_out(
            old(rng).spec_seed(),
            *params,
            place_start_state(old(rng).spec_history()),
            PLACEMENT_BUDGET as nat,
        ),
        forall|c1: (int, int), c2: (int, int)|
            #[trigger] passable_at(*final(d), c1) && #[trigger] passable_at(*final(d), c2)
                ==> tiles_connected(*final(d), c1, c2),
        forall|x: int, y: int|
            final(d).in_bounds(x, y) && (x == 0 || y == 0 || x == final(d).spec_width() - 1 || y
                == final(d).spec_height() - 1) ==> #[trigger] final(d).type_at(x, y)
                == TileType::Wall,
{
    let ghost seed0 = rng.spec_seed();
    let ghost st0 = place_start_state(rng.spec_history());
    let ghost mut st = st0;
    let mut rooms: Vec<Room> = Vec::new();
    let mut neighbors: Vec<Vec<usize>> = Vec::new();
    let ghost mut anchors: Seq<int> = Seq::empty();
    let mut actual_rooms: isize = 0;
    let mut fuel: u64 = PLACEMENT_BUDGET;
    while actual_rooms < params.room_count
        invariant
            params_valid(*params),
            d.wf(),
            d.spec_width() == params.map_width,
            d.spec_height() == params.map_height,
            old(d).spec_width() == params.map_width,
            old(d).spec_height() == params.map_height,
            d.spec_start_coords() == old(d).spec_start_coords(),
            d.spec_end_coords() == old(d).spec_end_coords(),
            d.spec_path_length() == old(d).spec_path_length(),
            rooms@.len() == neighbors@.len(),
            rooms@.len() == anchors.len(),
            rooms@.len() + fuel <= PLACEMENT_BUDGET,
            forall|i: int| 0 <= i < rooms@.len() ==> room_placed(#[trigger] rooms@[i], *d),
            forall|i: int, j: int|
                0 <= i < rooms@.len() && 0 <= j < rooms@.len() && i != j ==> rooms_separated(
                    #[trigger] rooms@[i],
                    #[trigger] rooms@[j],
                ),
            forall|i: int, k: int|
                0 <= i < neighbors@.len() && 0 <= k < neighbors@[i]@.len()
                    ==> (#[trigger] neighbors@[i]@[k]) < rooms@.len(),
            forall|i: int|
                1 <= i < rooms@.len() ==> 0 <= #[trigger] anchors[i] < i && adj_contains(
                    neighbors@,
                    anchors[i],
                    i,
                ) && adj_contains(neighbors@, i, anchors[i]),
            forall|i: int, k: int|
                0 <= i < neighbors@.len() && 0 <= k < neighbors@[i]@.len()
                    ==> rooms@[i].hall || rooms@[(#[trigger] neighbors@[i]@[k]) as int].hall,
            forall|x: int, y: int|
                d.in_bounds(x, y) ==> #[trigger] d.type_at(x, y) != TileType::StairsUp
                    && d.type_at(x, y) != TileType::StairsDown,
            forall|x: int, y: int|
                d.in_bounds(x, y) ==> #[trigger] d.entity_at(x, y) is None,
            count_non_hall(rooms@) == actual_rooms,
            0 <= actual_rooms <= params.room_count,
            rng.spec_seed() == seed0,
            seed0 == old(rng).spec_seed(),
            st0 == place_start_state(old(rng).spec_history()),
            st.rooms == rooms@,
            st.actual == actual_rooms as int,
            st.hist == rng.spec_history(),
            forall|c: (int, int)|
                #![trigger st.carved.contains(c)]
                d.in_bounds(c.0, c.1) ==> (d.type_at(c.0, c.1) != TileType::Wall
                    <==> st.carved.contains(c)),
            forall|c: (int, int)|
                #[trigger] st.carved.contains(c) ==> 1 <= c.0 < params.map_width - 1 && 1 <= c.1
                    < params.map_height - 1,
            place_runs_out(seed0, *params, st0, PLACEMENT_BUDGET as nat) == place_runs_out(
                seed0,
                *params,
                st,
                fuel as nat,
            ),
            rooms@.len() == 0 ==> st.carved == Set::<(int, int)>::empty(),
            forall|c1: (int, int), c2: (int, int)|
                #[trigger] st.carved.contains(c1) && #[trigger] st.carved.contains(c2)
                    ==> tiles_connected(*d, c1, c2),
        decreases fuel,
    {
        let ghost st_top = st;
        let ghost fuel_top = fuel;
        if fuel == 0 {
            proof {
                assert(place_runs_out(seed0, *params, st, fuel as nat));
                assert forall|c1: (int, int), c2: (int, int)|
                    #[trigger] passable_at(*d, c1) && #[trigger] passable_at(*d, c2) implies
                    tiles_connected(*d, c1, c2) by {
                    assert(st.carved.contains(c1));
                    assert(st.carved.contains(c2));
                }
                assert forall|x2: int, y2: int|
                    d.in_bounds(x2, y2) && (x2 == 0 || y2 == 0 || x2 == d.spec_width() - 1 || y2
                        == d.spec_height() - 1) implies #[trigger] d.type_at(x2, y2)
                    == TileType::Wall by {
                    if d.type_at(x2, y2) != TileType::Wall {
                        assert(st.carved.contains((x2, y2)));
                    }
                }
            }
            return None;
        }
        fuel = fuel - 1;
        let is_first = rooms.len() == 0;
        let is_hall = !is_first && rng.gen_range_isize(0, 1000) < params.hall_chance_permille;
        let w: isize;
        let h: isize;
        if is_hall {
            let len = rng.gen_range_isize(params.hall_length_min, params.hall_length_max + 1);
            let wid = rng.gen_range_isize(params.hall_width_min, params.hall_width_max + 1);
            if rng.gen_range_isize(0, 2) == 0 {
                // east-west hall
                w = len;
                h = wid;
            } else {
                // north-south hall
                w = wid;
                h = len;
            }
        } else {
            w = rng.gen_range_isize(params.room_size_min, params.room_size_max + 1);
            h = rng.gen_range_isize(params.room_size_min, params.room_size_max + 1);
        }
        let x: isize;
        let y: isize;
        let mut c_x: Option<isize> = None;
        let mut c_y: Option<isize> = None;
        let mut add_door = true;
        let mut exist_idx: Option<usize> = None;
        let ghost mut anchor_room_g: Room = (Room { x: 0, y: 0, w: 0, h: 0, hall: false });
        let ghost mut anchor_idx_g: int = 0;
        if is_first {
            x = rng.gen_range_isize(1, params.map_width - 1 - w);
            y = rng.gen_range_isize(1, params.map_height - 1 - h);
        } else {
            let ei = rng.gen_range_isize(0, rooms.len() as isize) as usize;
            let existing = rooms[ei];
            // rooms are never joined to rooms directly: retry
            if !is_hall && !existing.hall {
                proof {
                    st = place_step(seed0, *params, st_top);
                    assert(st.hist == rng.spec_history() && st.rooms == rooms@ && st.actual
                        == actual_rooms as int && st.carved == st_top.carved) by {
                        reveal(place_step);
                        assert(st == place_step(seed0, *params, st_top));
                    }
                    assert(place_runs_out(seed0, *params, st0, PLACEMENT_BUDGET as nat)
                        == place_runs_out(seed0, *params, st, fuel as nat)) by {
                        assert(place_runs_out(seed0, *params, st_top, fuel_top as nat)
                            == place_runs_out(seed0, *params, st, fuel as nat));
                    }
                }
                continue ;
            }
            // corridor-corridor joins get no door
            if is_hall && existing.hall {
                add_door = false;
            }
            let direction = rng.gen_range_isize(0, 4);
            let connect_x: isize = if direction == 0 || direction == 2 {
                rng.gen_range_isize(existing.x, existing.x + existing.w)
            } else {
                if rng.gen_range_isize(0, 2) == 0 {
                    existing.x - 1
                } else {
                    existing.x + existing.w
                }
            };
            let connect_y: isize = if direction == 1 || direction == 3 {
                rng.gen_range_isize(existing.y, existing.y + existing.h)
            } else {
                if rng.gen_range_isize(0, 2) == 0 {
                    existing.y - 1
                } else {
                    existing.y + existing.h
                }
            };
            // position the new footprint so that an edge touches the
            // connector; the upper bound is exclusive, hence the + 1
            x = if direction == 0 || direction == 2 {
                rng.gen_range_isize(connect_x - (w - 1), connect_x + 1)
            } else if direction == 1 {
                connect_x + 1
            } else {
                connect_x - w
            };
            y = if direction == 1 || direction == 3 {
                rng.gen_range_isize(connect_y - (h - 1), connect_y + 1)
            } else if direction == 2 {
                connect_y + 1
            } else {
                connect_y - h
            };
            proof {
                // the connector lies on the new footprint's buffer ring,
                // cardinally adjacent to a footprint cell on each side
                assert(x - 1 <= connect_x <= x + w);
                assert(y - 1 <= connect_y <= y + h);
                assert((x <= connect_x < x + w && (connect_y == y - 1 || connect_y == y + h)) || (
                y <= connect_y < y + h && (connect_x == x - 1 || connect_x == x + w)));
                assert((existing.x <= connect_x < existing.x + existing.w && (connect_y
                    == existing.y - 1 || connect_y == existing.y + existing.h)) || (existing.y
                    <= connect_y < existing.y + existing.h && (connect_x == existing.x - 1
                    || connect_x == existing.x + existing.w)));
                anchor_room_g = existing;
                anchor_idx_g = ei as int;
            }
            c_x = Some(connect_x);
            c_y = Some(connect_y);
            exist_idx = Some(ei);
        }
        let room = Room { x, y, w, h, hall: is_hall };
        let fill_type = if is_hall {
            TileType::Corridor
        } else {
            TileType::Floor
        };
        let ghost d_before = *d;
        let ghost rooms_before = rooms@;
        let ghost conn_g: Option<(int, int)> = match (c_x, c_y) {
            (Some(a), Some(b)) => Some((a as int, b as int)),
            _ => None,
        };
        let accepted = d.fill_room(&room, fill_type);
        if accepted {
            proof {
                assert forall|j: int| 0 <= j < rooms@.len() implies rooms_separated(
                    room,
                    #[trigger] rooms@[j],
                ) by {
                    lemma_clear_separates(d_before, room, rooms@[j]);
                }
                // carving stays inside the new footprint, so older rooms
                // keep their carved tiles
                assert forall|j: int| 0 <= j < rooms@.len() implies room_placed(
                    #[trigger] rooms@[j],
                    *d,
                ) by {
                    let rj = rooms@[j];
                    assert forall|xx: int, yy: int|
                        #![trigger d.tile_at(xx, yy)]
                        rj.x <= xx < rj.x + rj.w && rj.y <= yy < rj.y + rj.h implies d.type_at(
                        xx,
                        yy,
                    ) != TileType::Wall by {
                        assert(rooms_separated(room, rj));
                        assert(d.tile_at(xx, yy) == d_before.tile_at(xx, yy));
                    }
                }
            }
            let ghost nb_top = neighbors@;
            rooms.push(room);
            neighbors.push(Vec::new());
            proof {
                let t0 = d_before.tile_at(room.x - 1, room.y - 1);
                let t1 = d_before.tile_at(room.x + room.w, room.y + room.h);
                assert(room_placed(room, *d));
                anchors = anchors.push(
                    match exist_idx {
                        Some(ei) => ei as int,
                        None => 0int,
                    },
                );
                assert(rooms@.drop_last() =~= rooms_before);
                assert(count_non_hall(rooms@) == actual_rooms + if is_hall {
                    0int
                } else {
                    1int
                });
            }
            // carve the door at the connector point
            let door_tile = if add_door {
                TileType::Door
            } else {
                fill_type
            };
            match (c_x, c_y) {
                (Some(cx), Some(cy)) => {
                    let ghost d_mid = *d;
                    let _ = d.set_tile(cx, cy, door_tile);
                    proof {
                        assert forall|j: int| 0 <= j < rooms@.len() implies room_placed(
                            #[trigger] rooms@[j],
                            *d,
                        ) by {
                            let rj = rooms@[j];
                            assert forall|xx: int, yy: int|
                                #![trigger d.tile_at(xx, yy)]
                                rj.x <= xx < rj.x + rj.w && rj.y <= yy < rj.y + rj.h implies
                                d.type_at(xx, yy) != TileType::Wall by {
                                if (xx, yy) != (cx as int, cy as int) {
                                    assert(d.tile_at(xx, yy) == d_mid.tile_at(xx, yy));
                                }
                            }
                        }
                    }
                },
                _ => {},
            }
            if !room.hall {
                actual_rooms = actual_rooms + 1;
            }
            match exist_idx {
                Some(ei) => {
                    let new_idx = rooms.len() - 1;
                    let ghost nb_before = neighbors@;
                    let mut row = neighbors[ei].clone();
                    row.push(new_idx);
                    proof {
                        assert(row@ =~= nb_before[ei as int]@.push(new_idx));
                    }
                    neighbors[ei] = row;
                    let mut row2 = neighbors[new_idx].clone();
                    row2.push(ei);
                    proof {
                        assert(row2@ =~= nb_before[new_idx as int]@.push(ei));
                    }
                    neighbors[new_idx] = row2;
                    proof {
                        let nb = neighbors@;
                        assert(adj_contains(nb, ei as int, new_idx as int)) by {
                            let kk = nb[ei as int]@.len() - 1;
                            assert(nb[ei as int]@[kk] == new_idx);
                        }
                        assert(adj_contains(nb, new_idx as int, ei as int)) by {
                            let kk = nb[new_idx as int]@.len() - 1;
                            assert(nb[new_idx as int]@[kk] == ei);
                        }
                        assert forall|i: int|
                            1 <= i < rooms@.len() implies 0 <= #[trigger] anchors[i] < i
                            && adj_contains(nb, anchors[i], i) && adj_contains(
                            nb,
                            i,
                            anchors[i],
                        ) by {
                            if i < rooms@.len() - 1 {
                                assert(adj_contains(nb_top, anchors[i], i));
                                assert(adj_contains(nb_top, i, anchors[i]));
                                lemma_adj_monotone(nb_top, nb, anchors[i], i);
                                lemma_adj_monotone(nb_top, nb, i, anchors[i]);
                            } else {
                                assert(anchors[i] == ei as int);
                            }
                        }
                    }
                },
                None => {},
            }
        }  // else: the footprint was not clear; try again
        proof {
            assert forall|c: (int, int)| #[trigger] st_top.carved.contains(c) implies 0 <= c.0
                < params.map_width && 0 <= c.1 < params.map_height by {}
            lemma_clear_matches(
                d_before,
                *params,
                st_top.carved,
                room.x as int,
                room.y as int,
                room.w as int,
                room.h as int,
            );
            st = place_step(seed0, *params, st_top);
            assert(st == place_commit(*params, st_top, room, conn_g, rng.spec_history())) by {
                reveal(place_step);
                assert(place_step(seed0, *params, st_top) == place_commit(
                    *params,
                    st_top,
                    room,
                    conn_g,
                    rng.spec_history(),
                ));
            }
            if accepted {
                assert(st.rooms == rooms@);
                assert(st.actual == actual_rooms as int);
                assert(st.hist == rng.spec_history());
                assert forall|c: (int, int)|
                    #![trigger st.carved.contains(c)]
                    d.in_bounds(c.0, c.1) implies (d.type_at(c.0, c.1) != TileType::Wall
                    <==> st.carved.contains(c)) by {
                    let t = d.tile_at(c.0, c.1);
                    if core_cells(room).contains(c) {
                        assert(st.carved.contains(c));
                        assert(room_placed(rooms@[rooms@.len() - 1], *d));
                        assert(d.type_at(c.0, c.1) != TileType::Wall);
                    } else if conn_g matches Some(p) && c == p {
                        assert(st.carved.contains(c));
                        assert(d.type_at(c.0, c.1) != TileType::Wall);
                    } else {
                        assert(d.tile_at(c.0, c.1) == d_before.tile_at(c.0, c.1));
                        assert(st.carved.contains(c) <==> st_top.carved.contains(c));
                    }
                }
                assert forall|c: (int, int)| #[trigger] st.carved.contains(c) implies 1 <= c.0
                    < params.map_width - 1 && 1 <= c.1 < params.map_height - 1 by {
                    if !st_top.carved.contains(c) && !core_cells(room).contains(c) {
                        assert(conn_g matches Some(p) && c == p);
                        let p = conn_g->Some_0;
                        assert(room_placed(anchor_room_g, d_before));
                        lemma_connector_interior(*params, room, anchor_room_g, p);
                    }
                }
                // connectivity: the new footprint joins the carved set
                // through the connector
                assert forall|c: (int, int)|
                    room.x <= c.0 < room.x + room.w && room.y <= c.1 < room.y + room.h implies
                    #[trigger] passable_at(*d, c) by {
                    assert(st.carved.contains(c));
                }
                assert forall|c: (int, int)| passable_at(d_before, c) implies passable_at(
                    *d,
                    c,
                ) by {
                    assert(st_top.carved.contains(c));
                    assert(st.carved.contains(c));
                }
                match conn_g {
                    Some(p) => {
                        assert(st.carved.contains(p));
                        assert(passable_at(*d, p));
                        assert(room_placed(anchor_room_g, d_before));
                        assert forall|c: (int, int)|
                            anchor_room_g.x <= c.0 < anchor_room_g.x + anchor_room_g.w
                                && anchor_room_g.y <= c.1 < anchor_room_g.y + anchor_room_g.h
                            implies #[trigger] st_top.carved.contains(c) by {
                            assert(d_before.tile_at(c.0, c.1) == d_before.tile_at(c.0, c.1));
                        }
                    },
                    None => {},
                }
                lemma_carved_stays_connected(
                    d_before,
                    *d,
                    st_top.carved,
                    room,
                    conn_g,
                    anchor_room_g,
                );
            } else {
                assert(st.rooms == rooms@);
                assert(st.actual == actual_rooms as int);
                assert(st.hist == rng.spec_history());
            }
            assert(place_runs_out(seed0, *params, st0, PLACEMENT_BUDGET as nat)
                == place_runs_out(seed0, *params, st, fuel as nat)) by {
                assert(place_runs_out(seed0, *params, st_top, fuel_top as nat)
                    == place_runs_out(seed0, *params, st, fuel as nat));
            }
        }
    }
    proof {
        if rooms@.len() == 0 {
            assert(count_non_hall(rooms@) == 0);
        }
        assert(!place_runs_out(seed0, *params, st, fuel as nat));
        assert(!place_runs_out(seed0, *params, st0, PLACEMENT_BUDGET as nat));
        assert forall|c1: (int, int), c2: (int, int)|
            #[trigger] passable_at(*d, c1) && #[trigger] passable_at(*d, c2) implies
            tiles_connected(*d, c1, c2) by {
            assert(st.carved.contains(c1));
            assert(st.carved.contains(c2));
        }
        assert forall|x2: int, y2: int|
            d.in_bounds(x2, y2) && (x2 == 0 || y2 == 0 || x2 == d.spec_width() - 1 || y2
                == d.spec_height() - 1) implies #[trigger] d.type_at(x2, y2) == TileType::Wall by {
            if d.type_at(x2, y2) != TileType::Wall {
                assert(st.carved.contains((x2, y2)));
            }
        }
    }
    Some(RoomLayout { rooms, neighbors, anchors: Ghost(anchors) })
}

/// How many entries of `s` are set.
spec fn count_set(s: Seq<Option<usize>>) -> int
    decreases s.len(),
{
    if s.len() == 0 {
        0
    } else {
        count_set(s.drop_last()) + if s.last() is Some {
            1int
        } else {
            0int
        }
    }
}

proof fn lemma_count_set_le_len(s: Seq<Option<usize>>)
    ensures
        0 <= count_set(s) <= s.len(),
    decreases s.len(),
{
    if s.len() > 0 {
        lemma_count_set_le_len(s.drop_last());
    }
}

proof fn lemma_count_set_update(s: Seq<Option<usize>>, i: int, v: usize)
    requires
        0 <= i < s.len(),
        s[i] is None,
    ensures
        count_set(s.update(i, Some(v))) == count_set(s) + 1,
    decreases s.len(),
{
    let s2 = s.update(i, Some(v));
    if i == s.len() - 1 {
        assert(s2.drop_last() =~= s.drop_last());
    } else {
        assert(s2.drop_last() =~= s.drop_last().update(i, Some(v)));
        lemma_count_set_update(s.drop_last(), i, v);
        assert(s2.last() == s.last());
    }
}

/// Every neighbor of a settled room is settled.
spec fn bfs_closed(nb: Seq<Vec<usize>>, dist: Seq<Option<usize>>) -> bool {
    forall|i: int, k: int|
        0 <= i < nb.len() && 0 <= k < nb[i]@.len() && dist[i] is Some && nb[i]@[k] < dist.len()
            ==> dist[#[trigger] nb[i]@[k] as int] is Some
}

/// Once the search has settled some room and every neighbor of every
/// settled room is settled, the chain of anchors down from room `j`
/// settles room 0.
proof fn lemma_anchors_down(l: RoomLayout, dist: Seq<Option<usize>>, j: int)
    requires
        l.adj_wf(),
        dist.len() == l.rooms@.len(),
        bfs_closed(l.neighbors@, dist),
        0 <= j < dist.len(),
        dist[j] is Some,
    ensures
        dist[0] is Some,
    decreases j,
{
    if j > 0 {
        let a = l.anchors@[j];
        assert(adj_contains(l.neighbors@, j, a));
        let k = choose|k: int| 0 <= k < l.neighbors@[j]@.len() && l.neighbors@[j]@[k] == a;
        assert(dist[l.neighbors@[j]@[k] as int] is Some);
        lemma_anchors_down(l, dist, a);
    }
}

/// Conversely, once room 0 is settled, every room is, by the chain of
/// anchors up to it.
proof fn lemma_anchors_up(l: RoomLayout, dist: Seq<Option<usize>>, i: int)
    requires
        l.adj_wf(),
        dist.len() == l.rooms@.len(),
        bfs_closed(l.neighbors@, dist),
        dist.len() > 0,
        dist[0] is Some,
        0 <= i < dist.len(),
    ensures
        dist[i] is Some,
    decreases i,
{
    if i > 0 {
        let a = l.anchors@[i];
        lemma_anchors_up(l, dist, a);
        assert(adj_contains(l.neighbors@, a, i));
        let k = choose|k: int| 0 <= k < l.neighbors@[a]@.len() && l.neighbors@[a]@[k] == i;
        assert(dist[l.neighbors@[a]@[k] as int] is Some);
    }
}

impl RoomLayout {
    /// The adjacency bookkeeping alone is consistent (no reference to the
    /// carved grid).
    pub open spec fn adj_wf(self) -> bool {
        &&& self.rooms@.len() == self.neighbors@.len()
        &&& self.rooms@.len() == self.anchors@.len()
        &&& forall|i: int, k: int|
            0 <= i < self.neighbors@.len() && 0 <= k < self.neighbors@[i]@.len()
                ==> (#[trigger] self.neighbors@[i]@[k]) < self.rooms@.len()
        &&& forall|i: int|
            1 <= i < self.rooms@.len() ==> 0 <= #[trigger] self.anchors@[i] < i && adj_contains(
                self.neighbors@,
                self.anchors@[i],
                i,
            ) && adj_contains(self.neighbors@, i, self.anchors@[i])
    }
}

/// `p` is a walk through the adjacency lists `nb`: a non-empty sequence of
/// room indices, each adjacent to the next.
pub open spec fn adj_walk(nb: Seq<Vec<usize>>, p: Seq<int>) -> bool {
    &&& p.len() >= 1
    &&& (forall|i: int| 0 <= i < p.len() ==> 0 <= #[trigger] p[i] < nb.len())
    &&& (forall|i: int| 0 <= i < p.len() - 1 ==> adj_contains(nb, #[trigger] p[i], p[i + 1]))
}

/// The distance label of room `i` (meaningful when it is set).
spec fn dval(dist: Seq<Option<usize>>, i: int) -> int {
    dist[i]->Some_0 as int
}

/// With every label set, the start at zero, and every adjacency hop
/// raising a label by at most one, no walk from the start beats its
/// endpoint's label.
proof fn lemma_walk_lower_bound(
    nb: Seq<Vec<usize>>,
    dist: Seq<Option<usize>>,
    p: Seq<int>,
    s: int,
)
    requires
        0 <= s < dist.len(),
        dist[s] == Some(0usize),
        forall|i: int| 0 <= i < dist.len() ==> (#[trigger] dist[i]) is Some,
        nb.len() == dist.len(),
        forall|i: int, k: int|
            0 <= i < nb.len() && 0 <= k < nb[i]@.len() && (#[trigger] nb[i]@[k]) < dist.len()
                ==> dval(dist, nb[i]@[k] as int) <= dval(dist, i) + 1,
        adj_walk(nb, p),
        p.first() == s,
    ensures
        dval(dist, p.last()) <= p.len() - 1,
    decreases p.len(),
{
    if p.len() == 1 {
    } else {
        let q = p.drop_last();
        assert(adj_walk(nb, q)) by {
            assert forall|i: int| 0 <= i < q.len() - 1 implies adj_contains(
                nb,
                #[trigger] q[i],
                q[i + 1],
            ) by {
                assert(q[i] == p[i] && q[i + 1] == p[i + 1]);
            }
        }
        lemma_walk_lower_bound(nb, dist, q, s);
        let prev = p[p.len() - 2];
        assert(adj_contains(nb, prev, p.last()));
        let k = choose|k: int| 0 <= k < nb[prev]@.len() && nb[prev]@[k] == p.last();
        assert(dval(dist, nb[prev]@[k] as int) <= dval(dist, prev) + 1);
        assert(q.last() == prev);
    }
}

/// Some walk through `nb` leads from room `s` to room `i` in exactly
/// `len` entries.
pub open spec fn walk_realizes(nb: Seq<Vec<usize>>, s: int, i: int, len: int) -> bool {
    exists|p: Seq<int>|
        adj_walk(nb, p) && p.first() == s && p.last() == i && p.len() == len
}

/// Breadth-first distances over the room adjacency list from `start_idx`:
/// hop counts through the list, not through tiles. Every room is anchored
/// into one connected structure, so every room receives a distance: zero
/// for the starting room and at least one for every other.
pub fn room_distances(layout: &RoomLayout, start_idx: usize) -> (out: Vec<usize>)
    requires
        layout.adj_wf(),
        start_idx < layout.rooms@.len(),
        layout.rooms@.len() <= PLACEMENT_BUDGET,
    ensures
        out@.len() == layout.rooms@.len(),
        out@[start_idx as int] == 0,
        forall|i: int|
            0 <= i < out@.len() && i != start_idx ==> 1 <= #[trigger] out@[i] <= out@.len(),
        forall|i: int|
            0 <= i < out@.len() ==> walk_realizes(
                layout.neighbors@,
                start_idx as int,
                i,
                #[trigger] out@[i] + 1,
            ),
        forall|i: int, p: Seq<int>|
            #![trigger adj_walk(layout.neighbors@, p), out@[i]]
            0 <= i < out@.len() && adj_walk(layout.neighbors@, p) && p.first() == start_idx
                && p.last() == i ==> p.len() >= out@[i] + 1,
{
    let n = layout.rooms.len();
    let mut dist: Vec<Option<usize>> = Vec::new();
    let mut i: usize = 0;
    while i < n
        invariant
            0 <= i <= n,
            dist@.len() == i,
            forall|j: int| 0 <= j < i ==> (#[trigger] dist@[j]) is None,
            count_set(dist@) == 0,
        decreases n - i,
    {
        let ghost d0 = dist@;
        dist.push(None);
        proof {
            assert(dist@.drop_last() =~= d0);
        }
        i = i + 1;
    }
    proof {
        lemma_count_set_update(dist@, start_idx as int, 0);
    }
    dist[start_idx] = Some(0);
    let ghost mut wit: Seq<Seq<int>> = Seq::new(n as nat, |i: int| Seq::empty());
    proof {
        wit = wit.update(start_idx as int, seq![start_idx as int]);
        assert(adj_walk(layout.neighbors@, wit[start_idx as int]));
    }
    let mut queue: Vec<usize> = Vec::new();
    queue.push(start_idx);
    proof {
        assert(queue@[0] == start_idx);
        assert(queue@.contains(start_idx));
    }
    while queue.len() > 0
        invariant
            layout.adj_wf(),
            n == layout.rooms@.len(),
            n <= PLACEMENT_BUDGET,
            start_idx < n,
            dist@.len() == n,
            dist@[start_idx as int] == Some(0usize),
            count_set(dist@) <= n,
            forall|q: int| 0 <= q < queue@.len() ==> (#[trigger] queue@[q]) < n,
            forall|q: int| 0 <= q < queue@.len() ==> (dist@[#[trigger] queue@[q] as int]) is Some,
            forall|q1: int, q2: int|
                0 <= q1 < queue@.len() && 0 <= q2 < queue@.len() && q1 != q2 ==> (
                #[trigger] queue@[q1]) != (#[trigger] queue@[q2]),
            forall|j: int|
                0 <= j < n ==> ((#[trigger] dist@[j]) matches Some(v) ==> v < count_set(dist@)),
            forall|j: int|
                0 <= j < n && j != start_idx ==> ((#[trigger] dist@[j]) matches Some(v) ==> 1 <= v),
            wit.len() == n,
            forall|j: int|
                0 <= j < n ==> ((#[trigger] dist@[j]) matches Some(v) ==> adj_walk(
                    layout.neighbors@,
                    wit[j],
                ) && wit[j].first() == start_idx && wit[j].last() == j && wit[j].len() == v + 1),
            forall|q1: int, q2: int|
                0 <= q1 <= q2 < queue@.len() ==> dval(dist@, #[trigger] queue@[q1] as int) <= dval(
                    dist@,
                    #[trigger] queue@[q2] as int,
                ),
            forall|q: int|
                0 <= q < queue@.len() ==> dval(dist@, #[trigger] queue@[q] as int) <= dval(
                    dist@,
                    queue@[0] as int,
                ) + 1,
            forall|j: int|
                0 <= j < n && (#[trigger] dist@[j]) is Some && queue@.len() > 0 ==> dval(dist@, j)
                    <= dval(dist@, queue@[0] as int) + 1,
            forall|i2: int, k: int|
                0 <= i2 < n && 0 <= k < layout.neighbors@[i2]@.len() && dist@[i2] is Some
                    && !queue@.contains(i2 as usize) ==> dist@[
                    #[trigger] layout.neighbors@[i2]@[k] as int] is Some && dval(
                    dist@,
                    layout.neighbors@[i2]@[k] as int,
                ) <= dval(dist@, i2) + 1,
        decreases queue@.len() + 2 * (n - count_set(dist@)),
    {
        let ghost q0 = queue@;
        let cur = queue.remove(0);
        proof {
            assert(queue@ =~= q0.subrange(1, q0.len() as int));
            assert forall|q: int| 0 <= q < queue@.len() implies #[trigger] queue@[q] == q0[q
                + 1] by {}
            assert forall|v: usize| q0.contains(v) && v != cur implies queue@.contains(v) by {
                let q = choose|q: int| 0 <= q < q0.len() && q0[q] == v;
                assert(q != 0);
                assert(queue@[q - 1] == v);
            }
            assert(!queue@.contains(cur)) by {
                if queue@.contains(cur) {
                    let q = choose|q: int| 0 <= q < queue@.len() && queue@[q] == cur;
                    assert(q0[q + 1] == cur && q0[0] == cur);
                }
            }
        }
        let dcur = match dist[cur] {
            Some(v) => v,
            None => {
                proof {
                    assert(dist@[q0[0] as int] is Some);
                    assert(false);
                }
                0
            },
        };
        proof {
            lemma_count_set_le_len(dist@);
        }
        let ghost m0 = queue@.len() + 2 * (n - count_set(dist@));
        let row_len = layout.neighbors[cur].len();
        let mut k: usize = 0;
        while k < row_len
            invariant
                layout.adj_wf(),
                n == layout.rooms@.len(),
                n <= PLACEMENT_BUDGET,
                start_idx < n,
                cur < n,
                row_len == layout.neighbors@[cur as int]@.len(),
                0 <= k <= row_len,
                dist@.len() == n,
                dist@[start_idx as int] == Some(0usize),
                dist@[cur as int] == Some(dcur),
                count_set(dist@) <= n,
                dcur < count_set(dist@),
                queue@.len() + 2 * (n - count_set(dist@)) <= m0,
                forall|q: int| 0 <= q < queue@.len() ==> (#[trigger] queue@[q]) < n,
                forall|q: int|
                    0 <= q < queue@.len() ==> (dist@[#[trigger] queue@[q] as int]) is Some,
                forall|q1: int, q2: int|
                    0 <= q1 < queue@.len() && 0 <= q2 < queue@.len() && q1 != q2 ==> (
                    #[trigger] queue@[q1]) != (#[trigger] queue@[q2]),
                forall|j: int|
                    0 <= j < n ==> ((#[trigger] dist@[j]) matches Some(v) ==> v < count_set(
                        dist@,
                    )),
                forall|j: int|
                    0 <= j < n && j != start_idx ==> ((#[trigger] dist@[j]) matches Some(v) ==> 1
                        <= v),
                wit.len() == n,
                forall|j: int|
                    0 <= j < n ==> ((#[trigger] dist@[j]) matches Some(v) ==> adj_walk(
                        layout.neighbors@,
                        wit[j],
                    ) && wit[j].first() == start_idx && wit[j].last() == j && wit[j].len() == v
                        + 1),
                forall|q1: int, q2: int|
                    0 <= q1 <= q2 < queue@.len() ==> dval(dist@, #[trigger] queue@[q1] as int)
                        <= dval(dist@, #[trigger] queue@[q2] as int),
                forall|q: int|
                    0 <= q < queue@.len() ==> dcur <= dval(dist@, #[trigger] queue@[q] as int)
                        <= dcur + 1,
                forall|j: int|
                    0 <= j < n && (#[trigger] dist@[j]) is Some ==> dval(dist@, j) <= dcur + 1,
                forall|i2: int, k2: int|
                    0 <= i2 < n && 0 <= k2 < layout.neighbors@[i2]@.len() && dist@[i2] is Some
                        && !queue@.contains(i2 as usize) && i2 != cur ==> dist@[
                        #[trigger] layout.neighbors@[i2]@[k2] as int] is Some && dval(
                        dist@,
                        layout.neighbors@[i2]@[k2] as int,
                    ) <= dval(dist@, i2) + 1,
                forall|k2: int|
                    0 <= k2 < k ==> dist@[#[trigger] layout.neighbors@[cur as int]@[k2] as int]
                        is Some,
                !queue@.contains(cur),
            decreases row_len - k,
        {
            let nbk = layout.neighbors[cur][k];
            let is_unset = match dist[nbk] {
                Some(_) => false,
                None => true,
            };
            if is_unset {
                let ghost dist0 = dist@;
                let ghost queue0 = queue@;
                proof {
                    lemma_count_set_update(dist@, nbk as int, (dcur + 1) as usize);
                }
                dist[nbk] = Some(dcur + 1);
                queue.push(nbk);
                proof {
                    let wit0 = wit;
                    let walk = wit[cur as int].push(nbk as int);
                    wit = wit.update(nbk as int, walk);
                    assert(adj_walk(layout.neighbors@, walk)) by {
                        assert(adj_contains(layout.neighbors@, cur as int, nbk as int)) by {
                            assert(layout.neighbors@[cur as int]@[k as int] == nbk);
                        }
                        assert forall|i2: int| 0 <= i2 < walk.len() - 1 implies adj_contains(
                            layout.neighbors@,
                            #[trigger] walk[i2],
                            walk[i2 + 1],
                        ) by {
                            if i2 < walk.len() - 2 {
                                assert(walk[i2] == wit0[cur as int][i2]);
                                assert(walk[i2 + 1] == wit0[cur as int][i2 + 1]);
                            }
                        }
                    }
                    assert(dist0[cur as int] == Some(dcur));
                    assert(adj_walk(layout.neighbors@, wit0[cur as int]) && wit0[
                        cur as int].first() == start_idx && wit0[cur as int].last() == cur
                        && wit0[cur as int].len() == dcur + 1);
                    assert forall|j: int|
                        0 <= j < n implies ((#[trigger] dist@[j]) matches Some(v) ==> adj_walk(
                        layout.neighbors@,
                        wit[j],
                    ) && wit[j].first() == start_idx && wit[j].last() == j && wit[j].len() == v
                        + 1) by {
                        if j == nbk as int {
                            assert(wit[j] == walk);
                            assert(walk.first() == wit0[cur as int].first());
                            assert(walk.last() == nbk as int);
                        } else {
                            assert(wit[j] == wit0[j]);
                            assert(dist@[j] == dist0[j]);
                        }
                    }
                    lemma_count_set_le_len(dist@);
                    assert(queue@[queue0.len() as int] == nbk);
                    assert(queue@.contains(nbk));
                    assert forall|v: usize| queue0.contains(v) implies queue@.contains(v) by {
                        let q = choose|q: int| 0 <= q < queue0.len() && queue0[q] == v;
                        assert(queue@[q] == v);
                    }
                    assert forall|q: int| 0 <= q < queue@.len() implies (dist@[
                    #[trigger] queue@[q] as int]) is Some by {
                        if q < queue0.len() {
                            assert(dist0[queue@[q] as int] is Some);
                        }
                    }
                    assert forall|q1: int, q2: int|
                        0 <= q1 < queue@.len() && 0 <= q2 < queue@.len() && q1 != q2 implies (
                    #[trigger] queue@[q1]) != (#[trigger] queue@[q2]) by {
                        if q1 < queue0.len() && q2 < queue0.len() {
                        } else if q1 < queue0.len() {
                            assert(dist0[queue@[q1] as int] is Some);
                            assert(dist0[nbk as int] is None);
                        } else if q2 < queue0.len() {
                            assert(dist0[queue@[q2] as int] is Some);
                            assert(dist0[nbk as int] is None);
                        }
                    }
                    assert(!queue@.contains(cur)) by {
                        assert(dist0[cur as int] is Some);
                        assert(dist0[nbk as int] is None);
                        if queue@.contains(cur) {
                            let q = choose|q: int| 0 <= q < queue@.len() && queue@[q] == cur;
                            if q < queue0.len() {
                                assert(queue0[q] == cur);
                            }
                        }
                    }
                    assert forall|i2: int, k2: int|
                        0 <= i2 < n && 0 <= k2 < layout.neighbors@[i2]@.len() && dist@[i2] is Some
                            && !queue@.contains(i2 as usize) && i2 != cur implies dist@[
                        #[trigger] layout.neighbors@[i2]@[k2] as int] is Some by {
                        if i2 == nbk as int {
                            assert(queue@.contains(nbk));
                            assert(false);
                        } else {
                            assert(dist0[i2] is Some);
                            assert(!queue0.contains(i2 as usize));
                            assert(dist0[layout.neighbors@[i2]@[k2] as int] is Some);
                        }
                    }
                }
            }
            k = k + 1;
        }
        proof {
            // the popped room's neighbors are now all settled, so the
            // closure condition holds again with it off the queue
            assert forall|i2: int, k2: int|
                0 <= i2 < n && 0 <= k2 < layout.neighbors@[i2]@.len() && dist@[i2] is Some
                    && !queue@.contains(i2 as usize) implies dist@[
                #[trigger] layout.neighbors@[i2]@[k2] as int] is Some && dval(
                dist@,
                layout.neighbors@[i2]@[k2] as int,
            ) <= dval(dist@, i2) + 1 by {
                if i2 == cur {
                    assert(dist@[layout.neighbors@[cur as int]@[k2] as int] is Some);
                }
            }
            lemma_count_set_le_len(dist@);
        }
    }
    proof {
        // an empty queue means the settled set is closed under adjacency;
        // the anchor chains then settle every room
        assert(bfs_closed(layout.neighbors@, dist@));
        lemma_anchors_down(*layout, dist@, start_idx as int);
        assert forall|j: int| 0 <= j < n implies (#[trigger] dist@[j]) is Some by {
            lemma_anchors_up(*layout, dist@, j);
        }
        lemma_count_set_le_len(dist@);
    }
    let mut out: Vec<usize> = Vec::new();
    let mut i: usize = 0;
    while i < n
        invariant
            0 <= i <= n,
            n == layout.rooms@.len(),
            dist@.len() == n,
            start_idx < n,
            out@.len() == i,
            dist@[start_idx as int] == Some(0usize),
            count_set(dist@) <= n,
            forall|j: int| 0 <= j < n ==> (#[trigger] dist@[j]) is Some,
            forall|j: int|
                0 <= j < n ==> ((#[trigger] dist@[j]) matches Some(v) ==> v < count_set(dist@)),
            forall|j: int|
                0 <= j < n && j != start_idx ==> ((#[trigger] dist@[j]) matches Some(v) ==> 1 <= v),
            forall|j: int| 0 <= j < i ==> #[trigger] out@[j] == dist@[j]->Some_0,
        decreases n - i,
    {
        let v = match dist[i] {
            Some(v) => v,
            None => {
                proof {
                    assert(false);
                }
                0
            },
        };
        out.push(v);
        i = i + 1;
    }
    proof {
        assert forall|j: int| 0 <= j < out@.len() implies walk_realizes(
            layout.neighbors@,
            start_idx as int,
            j,
            #[trigger] out@[j] + 1,
        ) by {
            assert(dist@[j] is Some);
            assert(out@[j] == dist@[j]->Some_0);
            assert(adj_walk(layout.neighbors@, wit[j]) && wit[j].first() == start_idx
                && wit[j].last() == j && wit[j].len() == out@[j] + 1);
        }
        assert forall|j: int, p: Seq<int>|
            #![trigger adj_walk(layout.neighbors@, p), out@[j]]
            0 <= j < out@.len() && adj_walk(layout.neighbors@, p) && p.first() == start_idx
                && p.last() == j implies p.len() >= out@[j] + 1 by {
            lemma_walk_lower_bound(layout.neighbors@, dist@, p, start_idx as int);
            assert(out@[j] == dval(dist@, j));
        }
    }
    out
}

/// Counting non-corridor rooms, one prefix step at a time.
proof fn lemma_count_take_step(rooms: Seq<Room>, i: int)
    requires
        0 <= i < rooms.len(),
    ensures
        count_non_hall(rooms.take(i + 1)) == count_non_hall(rooms.take(i)) + if rooms[i].hall {
            0int
        } else {
            1int
        },
{
    assert(rooms.take(i + 1).drop_last() =~= rooms.take(i));
    assert(rooms.take(i + 1).last() == rooms[i]);
}

/// The indices of the non-corridor rooms, in order.
fn non_hall_indices(rooms: &Vec<Room>) -> (c: Vec<usize>)
    ensures
        c@.len() == count_non_hall(rooms@),
        forall|k: int|
            0 <= k < c@.len() ==> (#[trigger] c@[k]) < rooms@.len() && !rooms@[c@[k] as int].hall,
        forall|k1: int, k2: int| 0 <= k1 < k2 < c@.len() ==> c@[k1] < c@[k2],
{
    let n = rooms.len();
    let mut c: Vec<usize> = Vec::new();
    let mut i: usize = 0;
    while i < n
        invariant
            0 <= i <= n,
            n == rooms@.len(),
            c@.len() == count_non_hall(rooms@.take(i as int)),
            c@.len() <= i,
            forall|k: int|
                0 <= k < c@.len() ==> (#[trigger] c@[k]) < i && !rooms@[c@[k] as int].hall,
            forall|k1: int, k2: int| 0 <= k1 < k2 < c@.len() ==> c@[k1] < c@[k2],
        decreases n - i,
    {
        proof {
            lemma_count_take_step(rooms@, i as int);
        }
        if !rooms[i].hall {
            c.push(i);
        }
        i = i + 1;
    }
    proof {
        assert(rooms@.take(n as int) =~= rooms@);
    }
    c
}

/// The non-corridor room with the greatest distance label; ties go to the
/// room encountered first. Corridors never become the exit.
fn furthest_room(rooms: &Vec<Room>, dist: &Vec<usize>) -> (r: (usize, usize))
    requires
        dist@.len() == rooms@.len(),
        count_non_hall(rooms@) >= 1,
    ensures
        r.0 < rooms@.len(),
        !rooms@[r.0 as int].hall,
        dist@[r.0 as int] == r.1,
        forall|j: int| 0 <= j < rooms@.len() && !rooms@[j].hall ==> #[trigger] dist@[j] <= r.1,
        forall|j: int| 0 <= j < r.0 && !rooms@[j].hall ==> #[trigger] dist@[j] < r.1,
{
    let n = rooms.len();
    let mut have = false;
    let mut best_idx: usize = 0;
    let mut best_d: usize = 0;
    let mut i: usize = 0;
    while i < n
        invariant
            0 <= i <= n,
            n == rooms@.len(),
            dist@.len() == n,
            have ==> best_idx < i && !rooms@[best_idx as int].hall && dist@[best_idx as int]
                == best_d,
            have ==> forall|j: int| 0 <= j < i && !rooms@[j].hall ==> #[trigger] dist@[j] <= best_d,
            have ==> forall|j: int|
                0 <= j < best_idx && !rooms@[j].hall ==> #[trigger] dist@[j] < best_d,
            !have ==> forall|j: int| 0 <= j < i ==> (#[trigger] rooms@[j]).hall,
        decreases n - i,
    {
        if !rooms[i].hall {
            let di = dist[i];
            if !have || di > best_d {
                have = true;
                best_idx = i;
                best_d = di;
            }
        }
        i = i + 1;
    }
    proof {
        if !have {
            lemma_all_hall_count(rooms@);
        }
    }
    (best_idx, best_d)
}

/// A room list made of corridors alone has no non-corridor rooms.
proof fn lemma_all_hall_count(rooms: Seq<Room>)
    requires
        forall|j: int| 0 <= j < rooms.len() ==> (#[trigger] rooms[j]).hall,
    ensures
        count_non_hall(rooms) == 0,
    decreases rooms.len(),
{
    if rooms.len() > 0 {
        lemma_all_hall_count(rooms.drop_last());
    }
}

/// The product of two factors between 0 and a million, which stays within
/// a trillion.
fn mul_bounded(a: i64, b: i64) -> (r: i64)
    requires
        0 <= a <= 1000000,
        0 <= b <= 1000000,
    ensures
        r == a * b,
        0 <= r <= 1000000000000i64,
{
    proof {
        assert(0 <= a * b <= 1000000000000i64) by (nonlinear_arith)
            requires
                0 <= a <= 1000000,
                0 <= b <= 1000000,
        ;
    }
    a * b
}

/// Scatters monsters over every placed room and corridor. Each placement
/// receives up to an area-proportional number of monsters: the placement's
/// area is interpolated linearly between the smallest and largest possible
/// area of its category, clamped, scaled by the category's configured
/// maximum, and rounded to nearest; the actual count is drawn uniformly up
/// to that. A draw landing on an occupied tile is retried, against the
/// attempt budget. Tile types are left untouched.
fn place_monsters(rng: &mut SeededRng, params: &DungeonParams, rooms: &Vec<Room>, d: &mut Dungeon)
    requires
        params_valid(*params),
        old(d).wf(),
        old(d).spec_width() <= 1000000,
        old(d).spec_height() <= 1000000,
        forall|i: int| 0 <= i < rooms@.len() ==> room_placed(#[trigger] rooms@[i], *old(d)),
        forall|x: int, y: int|
            old(d).in_bounds(x, y) ==> (#[trigger] old(d).entity_at(x, y)) is None,
    ensures
        final(d).wf(),
        final(d).spec_width() == old(d).spec_width(),
        final(d).spec_height() == old(d).spec_height(),
        final(d).spec_start_coords() == old(d).spec_start_coords(),
        final(d).spec_end_coords() == old(d).spec_end_coords(),
        final(d).spec_path_length() == old(d).spec_path_length(),
        forall|x: int, y: int|
            old(d).in_bounds(x, y) ==> #[trigger] final(d).type_at(x, y) == old(d).type_at(x, y),
        forall|x: int, y: int|
            old(d).in_bounds(x, y) && (#[trigger] final(d).entity_at(x, y)) is Some
                ==> final(d).type_at(x, y) != TileType::Wall,
{
    let n = rooms.len();
    let mut i: usize = 0;
    while i < n
        invariant
            params_valid(*params),
            n == rooms@.len(),
            0 <= i <= n,
            d.wf(),
            d.spec_width() == old(d).spec_width(),
            d.spec_height() == old(d).spec_height(),
            d.spec_width() <= 1000000,
            d.spec_height() <= 1000000,
            d.spec_start_coords() == old(d).spec_start_coords(),
            d.spec_end_coords() == old(d).spec_end_coords(),
            d.spec_path_length() == old(d).spec_path_length(),
            forall|j: int| 0 <= j < rooms@.len() ==> room_placed(#[trigger] rooms@[j], *old(d)),
            forall|x: int, y: int|
                old(d).in_bounds(x, y) ==> #[trigger] d.type_at(x, y) == old(d).type_at(x, y),
            forall|x: int, y: int|
                old(d).in_bounds(x, y) && (#[trigger] d.entity_at(x, y)) is Some ==> d.type_at(
                    x,
                    y,
                ) != TileType::Wall,
        decreases n - i,
    {
        let room = rooms[i];
        proof {
            assert(room_placed(rooms@[i as int], *old(d)));
        }
        let area: i64 = mul_bounded(room.w as i64, room.h as i64);
        let min_area: i64;
        let max_area: i64;
        let maxp: i64;
        if room.hall {
            min_area = mul_bounded(params.hall_width_min as i64, params.hall_length_min as i64);
            max_area = mul_bounded(params.hall_width_max as i64, params.hall_length_max as i64);
            maxp = params.hall_monsters_max as i64;
        } else {
            min_area = mul_bounded(params.room_size_min as i64, params.room_size_min as i64);
            max_area = mul_bounded(params.room_size_max as i64, params.room_size_max as i64);
            maxp = params.room_monsters_max as i64;
        }
        // linear interpolation of the monster cap, clamped and rounded to
        // nearest; a degenerate interpolation range yields no monsters
        let max_monsters: i64;
        if max_area <= min_area {
            max_monsters = 0;
        } else {
            let den = max_area - min_area;
            let num0 = area - min_area;
            let num = if num0 < 0 {
                0
            } else if num0 > den {
                den
            } else {
                num0
            };
            proof {
                assert(0 <= 2 * num * maxp <= 2000000000000000000i64) by (nonlinear_arith)
                    requires
                        0 <= num <= 1000000000000i64,
                        0 <= maxp <= 1000000i64,
                ;
            }
            let mm = (2 * num * maxp + den) / (2 * den);
            max_monsters = if mm < 0 {
                0
            } else if mm > maxp {
                maxp
            } else {
                mm
            };
        }
        let monster_count = rng.gen_range_i64(0, max_monsters + 1);
        let mut placed: i64 = 0;
        let mut mfuel: u64 = PLACEMENT_BUDGET;
        while placed < monster_count && mfuel > 0
            invariant
                0 <= i < n,
                n == rooms@.len(),
                room == rooms@[i as int],
                d.wf(),
                old(d).spec_width() <= 1000000,
                old(d).spec_height() <= 1000000,
                d.spec_width() == old(d).spec_width(),
                d.spec_height() == old(d).spec_height(),
                d.spec_start_coords() == old(d).spec_start_coords(),
                d.spec_end_coords() == old(d).spec_end_coords(),
                d.spec_path_length() == old(d).spec_path_length(),
                forall|j: int| 0 <= j < rooms@.len() ==> room_placed(#[trigger] rooms@[j], *old(d)),
                forall|x: int, y: int|
                    old(d).in_bounds(x, y) ==> #[trigger] d.type_at(x, y) == old(d).type_at(x, y),
                forall|x: int, y: int|
                    old(d).in_bounds(x, y) && (#[trigger] d.entity_at(x, y)) is Some
                        ==> d.type_at(x, y) != TileType::Wall,
            decreases mfuel,
        {
            mfuel = mfuel - 1;
            proof {
                assert(room_placed(rooms@[i as int], *old(d)));
            }
            let mx = rng.gen_range_isize(room.x, room.x + room.w);
            let my = rng.gen_range_isize(room.y, room.y + room.h);
            let occupied = match d.get_tile(mx, my) {
                Some(t) => t.e.is_some(),
                None => {
                    proof {
                        assert(false);
                    }
                    true
                },
            };
            if !occupied {
                let id = rng.gen_u64();
                let ghost d_mid = *d;
                let ok = d.set_entity(mx, my, Some(Entity::Monster(#[verifier::truncate] (id as usize))));
                proof {
                    assert(ok);
                    assert forall|x: int, y: int| old(d).in_bounds(x, y) implies
                        #[trigger] d.type_at(x, y) == old(d).type_at(x, y) by {
                        if (x, y) != (mx as int, my as int) {
                            assert(d.tile_at(x, y) == d_mid.tile_at(x, y));
                        } else {
                            assert(d.type_at(x, y) == d_mid.type_at(x, y));
                        }
                    }
                    assert forall|x: int, y: int|
                        old(d).in_bounds(x, y) && (#[trigger] d.entity_at(x, y)) is Some implies
                        d.type_at(x, y) != TileType::Wall by {
                        if (x, y) == (mx as int, my as int) {
                            assert(room.x <= mx < room.x + room.w);
                            assert(room.y <= my < room.y + room.h);
                            assert(room_placed(rooms@[i as int], *old(d)));
                            assert(old(d).tile_at(x, y) == old(d).tile_at(x, y));
                            assert(old(d).type_at(x, y) != TileType::Wall);
                            assert(d.type_at(x, y) == old(d).type_at(x, y));
                        } else {
                            assert(d.tile_at(x, y) == d_mid.tile_at(x, y));
                            assert(d_mid.entity_at(x, y) is Some);
                        }
                    }
                }
                placed = placed + 1;
            }
        }
        i = i + 1;
    }
}

/// Half of a positive length stays inside it.
proof fn lemma_half_range(w: int)
    requires
        1 <= w,
    ensures
        0 <= w / 2 < w,
{
    assert(0 <= w / 2 < w) by (nonlinear_arith)
        requires
            1 <= w,
    ;
}

/// Builds a dungeon from the seed and parameters: rooms and corridors are
/// placed and joined, a stairs-up tile is stamped at the center of a
/// randomly chosen non-corridor room, a stairs-down tile at the center of
/// the non-corridor room furthest from it through the room adjacency list
/// (their graph distance is recorded as the path length), and monsters are
/// scattered. Deterministic: every random choice comes from the one
/// generator seeded with `seed`.
///
/// Returns a dungeon exactly when the placement replay for this seed and
/// parameter set reaches the room count within the attempt budget; only
/// pathological parameter sets fall short. With at least two rooms requested,
/// the entrance and exit of a generated dungeon are distinct, at a room
/// distance of at least two (rooms join only through corridors). The
/// stairs tiles are unique: none stands anywhere but at the recorded
/// coordinates, and monsters sit only on carved (non-wall) tiles.
pub fn generate(seed: [u8; 32], params: &DungeonParams) -> (r: Option<Dungeon>)
    requires
        params_valid(*params),
        params.map_width * params.map_height <= usize::MAX,
    ensures
        r is Some <==> placement_succeeds(seed@, *params),
        r matches Some(d) ==> {
            &&& d.wf()
            &&& d.spec_width() == params.map_width
            &&& d.spec_height() == params.map_height
            &&& d.in_bounds(d.spec_start_coords().0, d.spec_start_coords().1)
            &&& d.in_bounds(d.spec_end_coords().0, d.spec_end_coords().1)
            &&& d.type_at(d.spec_end_coords().0, d.spec_end_coords().1) == TileType::StairsDown
            &&& (d.spec_start_coords() != d.spec_end_coords() ==> d.type_at(
                d.spec_start_coords().0,
                d.spec_start_coords().1,
            ) == TileType::StairsUp)
            &&& (params.room_count >= 2 ==> d.spec_start_coords() != d.spec_end_coords())
            &&& (params.room_count >= 2 ==> d.spec_path_length() >= 2)
            &&& (forall|x: int, y: int|
                d.in_bounds(x, y) && #[trigger] d.type_at(x, y) == TileType::StairsUp ==> (
                x,
                y,
                ) == d.spec_start_coords())
            &&& (forall|x: int, y: int|
                d.in_bounds(x, y) && #[trigger] d.type_at(x, y) == TileType::StairsDown ==> (
                x,
                y,
                ) == d.spec_end_coords())
            &&& (forall|x: int, y: int|
                d.in_bounds(x, y) && (#[trigger] d.entity_at(x, y)) is Some ==> d.type_at(x, y)
                    != TileType::Wall)
            &&& (forall|c: (int, int)|
                #[trigger] passable_at(d, c) ==> tiles_connected(d, d.spec_start_coords(), c))
            &&& (forall|x: int, y: int|
                d.in_bounds(x, y) && (x == 0 || y == 0 || x == d.spec_width() - 1 || y
                    == d.spec_height() - 1) ==> #[trigger] d.type_at(x, y) == TileType::Wall)
        },
{
    let mut rng = SeededRng::from_seed(seed);
    let mut d = Dungeon::empty(params.map_width, params.map_height);
    let layout = match place_rooms(&mut rng, params, &mut d) {
        Some(l) => l,
        None => {
            return None;
        },
    };
    let ghost d0 = d;
    // the entrance: a uniformly chosen non-corridor room
    let candidates = non_hall_indices(&layout.rooms);
    let ci = rng.gen_range_isize(0, candidates.len() as isize) as usize;
    let start_idx = candidates[ci];
    proof {
        assert(layout.adj_wf());
    }
    let dist = room_distances(&layout, start_idx);
    // the exit: the furthest non-corridor room, ties to the first found
    let fr = furthest_room(&layout.rooms, &dist);
    let end_idx = fr.0;
    let furthest = fr.1;
    d.set_path_length(furthest);
    let ghost d1 = d;
    let start_room = layout.rooms[start_idx];
    let end_room = layout.rooms[end_idx];
    proof {
        assert(room_placed(layout.rooms@[start_idx as int], d0));
        assert(room_placed(layout.rooms@[end_idx as int], d0));
        lemma_half_range(start_room.w as int);
        lemma_half_range(start_room.h as int);
        lemma_half_range(end_room.w as int);
        lemma_half_range(end_room.h as int);
    }
    let sc = start_room.center();
    let ec = end_room.center();
    let set_s = d.set_tile(sc.0, sc.1, TileType::StairsUp);
    d.set_start_coords(sc);
    let ghost d2 = d;
    let set_e = d.set_tile(ec.0, ec.1, TileType::StairsDown);
    d.set_end_coords(ec);
    let ghost d3 = d;
    proof {
        assert(set_s && set_e);
        assert(d.type_at(ec.0 as int, ec.1 as int) == TileType::StairsDown);
        if (sc.0 as int, sc.1 as int) != (ec.0 as int, ec.1 as int) {
            assert(d.tile_at(sc.0 as int, sc.1 as int) == d2.tile_at(sc.0 as int, sc.1 as int));
            assert(d.type_at(sc.0 as int, sc.1 as int) == TileType::StairsUp);
        }
        if params.room_count >= 2 {
            // at least two distinct non-corridor rooms exist, so the
            // furthest one lies at distance one or more: a different room
            let c0 = candidates@[0];
            let c1 = candidates@[1];
            assert(c0 < c1);
            let jother: usize = if c0 == start_idx {
                c1
            } else {
                c0
            };
            assert(jother != start_idx);
            assert(!layout.rooms@[jother as int].hall);
            assert(dist@[jother as int] >= 1);
            assert(furthest >= 1);
            assert(end_idx != start_idx);
            assert(furthest >= 2) by {
                if furthest == 1 {
                    // a one-hop distance would join two non-corridor rooms
                    // directly, which placement always rejects
                    assert(walk_realizes(
                        layout.neighbors@,
                        start_idx as int,
                        end_idx as int,
                        dist@[end_idx as int] + 1,
                    ));
                    let p = choose|p: Seq<int>|
                        adj_walk(layout.neighbors@, p) && p.first() == start_idx as int
                            && p.last() == end_idx as int && p.len() == 2;
                    assert(adj_contains(layout.neighbors@, p[0], p[1]));
                    let k = choose|k: int|
                        0 <= k < layout.neighbors@[p[0]]@.len() && layout.neighbors@[p[0]]@[k]
                            == p[1];
                    assert(layout.rooms@[p[0]].hall || layout.rooms@[
                        (layout.neighbors@[p[0]]@[k]) as int].hall);
                    assert(!layout.rooms@[start_idx as int].hall);
                    assert(!layout.rooms@[end_idx as int].hall);
                    assert(false);
                }
            }
            // separated footprints have distinct centers
            assert(rooms_separated(
                layout.rooms@[start_idx as int],
                layout.rooms@[end_idx as int],
            ));
            assert(start_room.x <= sc.0 < start_room.x + start_room.w);
            assert(start_room.y <= sc.1 < start_room.y + start_room.h);
            assert(end_room.x <= ec.0 < end_room.x + end_room.w);
            assert(end_room.y <= ec.1 < end_room.y + end_room.h);
            assert((sc.0 as int, sc.1 as int) != (ec.0 as int, ec.1 as int));
        }
        // the two stamps are the only stairs tiles, and no entities exist yet
        assert forall|x: int, y: int|
            d3.in_bounds(x, y) && #[trigger] d3.type_at(x, y) == TileType::StairsUp implies (
        x,
        y,
        ) == (sc.0 as int, sc.1 as int) by {
            if (x, y) != (ec.0 as int, ec.1 as int) && (x, y) != (sc.0 as int, sc.1 as int) {
                assert(d3.tile_at(x, y) == d2.tile_at(x, y));
                assert(d2.tile_at(x, y) == d1.tile_at(x, y));
                assert(d1.tile_at(x, y) == d0.tile_at(x, y));
                assert(d0.type_at(x, y) != TileType::StairsUp);
                assert(false);
            }
            if (x, y) == (ec.0 as int, ec.1 as int) {
                assert(d3.type_at(x, y) == TileType::StairsDown);
                assert(false);
            }
        }
        assert forall|x: int, y: int|
            d3.in_bounds(x, y) && #[trigger] d3.type_at(x, y) == TileType::StairsDown implies (
        x,
        y,
        ) == (ec.0 as int, ec.1 as int) by {
            if (x, y) != (ec.0 as int, ec.1 as int) {
                if (x, y) == (sc.0 as int, sc.1 as int) {
                    assert(d3.tile_at(x, y) == d2.tile_at(x, y));
                    assert(d2.type_at(x, y) == TileType::StairsUp);
                    assert(false);
                } else {
                    assert(d3.tile_at(x, y) == d2.tile_at(x, y));
                    assert(d2.tile_at(x, y) == d1.tile_at(x, y));
                    assert(d1.tile_at(x, y) == d0.tile_at(x, y));
                    assert(d0.type_at(x, y) != TileType::StairsDown);
                    assert(false);
                }
            }
        }
        assert forall|x: int, y: int| d3.in_bounds(x, y) implies (#[trigger] d3.entity_at(
            x,
            y,
        )) is None by {
            assert(d0.entity_at(x, y) is None);
            if (x, y) != (ec.0 as int, ec.1 as int) && (x, y) != (sc.0 as int, sc.1 as int) {
                assert(d3.tile_at(x, y) == d2.tile_at(x, y));
                assert(d2.tile_at(x, y) == d1.tile_at(x, y));
                assert(d1.tile_at(x, y) == d0.tile_at(x, y));
            } else if (x, y) == (ec.0 as int, ec.1 as int) {
                // the stairs stamps keep the entity field
                assert(d3.entity_at(x, y) == d2.entity_at(x, y));
                if (x, y) != (sc.0 as int, sc.1 as int) {
                    assert(d2.tile_at(x, y) == d1.tile_at(x, y));
                } else {
                    assert(d2.entity_at(x, y) == d1.entity_at(x, y));
                }
                assert(d1.tile_at(x, y) == d0.tile_at(x, y));
            } else {
                assert(d3.tile_at(x, y) == d2.tile_at(x, y));
                assert(d2.entity_at(x, y) == d1.entity_at(x, y));
                assert(d1.tile_at(x, y) == d0.tile_at(x, y));
            }
        }
        // the stairs are not wall, so every room stays carved
        assert forall|i: int| 0 <= i < layout.rooms@.len() implies room_placed(
            #[trigger] layout.rooms@[i],
            d3,
        ) by {
            let rj = layout.rooms@[i];
            assert(room_placed(rj, d0));
            assert forall|xx: int, yy: int|
                #![trigger d3.tile_at(xx, yy)]
                rj.x <= xx < rj.x + rj.w && rj.y <= yy < rj.y + rj.h implies d3.type_at(xx, yy)
                != TileType::Wall by {
                if (xx, yy) == (ec.0 as int, ec.1 as int) {
                    assert(d3.type_at(xx, yy) == TileType::StairsDown);
                } else if (xx, yy) == (sc.0 as int, sc.1 as int) {
                    assert(d3.tile_at(xx, yy) == d2.tile_at(xx, yy));
                    assert(d2.type_at(xx, yy) == TileType::StairsUp);
                } else {
                    assert(d3.tile_at(xx, yy) == d2.tile_at(xx, yy));
                    assert(d2.tile_at(xx, yy) == d1.tile_at(xx, yy));
                    assert(d1.tile_at(xx, yy) == d0.tile_at(xx, yy));
                }
            }
        }
    }
    place_monsters(&mut rng, params, &layout.rooms, &mut d);
    proof {
        assert(d.type_at(ec.0 as int, ec.1 as int) == d3.type_at(ec.0 as int, ec.1 as int));
        if (sc.0 as int, sc.1 as int) != (ec.0 as int, ec.1 as int) {
            assert(d.type_at(sc.0 as int, sc.1 as int) == d3.type_at(sc.0 as int, sc.1 as int));
        }
        assert forall|x: int, y: int|
            d.in_bounds(x, y) && #[trigger] d.type_at(x, y) == TileType::StairsUp implies (
        x,
        y,
        ) == d.spec_start_coords() by {
            assert(d.type_at(x, y) == d3.type_at(x, y));
        }
        assert forall|x: int, y: int|
            d.in_bounds(x, y) && #[trigger] d.type_at(x, y) == TileType::StairsDown implies (
        x,
        y,
        ) == d.spec_end_coords() by {
            assert(d.type_at(x, y) == d3.type_at(x, y));
        }
        assert forall|x: int, y: int|
            d.in_bounds(x, y) && (#[trigger] d.entity_at(x, y)) is Some implies d.type_at(x, y)
            != TileType::Wall by {
            assert(d.type_at(x, y) == d3.type_at(x, y));
        }
        // the carved grid is connected, and the stamps and monsters change
        // no tile's passability, so everything passable still reaches the
        // entrance
        assert forall|c: (int, int)| #[trigger] passable_at(d, c) <==> passable_at(d0, c) by {
            if d0.in_bounds(c.0, c.1) {
                assert(d.type_at(c.0, c.1) == d3.type_at(c.0, c.1));
                if (c.0, c.1) == (ec.0 as int, ec.1 as int) {
                    assert(d3.type_at(c.0, c.1) == TileType::StairsDown);
                    assert(d0.type_at(c.0, c.1) != TileType::Wall);
                } else if (c.0, c.1) == (sc.0 as int, sc.1 as int) {
                    assert(d3.tile_at(c.0, c.1) == d2.tile_at(c.0, c.1));
                    assert(d2.type_at(c.0, c.1) == TileType::StairsUp);
                    assert(d0.type_at(c.0, c.1) != TileType::Wall);
                } else {
                    assert(d3.tile_at(c.0, c.1) == d2.tile_at(c.0, c.1));
                    assert(d2.tile_at(c.0, c.1) == d1.tile_at(c.0, c.1));
                    assert(d1.tile_at(c.0, c.1) == d0.tile_at(c.0, c.1));
                }
            }
        }
        assert forall|c: (int, int)| #[trigger] passable_at(d, c) implies tiles_connected(
            d,
            d.spec_start_coords(),
            c,
        ) by {
            assert(passable_at(d0, (sc.0 as int, sc.1 as int)));
            assert(passable_at(d0, c));
            assert(tiles_connected(d0, (sc.0 as int, sc.1 as int), c));
            lemma_connected_monotone(d0, d, (sc.0 as int, sc.1 as int), c);
        }
        // the border was never carved, and the stairs stand inside rooms
        assert forall|x: int, y: int|
            d.in_bounds(x, y) && (x == 0 || y == 0 || x == d.spec_width() - 1 || y
                == d.spec_height() - 1) implies #[trigger] d.type_at(x, y) == TileType::Wall by {
            assert(d0.type_at(x, y) == TileType::Wall);
            assert(!passable_at(d0, (x, y)));
            assert(!passable_at(d, (x, y)));
        }
    }
    Some(d)
}

/// `generate` with the stock parameters.
pub fn generate_default(seed: [u8; 32]) -> (r: Option<Dungeon>)
    ensures
        r is Some <==> placement_succeeds(
            seed@,
            (DungeonParams {
                room_count: 25,
                room_size_min: 5,
                room_size_max: 12,
                hall_width_min: 1,
                hall_width_max: 1,
                hall_length_min: 3,
                hall_length_max: 12,
                room_monsters_max: 10,
                hall_monsters_max: 2,
                hall_chance_permille: 250,
                map_width: 250,
                map_height: 250,
            }),
        ),
        r matches Some(d) ==> {
            &&& d.wf()
            &&& d.spec_width() == 250
            &&& d.spec_height() == 250
            &&& d.in_bounds(d.spec_start_coords().0, d.spec_start_coords().1)
            &&& d.in_bounds(d.spec_end_coords().0, d.spec_end_coords().1)
            &&& d.spec_start_coords() != d.spec_end_coords()
            &&& d.type_at(d.spec_start_coords().0, d.spec_start_coords().1)
                == TileType::StairsUp
            &&& d.type_at(d.spec_end_coords().0, d.spec_end_coords().1) == TileType::StairsDown
            &&& d.spec_path_length() >= 2
            &&& (forall|x: int, y: int|
                d.in_bounds(x, y) && #[trigger] d.type_at(x, y) == TileType::StairsUp ==> (
                x,
                y,
                ) == d.spec_start_coords())
            &&& (forall|x: int, y: int|
                d.in_bounds(x, y) && #[trigger] d.type_at(x, y) == TileType::StairsDown ==> (
                x,
                y,
                ) == d.spec_end_coords())
            &&& (forall|x: int, y: int|
                d.in_bounds(x, y) && (#[trigger] d.entity_at(x, y)) is Some ==> d.type_at(x, y)
                    != TileType::Wall)
            &&& (forall|c: (int, int)|
                #[trigger] passable_at(d, c) ==> tiles_connected(d, d.spec_start_coords(), c))
            &&& (forall|x: int, y: int|
                d.in_bounds(x, y) && (x == 0 || y == 0 || x == d.spec_width() - 1 || y
                    == d.spec_height() - 1) ==> #[trigger] d.type_at(x, y) == TileType::Wall)
        },
{
    let params = DungeonParams::default();
    generate(seed, &params)
}

/// Adjacency entries survive when rows only grow (or stay) at the end.
proof fn lemma_adj_monotone(nb1: Seq<Vec<usize>>, nb2: Seq<Vec<usize>>, i: int, j: int)
    requires
        0 <= i < nb1.len(),
        nb1.len() <= nb2.len(),
        adj_contains(nb1, i, j),
        nb1[i]@.len() <= nb2[i]@.len(),
        forall|k: int| 0 <= k < nb1[i]@.len() ==> #[trigger] nb2[i]@[k] == nb1[i]@[k],
    ensures
        adj_contains(nb2, i, j),
{
    let k = choose|k: int| 0 <= k < nb1[i]@.len() && nb1[i]@[k] == j;
    assert(nb2[i]@[k] == j);
}

} // verus!
