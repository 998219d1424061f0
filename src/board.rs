//! The mountain: a multi-level hexagonal board in cube coordinates.
use vstd::prelude::*;

use crate::models::{first_index, lemma_first_index_meaning, lemma_first_index_scan, Card, Position};

verus! {

/// What stands on a tile.
#[derive(Debug, PartialEq)]
pub enum TileContent {
    Empty,
    Card(Card),
    Trap(Card),
    /// The identity of the player on the tile.
    Player(u128),
}

#[derive(Debug, PartialEq)]
pub struct Tile {
    pub x: u32,
    pub y: u32,
    pub z: u32,
    pub level: u32,
    pub content: TileContent,
}

/// The board. Tiles are built once, by `new`, and only their content changes.
#[derive(Debug, PartialEq)]
pub struct Mountain {
    pub tiles: Vec<Tile>,
    pub levels: u32,
}

/// The tile at `(x, y, z)`, as a predicate on tiles.
pub open spec fn at_coords(x: u32, y: u32, z: u32) -> spec_fn(Tile) -> bool {
    |t: Tile| t.x == x && t.y == y && t.z == z
}

/// Whether some tile of `s` stands at `(x, y, z)`.
pub open spec fn has_tile(s: Seq<Tile>, x: u32, y: u32, z: u32) -> bool {
    exists|i: int| 0 <= i < s.len() && at_coords(x, y, z)(#[trigger] s[i])
}

/// Whether `a` comes before `b` when tiles are ordered by level, then `x`,
/// then `y`.
pub open spec fn tile_before(a: Tile, b: Tile) -> bool {
    a.level < b.level || (a.level == b.level && (a.x < b.x || (a.x == b.x && a.y < b.y)))
}

/// The position of a tile.
pub open spec fn tile_position(t: Tile) -> Position {
    Position { x: t.x, y: t.y, z: t.z, level: t.level }
}

pub open spec fn abs_diff(a: u32, b: u32) -> int {
    if a >= b {
        a - b
    } else {
        b - a
    }
}

/// The hex-grid distance of two positions: the largest difference of a
/// coordinate.
pub open spec fn cube_distance(a: Position, b: Position) -> int {
    let dx = abs_diff(a.x, b.x);
    let dy = abs_diff(a.y, b.y);
    let dz = abs_diff(a.z, b.z);
    if dx >= dy && dx >= dz {
        dx
    } else if dy >= dz {
        dy
    } else {
        dz
    }
}

/// The six unit steps of cube coordinates, in the order they are tried.
pub open spec fn direction(k: int) -> (int, int, int) {
    if k == 0 {
        (1, 0, -1)
    } else if k == 1 {
        (1, -1, 0)
    } else if k == 2 {
        (0, -1, 1)
    } else if k == 3 {
        (-1, 0, 1)
    } else if k == 4 {
        (-1, 1, 0)
    } else {
        (0, 1, -1)
    }
}

/// Whether the step `k` from `(x, y, z)` gives a neighbor: no coordinate
/// below zero, and a level of at most `levels`.
pub open spec fn neighbor_ok(levels: u32, x: u32, y: u32, z: u32, k: int) -> bool {
    let (dx, dy, dz) = direction(k);
    x + dx >= 0 && y + dy >= 0 && z + dz >= 0 && (x + dx) + (y + dy) + (z + dz) <= levels
}

/// The position the step `k` from `(x, y, z)` leads to.
pub open spec fn neighbor_at(x: u32, y: u32, z: u32, k: int) -> Position {
    let (dx, dy, dz) = direction(k);
    Position {
        x: (x + dx) as u32,
        y: (y + dy) as u32,
        z: (z + dz) as u32,
        level: ((x + dx) + (y + dy) + (z + dz)) as u32,
    }
}

/// The neighbors given by the first `n` steps, in order.
pub open spec fn neighbors_upto(levels: u32, x: u32, y: u32, z: u32, n: int) -> Seq<Position>
    decreases n,
{
    if n <= 0 {
        Seq::empty()
    } else {
        let r = neighbors_upto(levels, x, y, z, n - 1);
        if neighbor_ok(levels, x, y, z, n - 1) {
            r.push(neighbor_at(x, y, z, n - 1))
        } else {
            r
        }
    }
}

/// The tiles of `s` within `range` of `center`, in order.
pub open spec fn tiles_within(s: Seq<Tile>, center: Position, range: u32) -> Seq<Tile>
    decreases s.len(),
{
    if s.len() == 0 {
        Seq::empty()
    } else {
        let r = tiles_within(s.drop_last(), center, range);
        if cube_distance(center, tile_position(s.last())) <= range {
            r.push(s.last())
        } else {
            r
        }
    }
}

/// The tiles of `s` at `level`, in order.
pub open spec fn tiles_at_level(s: Seq<Tile>, level: u32) -> Seq<Tile>
    decreases s.len(),
{
    if s.len() == 0 {
        Seq::empty()
    } else {
        let r = tiles_at_level(s.drop_last(), level);
        if s.last().level == level {
            r.push(s.last())
        } else {
            r
        }
    }
}

pub proof fn lemma_has_tile_push(s: Seq<Tile>, t: Tile, x: u32, y: u32, z: u32)
    ensures
        has_tile(s.push(t), x, y, z) <==> (has_tile(s, x, y, z) || at_coords(x, y, z)(t)),
{
    let s2 = s.push(t);
    if has_tile(s, x, y, z) {
        let i = choose|i: int| 0 <= i < s.len() && at_coords(x, y, z)(#[trigger] s[i]);
        assert(s2[i] == s[i]);
    }
    if at_coords(x, y, z)(t) {
        assert(s2[s.len() as int] == t);
    }
    if has_tile(s2, x, y, z) {
        let i = choose|i: int| 0 <= i < s2.len() && at_coords(x, y, z)(#[trigger] s2[i]);
        if i < s.len() {
            assert(s2[i] == s[i]);
        }
    }
}

impl Mountain {
    /// Every tile stands at its own level `x + y + z`, below `levels`, and the
    /// tiles are strictly ordered by level, then `x`, then `y`.
    pub open spec fn wf(&self) -> bool {
        &&& forall|i: int|
            0 <= i < self.tiles@.len() ==> {
                let t = #[trigger] self.tiles@[i];
                t.level == t.x + t.y + t.z && t.level < self.levels
            }
        &&& forall|i: int, j: int|
            0 <= i < j < self.tiles@.len() ==> tile_before(
                #[trigger] self.tiles@[i],
                #[trigger] self.tiles@[j],
            )
    }

    /// A board of `levels` levels: one empty tile at each `(x, y, z)` with
    /// `x + y + z < levels`, and no other.
    pub fn new(levels: u32) -> (r: Mountain)
        requires
            1 <= levels <= 50,
        ensures
            r.levels == levels,
            r.wf(),
            forall|x: u32, y: u32, z: u32| #[trigger]
                has_tile(r.tiles@, x, y, z) <==> x + y + z < levels,
            forall|i: int| 0 <= i < r.tiles@.len() ==> (#[trigger] r.tiles@[i]).content is Empty,
    {
        let mut tiles: Vec<Tile> = Vec::new();
        let mut level: u32 = 0;
        while level < levels
            invariant
                level <= levels <= 50,
                forall|i: int|
                    0 <= i < tiles@.len() ==> {
                        let t = #[trigger] tiles@[i];
                        t.level == t.x + t.y + t.z && t.level < level && t.content is Empty
                    },
                forall|i: int, j: int|
                    0 <= i < j < tiles@.len() ==> tile_before(
                        #[trigger] tiles@[i],
                        #[trigger] tiles@[j],
                    ),
                forall|x: u32, y: u32, z: u32| #[trigger]
                    has_tile(tiles@, x, y, z) <==> x + y + z < level,
            decreases levels - level,
        {
            let mut x: u32 = 0;
            while x <= level
                invariant
                    level < levels <= 50,
                    x <= level + 1,
                    forall|i: int|
                        0 <= i < tiles@.len() ==> {
                            let t = #[trigger] tiles@[i];
                            &&& t.level == t.x + t.y + t.z
                            &&& t.content is Empty
                            &&& (t.level < level || (t.level == level && t.x < x))
                        },
                    forall|i: int, j: int|
                        0 <= i < j < tiles@.len() ==> tile_before(
                            #[trigger] tiles@[i],
                            #[trigger] tiles@[j],
                        ),
                    forall|xx: u32, yy: u32, zz: u32| #[trigger]
                        has_tile(tiles@, xx, yy, zz) <==> (xx + yy + zz < level || (xx + yy
                            + zz == level && xx < x)),
                decreases level + 1 - x,
            {
                let mut y: u32 = 0;
                while y <= level
                    invariant
                        level < levels <= 50,
                        x <= level,
                        y <= level + 1,
                        forall|i: int|
                            0 <= i < tiles@.len() ==> {
                                let t = #[trigger] tiles@[i];
                                &&& t.level == t.x + t.y + t.z
                                &&& t.content is Empty
                                &&& (t.level < level || (t.level == level && (t.x < x || (t.x
                                    == x && t.y < y))))
                            },
                        forall|i: int, j: int|
                            0 <= i < j < tiles@.len() ==> tile_before(
                                #[trigger] tiles@[i],
                                #[trigger] tiles@[j],
                            ),
                        forall|xx: u32, yy: u32, zz: u32| #[trigger]
                            has_tile(tiles@, xx, yy, zz) <==> (xx + yy + zz < level || (xx + yy
                                + zz == level && (xx < x || (xx == x && yy < y)))),
                    decreases level + 1 - y,
                {
                    if x + y <= level {
                        let z: u32 = level - x - y;
                        let tile = Tile { x, y, z, level, content: TileContent::Empty };
                        let ghost old_tiles = tiles@;
                        tiles.push(tile);
                        proof {
                            assert forall|xx: u32, yy: u32, zz: u32| #[trigger]
                                has_tile(tiles@, xx, yy, zz) <==> (xx + yy + zz < level || (xx
                                    + yy + zz == level && (xx < x || (xx == x && yy < y + 1)))) by {
                                lemma_has_tile_push(old_tiles, tile, xx, yy, zz);
                                assert(has_tile(old_tiles, xx, yy, zz) <==> (xx + yy + zz < level
                                    || (xx + yy + zz == level && (xx < x || (xx == x && yy
                                    < y)))));
                            }
                            assert forall|i: int, j: int|
                                0 <= i < j < tiles@.len() implies tile_before(
                                #[trigger] tiles@[i],
                                #[trigger] tiles@[j],
                            ) by {
                                if j < old_tiles.len() {
                                    assert(tiles@[i] == old_tiles[i]);
                                    assert(tiles@[j] == old_tiles[j]);
                                } else {
                                    assert(tiles@[i] == old_tiles[i]);
                                }
                            }
                        }
                    } else {
                        proof {
                            assert forall|xx: u32, yy: u32, zz: u32| #[trigger]
                                has_tile(tiles@, xx, yy, zz) <==> (xx + yy + zz < level || (xx
                                    + yy + zz == level && (xx < x || (xx == x && yy < y + 1)))) by {
                                assert(has_tile(tiles@, xx, yy, zz) <==> (xx + yy + zz < level
                                    || (xx + yy + zz == level && (xx < x || (xx == x && yy
                                    < y)))));
                            }
                        }
                    }
                    y += 1;
                }
                proof {
                    assert forall|xx: u32, yy: u32, zz: u32| #[trigger]
                        has_tile(tiles@, xx, yy, zz) <==> (xx + yy + zz < level || (xx + yy + zz
                            == level && xx < x + 1)) by {
                        assert(has_tile(tiles@, xx, yy, zz) <==> (xx + yy + zz < level || (xx
                            + yy + zz == level && (xx < x || (xx == x && yy < y)))));
                    }
                }
                x += 1;
            }
            proof {
                assert forall|xx: u32, yy: u32, zz: u32| #[trigger]
                    has_tile(tiles@, xx, yy, zz) <==> xx + yy + zz < level + 1 by {
                    assert(has_tile(tiles@, xx, yy, zz) <==> (xx + yy + zz < level || (xx + yy
                        + zz == level && xx < x)));
                }
            }
            level += 1;
        }
        Mountain { tiles, levels }
    }

    /// The index of the tile at `(x, y, z)`, or `-1`.
    pub open spec fn tile_index(&self, x: u32, y: u32, z: u32) -> int {
        first_index(self.tiles@, at_coords(x, y, z))
    }

    fn find_tile(&self, x: u32, y: u32, z: u32) -> (r: Option<usize>)
        ensures
            r is None <==> self.tile_index(x, y, z) < 0,
            r matches Some(i) ==> i == self.tile_index(x, y, z) && i < self.tiles@.len(),
            r is None <==> !has_tile(self.tiles@, x, y, z),
    {
        proof {
            lemma_first_index_meaning(self.tiles@, at_coords(x, y, z));
        }
        let mut i: usize = 0;
        while i < self.tiles.len()
            invariant
                i <= self.tiles.len(),
                forall|k: int| 0 <= k < i ==> !at_coords(x, y, z)(#[trigger] self.tiles@[k]),
            decreases self.tiles.len() - i,
        {
            let t = &self.tiles[i];
            if t.x == x && t.y == y && t.z == z {
                proof {
                    lemma_first_index_scan(self.tiles@, at_coords(x, y, z), i as int);
                }
                return Some(i);
            }
            i += 1;
        }
        proof {
            lemma_first_index_scan(self.tiles@, at_coords(x, y, z), i as int);
        }
        None
    }

    /// The tile at `(x, y, z)`, or `None` where the board has none.
    pub fn get_tile(&self, x: u32, y: u32, z: u32) -> (r: Option<&Tile>)
        ensures
            r is None <==> !has_tile(self.tiles@, x, y, z),
            r matches Some(t) ==> *t == self.tiles@[self.tile_index(x, y, z)],
    {
        match self.find_tile(x, y, z) {
            Some(i) => Some(&self.tiles[i]),
            None => None,
        }
    }

    /// The tile at `(x, y, z)` for change, or `None` where the board has none.
    pub fn get_tile_mut(&mut self, x: u32, y: u32, z: u32) -> (r: Option<&mut Tile>)
        ensures
            r is None <==> !has_tile(old(self).tiles@, x, y, z),
            r is None ==> *final(self) == *old(self),
            r matches Some(t) ==> {
                let i = old(self).tile_index(x, y, z);
                &&& *t == old(self).tiles@[i]
                &&& final(self).tiles@ == old(self).tiles@.update(i, *final(t))
                &&& final(self).levels == old(self).levels
            },
    {
        match self.find_tile(x, y, z) {
            Some(i) => Some(&mut self.tiles[i]),
            None => None,
        }
    }

    /// The positions one step away from `(x, y, z)`, in the order of the
    /// six directions: those with no coordinate below zero and a level
    /// (`x + y + z`) of at most `levels`.
    pub fn get_neighbors(&self, x: u32, y: u32, z: u32) -> (r: Vec<Position>)
        ensures
            r@ == neighbors_upto(self.levels, x, y, z, 6),
    {
        let directions: [(i64, i64, i64); 6] = [
            (1, 0, -1),
            (1, -1, 0),
            (0, -1, 1),
            (-1, 0, 1),
            (-1, 1, 0),
            (0, 1, -1),
        ];
        let mut neighbors: Vec<Position> = Vec::new();
        let mut k: usize = 0;
        while k < 6
            invariant
                k <= 6,
                neighbors@ == neighbors_upto(self.levels, x, y, z, k as int),
                forall|j: int| 0 <= j < 6 ==> #[trigger] directions@[j] == (
                    direction(j).0 as i64,
                    direction(j).1 as i64,
                    direction(j).2 as i64,
                ),
            decreases 6 - k,
        {
            let (dx, dy, dz) = directions[k];
            let nx = x as i64 + dx;
            let ny = y as i64 + dy;
            let nz = z as i64 + dz;
            if nx >= 0 && ny >= 0 && nz >= 0 && nx + ny + nz <= self.levels as i64 {
                neighbors.push(
                    Position {
                        x: nx as u32,
                        y: ny as u32,
                        z: nz as u32,
                        level: (nx + ny + nz) as u32,
                    },
                );
            }
            k += 1;
        }
        neighbors
    }

    /// The hex-grid distance of two positions.
    pub fn calculate_distance(&self, pos1: Position, pos2: Position) -> (r: u32)
        ensures
            r == cube_distance(pos1, pos2),
    {
        let dx = if pos1.x >= pos2.x {
            pos1.x - pos2.x
        } else {
            pos2.x - pos1.x
        };
        let dy = if pos1.y >= pos2.y {
            pos1.y - pos2.y
        } else {
            pos2.y - pos1.y
        };
        let dz = if pos1.z >= pos2.z {
            pos1.z - pos2.z
        } else {
            pos2.z - pos1.z
        };
        if dx >= dy && dx >= dz {
            dx
        } else if dy >= dz {
            dy
        } else {
            dz
        }
    }

    /// Whether a move from `current` to `new` is allowed: both have a tile,
    /// they are one step apart, and `new.level` is at most `levels`.
    pub open spec fn valid_move_spec(&self, current: Position, new: Position) -> bool {
        &&& has_tile(self.tiles@, new.x, new.y, new.z)
        &&& has_tile(self.tiles@, current.x, current.y, current.z)
        &&& cube_distance(current, new) == 1
        &&& new.level <= self.levels
    }

    /// Whether a move from `current` to `new` is allowed.
    pub fn is_valid_move(&self, current: Position, new: Position) -> (r: bool)
        ensures
            r == self.valid_move_spec(current, new),
    {
        if self.find_tile(new.x, new.y, new.z).is_none() || self.find_tile(
            current.x,
            current.y,
            current.z,
        ).is_none() {
            return false;
        }
        let distance = self.calculate_distance(current, new);
        distance == 1 && new.level <= self.levels
    }

    /// The tiles within `range` steps of `center`, in board order.
    pub fn get_tiles_in_range(&self, center: Position, range: u32) -> (r: Vec<&Tile>)
        ensures
            r@.len() == tiles_within(self.tiles@, center, range).len(),
            forall|i: int| 0 <= i < r@.len() ==> *r@[i] == tiles_within(self.tiles@, center, range)[i],
    {
        let mut out: Vec<&Tile> = Vec::new();
        let mut i: usize = 0;
        while i < self.tiles.len()
            invariant
                i <= self.tiles.len(),
                out@.len() == tiles_within(self.tiles@.take(i as int), center, range).len(),
                forall|k: int| 0 <= k < out@.len() ==> *out@[k] == tiles_within(self.tiles@.take(i as int), center, range)[k],
            decreases self.tiles.len() - i,
        {
            assert(self.tiles@.take(i + 1).drop_last() =~= self.tiles@.take(i as int));
            let t = &self.tiles[i];
            let pos = Position { x: t.x, y: t.y, z: t.z, level: t.level };
            if self.calculate_distance(center, pos) <= range {
                out.push(t);
            }
            i += 1;
        }
        assert(self.tiles@.take(self.tiles.len() as int) =~= self.tiles@);
        out
    }

    /// The tiles at `level`, in board order.
    pub fn get_level(&self, level: u32) -> (r: Vec<&Tile>)
        ensures
            r@.len() == tiles_at_level(self.tiles@, level).len(),
            forall|i: int| 0 <= i < r@.len() ==> *r@[i] == tiles_at_level(self.tiles@, level)[i],
    {
        let mut out: Vec<&Tile> = Vec::new();
        let mut i: usize = 0;
        while i < self.tiles.len()
            invariant
                i <= self.tiles.len(),
                out@.len() == tiles_at_level(self.tiles@.take(i as int), level).len(),
                forall|k: int| 0 <= k < out@.len() ==> *out@[k] == tiles_at_level(self.tiles@.take(i as int), level)[k],
            decreases self.tiles.len() - i,
        {
            assert(self.tiles@.take(i + 1).drop_last() =~= self.tiles@.take(i as int));
            let t = &self.tiles[i];
            if t.level == level {
                out.push(t);
            }
            i += 1;
        }
        assert(self.tiles@.take(self.tiles.len() as int) =~= self.tiles@);
        out
    }
}

/// Distance does not depend on the order of its two positions.
pub proof fn lemma_distance_symmetric(a: Position, b: Position)
    ensures
        cube_distance(a, b) == cube_distance(b, a),
{
}

/// For positions whose level is `x + y + z`, the distance is zero exactly
/// when the positions are equal.
pub proof fn lemma_distance_zero_iff_equal(a: Position, b: Position)
    requires
        a.level == a.x + a.y + a.z,
        b.level == b.x + b.y + b.z,
    ensures
        cube_distance(a, b) == 0 <==> a == b,
{
}

/// Every neighbor of `(x, y, z)` is at distance one from it.
pub proof fn lemma_neighbors_at_distance_one(levels: u32, pos: Position, n: int)
    requires
        n <= 6,
    ensures
        forall|j: int|
            0 <= j < neighbors_upto(levels, pos.x, pos.y, pos.z, n).len() ==> cube_distance(
                pos,
                #[trigger] neighbors_upto(levels, pos.x, pos.y, pos.z, n)[j],
            ) == 1,
    decreases n,
{
    if n > 0 {
        lemma_neighbors_at_distance_one(levels, pos, n - 1);
        let r = neighbors_upto(levels, pos.x, pos.y, pos.z, n - 1);
        if neighbor_ok(levels, pos.x, pos.y, pos.z, n - 1) {
            let q = neighbor_at(pos.x, pos.y, pos.z, n - 1);
            assert(cube_distance(pos, q) == 1);
            assert forall|j: int| 0 <= j < r.len() + 1 implies cube_distance(
                pos,
                #[trigger] r.push(q)[j],
            ) == 1 by {
                if j < r.len() {
                    assert(r.push(q)[j] == r[j]);
                }
            }
        }
    }
}

/// On a well-formed board, a move between positions whose level is
/// `x + y + z` is valid exactly when both have a tile and they are one step
/// apart.
pub proof fn lemma_valid_move_iff(m: Mountain, current: Position, new: Position)
    requires
        m.wf(),
        new.level == new.x + new.y + new.z,
    ensures
        m.valid_move_spec(current, new) <==> (cube_distance(current, new) == 1 && has_tile(
            m.tiles@,
            new.x,
            new.y,
            new.z,
        ) && has_tile(m.tiles@, current.x, current.y, current.z)),
{
    if has_tile(m.tiles@, new.x, new.y, new.z) {
        let i = choose|i: int| 0 <= i < m.tiles@.len() && at_coords(new.x, new.y, new.z)(#[trigger] m.tiles@[i]);
        assert(m.tiles@[i].level < m.levels);
    }
}

/// A larger radius reaches every tile a smaller one reaches, and so at
/// least as many.
pub proof fn lemma_tiles_within_grows(s: Seq<Tile>, center: Position, r1: u32, r2: u32)
    requires
        r1 <= r2,
    ensures
        tiles_within(s, center, r1).len() <= tiles_within(s, center, r2).len(),
        tiles_within(s, center, r1).to_set().subset_of(tiles_within(s, center, r2).to_set()),
    decreases s.len(),
{
    if s.len() > 0 {
        lemma_tiles_within_grows(s.drop_last(), center, r1, r2);
        let a = tiles_within(s.drop_last(), center, r1);
        let b = tiles_within(s.drop_last(), center, r2);
        assert forall|t: Tile| tiles_within(s, center, r1).to_set().contains(t) implies tiles_within(s, center, r2).to_set().contains(t) by {
            let a2 = tiles_within(s, center, r1);
            let b2 = tiles_within(s, center, r2);
            let k = choose|k: int| 0 <= k < a2.len() && a2[k] == t;
            if k < a.len() {
                assert(a2[k] == a[k]);
                assert(a.to_set().contains(t));
                let j = choose|j: int| 0 <= j < b.len() && b[j] == t;
                assert(b2[j] == b[j]);
            } else {
                assert(b2[b2.len() - 1] == s.last());
            }
        }
    }
}

} // verus!
