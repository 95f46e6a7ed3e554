//! The puzzle kernel: the game state, the breadth-first push resolver
//! with its all-or-nothing commit, the void cleanup pass, the trail-shadow
//! recomputation and the scanline loop check.

use vstd::prelude::*;

use std::collections::VecDeque;

use crate::table::Table;
use crate::table::lemma_row_major_index_bound;

verus! {

/// What a grid cell is made of. `Void` can turn into `Floor` when a box
/// falls in; every other tile is fixed once a map is loaded.
#[derive(Clone, Copy, Debug, PartialEq, Eq, Hash, Structural)]
pub enum Tile {
    Void,
    Wall,
    Floor,
    Exit,
}

/// The kind of a movable thing. Things never change kind.
#[derive(Clone, Copy, Debug, PartialEq, Eq, Hash, Structural)]
pub enum ThingKind {
    Player,
    Box,
    Chest,
}

/// Metadata carried by each thing.
#[derive(Clone, Copy, Debug, PartialEq, Eq, Hash, Structural)]
pub struct ThingEntry {
    pub kind: ThingKind,
}

/// A single-step move direction on the grid.
#[derive(Clone, Copy, Debug, PartialEq, Eq, Hash, Structural)]
pub enum Direction {
    Left,
    Up,
    Right,
    Down,
}

/// Why a `move_player` call was rejected. On any error the kernel state is
/// left exactly as it was.
#[derive(Clone, Copy, Debug, PartialEq, Eq, Structural)]
pub enum SokobanError {
    NoPlayer,
    CollisionLoop,
    MovedOutOfRange { x: usize, y: usize, dir: Direction },
    BumpedIntoWall { x: usize, y: usize, dir: Direction },
}

impl Direction {
    /// Horizontal displacement of one step.
    pub open spec fn dx(self) -> int {
        match self {
            Direction::Left => -1,
            Direction::Right => 1,
            _ => 0,
        }
    }

    /// Vertical displacement of one step.
    pub open spec fn dy(self) -> int {
        match self {
            Direction::Up => -1,
            Direction::Down => 1,
            _ => 0,
        }
    }

    /// One step from `(x, y)`, in wrap-around coordinates. A step off the
    /// left or top edge wraps to `usize::MAX`, which every bounds check
    /// then rejects.
    pub open spec fn apply_spec(self, x: usize, y: usize) -> (usize, usize) {
        match self {
            Direction::Left => ((if x == 0 { usize::MAX } else { (x - 1) as usize }), y),
            Direction::Up => (x, (if y == 0 { usize::MAX } else { (y - 1) as usize })),
            Direction::Right => ((if x == usize::MAX { 0usize } else { (x + 1) as usize }), y),
            Direction::Down => (x, (if y == usize::MAX { 0usize } else { (y + 1) as usize })),
        }
    }

    pub fn apply(self, x: usize, y: usize) -> (r: (usize, usize))
        ensures
            r == self.apply_spec(x, y),
    {
        match self {
            Direction::Left => (x.wrapping_sub(1), y),
            Direction::Up => (x, y.wrapping_sub(1)),
            Direction::Right => (x.wrapping_add(1), y),
            Direction::Down => (x, y.wrapping_add(1)),
        }
    }
}


/// The map that an association list denotes; a later entry for the same key
/// wins, though the kernel keeps keys unique.
pub open spec fn assoc_map(s: Seq<(usize, ThingEntry)>) -> Map<usize, ThingEntry>
    decreases s.len(),
{
    if s.len() == 0 {
        Map::empty()
    } else {
        assoc_map(s.drop_last()).insert(s.last().0, s.last().1)
    }
}

/// The authoritative game state: the tile grid, the sparse occupancy of
/// things with their metadata, the player's move history and the derived
/// shadow bitmap.
#[derive(Debug)]
pub struct State {
    shadow: Table<bool>,
    tiles: Table<Tile>,
    things: Table<Option<usize>>,
    thing_table: Vec<(usize, ThingEntry)>,
    player_hist: Vec<(usize, usize, usize, usize)>,
}

impl State {
    pub closed spec fn width(self) -> int {
        self.tiles.spec_width()
    }

    pub closed spec fn height(self) -> int {
        self.tiles.spec_height()
    }

    pub open spec fn in_bounds(self, x: int, y: int) -> bool {
        0 <= x < self.width() && 0 <= y < self.height()
    }

    /// Occupancy: which thing sits on which cell.
    pub closed spec fn occ(self) -> Map<(int, int), usize> {
        Map::new(
            |p: (int, int)| self.things.in_bounds(p.0, p.1) && self.things.at(p.0, p.1) is Some,
            |p: (int, int)| self.things.at(p.0, p.1)->0,
        )
    }

    /// Metadata: the kind recorded for each thing identifier.
    pub closed spec fn meta(self) -> Map<usize, ThingEntry> {
        assoc_map(self.thing_table@)
    }

    pub open spec fn kind_of(self, id: usize) -> ThingKind {
        self.meta()[id].kind
    }

    pub closed spec fn tile_spec(self, x: int, y: int) -> Tile {
        self.tiles.at(x, y)
    }

    pub closed spec fn shadow_spec(self, x: int, y: int) -> bool {
        self.shadow.at(x, y)
    }

    pub closed spec fn hist(self) -> Seq<(usize, usize, usize, usize)> {
        self.player_hist@
    }

    pub open spec fn occupied_player(self, p: (int, int)) -> bool {
        self.occ().dom().contains(p) && self.kind_of(self.occ()[p]) == ThingKind::Player
    }

    pub open spec fn occupied_chest(self, p: (int, int)) -> bool {
        self.occ().dom().contains(p) && self.kind_of(self.occ()[p]) == ThingKind::Chest
    }

    pub open spec fn has_player(self) -> bool {
        exists|p: (int, int)| #[trigger] self.occupied_player(p)
    }

    pub open spec fn chest_present(self) -> bool {
        exists|p: (int, int)| #[trigger] self.occupied_chest(p)
    }

    /// The position of the unique player thing (meaningful when `has_player`).
    pub open spec fn player_pos(self) -> (int, int) {
        choose|p: (int, int)| #[trigger] self.occupied_player(p)
    }

    pub open spec fn player_id(self) -> usize {
        self.occ()[self.player_pos()]
    }

    /// No two metadata entries carry the same identifier.
    pub closed spec fn meta_keys_unique(self) -> bool {
        forall|k1: int, k2: int| 0 <= k1 < k2 < self.thing_table@.len()
            ==> (#[trigger] self.thing_table@[k1]).0 != (#[trigger] self.thing_table@[k2]).0
    }

    /// Invariants that every kernel operation preserves: the tables agree on
    /// their dimensions, every positioned thing has metadata, no identifier
    /// sits on two cells, there is at most one player and at most one chest,
    /// and every recorded move target lies on the grid.
    /// The tables hold their storage invariants and agree on the grid size.
    pub closed spec fn tables_wf(self) -> bool {
        &&& self.tiles.wf()
        &&& self.shadow.wf()
        &&& self.things.wf()
        &&& self.shadow.spec_width() == self.width() && self.shadow.spec_height() == self.height()
        &&& self.things.spec_width() == self.width() && self.things.spec_height() == self.height()
    }

    pub open spec fn wf(self) -> bool {
        &&& self.tables_wf()
        &&& self.meta_keys_unique()
        &&& forall|p: (int, int)| #[trigger] self.occ().dom().contains(p)
            ==> self.meta().dom().contains(self.occ()[p])
        &&& forall|p: (int, int), q: (int, int)|
            #[trigger] self.occ().dom().contains(p) && #[trigger] self.occ().dom().contains(q)
                && self.occ()[p] == self.occ()[q] ==> p == q
        &&& forall|p: (int, int), q: (int, int)|
            #[trigger] self.occupied_player(p) && #[trigger] self.occupied_player(q) ==> p == q
        &&& forall|p: (int, int), q: (int, int)|
            #[trigger] self.occupied_chest(p) && #[trigger] self.occupied_chest(q) ==> p == q
        &&& forall|i: int| 0 <= i < self.hist().len()
            ==> self.in_bounds(#[trigger] self.hist()[i].2 as int, self.hist()[i].3 as int)
    }

    pub fn field_width(&self) -> (r: usize)
        ensures
            r == self.width(),
    {
        self.tiles.width()
    }

    pub fn field_height(&self) -> (r: usize)
        ensures
            r == self.height(),
    {
        self.tiles.height()
    }

    pub fn tile_at(&self, x: usize, y: usize) -> (r: Option<Tile>)
        requires
            self.wf(),
        ensures
            match r {
                Some(t) => self.in_bounds(x as int, y as int) && t == self.tile_spec(x as int, y as int),
                None => !self.in_bounds(x as int, y as int),
            },
    {
        match self.tiles.get(x, y) {
            Some(t) => Some(*t),
            None => None,
        }
    }

    /// Every positioned thing, as `(x, y, identifier)` triples, in
    /// row-major order.
    pub fn all_things(&self) -> (r: Vec<(usize, usize, usize)>)
        requires
            self.wf(),
        ensures
            forall|k: int| 0 <= k < r@.len() ==> {
                let (x, y, id) = #[trigger] r@[k];
                self.occ().dom().contains((x as int, y as int))
                    && self.occ()[(x as int, y as int)] == id
            },
            forall|p: (int, int)| #[trigger] self.occ().dom().contains(p)
                ==> exists|k: int| 0 <= k < r@.len()
                    && r@[k] == (p.0 as usize, p.1 as usize, self.occ()[p]),
            forall|k1: int, k2: int| 0 <= k1 < k2 < r@.len()
                ==> ((#[trigger] r@[k1]).1 < (#[trigger] r@[k2]).1
                    || (r@[k1].1 == r@[k2].1 && r@[k1].0 < r@[k2].0)),
    {
        let w = self.things.width();
        let h = self.things.height();
        let mut r: Vec<(usize, usize, usize)> = Vec::new();
        let mut y: usize = 0;
        while y < h
            invariant
                self.wf(),
                w == self.width(),
                h == self.height(),
                y <= h,
                forall|k: int| 0 <= k < r@.len() ==> {
                    let (px, py, id) = #[trigger] r@[k];
                    self.occ().dom().contains((px as int, py as int))
                        && self.occ()[(px as int, py as int)] == id
                        && py < y
                },
                forall|p: (int, int)| #[trigger] self.occ().dom().contains(p) && p.1 < y
                    ==> exists|k: int| 0 <= k < r@.len()
                        && r@[k] == (p.0 as usize, p.1 as usize, self.occ()[p]),
                forall|k1: int, k2: int| 0 <= k1 < k2 < r@.len()
                    ==> ((#[trigger] r@[k1]).1 < (#[trigger] r@[k2]).1
                        || (r@[k1].1 == r@[k2].1 && r@[k1].0 < r@[k2].0)),
            decreases h - y,
        {
            let mut x: usize = 0;
            while x < w
                invariant
                    self.wf(),
                    w == self.width(),
                    h == self.height(),
                    y < h,
                    x <= w,
                    forall|k: int| 0 <= k < r@.len() ==> {
                        let (px, py, id) = #[trigger] r@[k];
                        self.occ().dom().contains((px as int, py as int))
                            && self.occ()[(px as int, py as int)] == id
                            && (py < y || (py == y && px < x))
                    },
                    forall|p: (int, int)| #[trigger] self.occ().dom().contains(p)
                        && (p.1 < y || (p.1 == y && p.0 < x))
                        ==> exists|k: int| 0 <= k < r@.len()
                            && r@[k] == (p.0 as usize, p.1 as usize, self.occ()[p]),
                    forall|k1: int, k2: int| 0 <= k1 < k2 < r@.len()
                        ==> ((#[trigger] r@[k1]).1 < (#[trigger] r@[k2]).1
                            || (r@[k1].1 == r@[k2].1 && r@[k1].0 < r@[k2].0)),
                decreases w - x,
            {
                let cur: Option<usize> = match self.things.get(x, y) {
                    Some(cell) => *cell,
                    None => None,
                };
                let ghost r_prev = r@;
                match cur {
                    Some(id) => {
                        r.push((x, y, id));
                    },
                    None => {},
                }
                proof {
                    assert forall|p: (int, int)| #[trigger] self.occ().dom().contains(p)
                        && (p.1 < y || (p.1 == y && p.0 < x + 1))
                        implies exists|k: int| 0 <= k < r@.len()
                            && r@[k] == (p.0 as usize, p.1 as usize, self.occ()[p]) by {
                        if p.1 == y as int && p.0 == x as int {
                            assert(r@[r@.len() - 1] == (p.0 as usize, p.1 as usize, self.occ()[p]));
                        } else {
                            let k = choose|k: int| 0 <= k < r_prev.len()
                                && r_prev[k] == (p.0 as usize, p.1 as usize, self.occ()[p]);
                            assert(r@[k] == (p.0 as usize, p.1 as usize, self.occ()[p]));
                        }
                    }
                }
                x = x + 1;
            }
            y = y + 1;
        }
        r
    }

    /// Every positioned thing together with its metadata, in row-major
    /// order.
    pub fn all_things_with_metadata(&self) -> (r: Vec<(usize, usize, usize, ThingEntry)>)
        requires
            self.wf(),
        ensures
            forall|k: int| 0 <= k < r@.len() ==> {
                let (x, y, id, e) = #[trigger] r@[k];
                self.occ().dom().contains((x as int, y as int))
                    && self.occ()[(x as int, y as int)] == id
                    && self.meta().dom().contains(id)
                    && e == self.meta()[id]
            },
            forall|p: (int, int)| #[trigger] self.occ().dom().contains(p)
                ==> exists|k: int| 0 <= k < r@.len()
                    && r@[k] == (p.0 as usize, p.1 as usize, self.occ()[p], self.meta()[self.occ()[p]]),
            forall|k1: int, k2: int| 0 <= k1 < k2 < r@.len()
                ==> ((#[trigger] r@[k1]).1 < (#[trigger] r@[k2]).1
                    || (r@[k1].1 == r@[k2].1 && r@[k1].0 < r@[k2].0)),
    {
        let plain = self.all_things();
        let mut r: Vec<(usize, usize, usize, ThingEntry)> = Vec::new();
        let mut i: usize = 0;
        while i < plain.len()
            invariant
                self.wf(),
                i <= plain@.len(),
                r@.len() == i,
                forall|k: int| 0 <= k < plain@.len() ==> {
                    let (x, y, id) = #[trigger] plain@[k];
                    self.occ().dom().contains((x as int, y as int))
                        && self.occ()[(x as int, y as int)] == id
                },
                forall|p: (int, int)| #[trigger] self.occ().dom().contains(p)
                    ==> exists|k: int| 0 <= k < plain@.len()
                        && plain@[k] == (p.0 as usize, p.1 as usize, self.occ()[p]),
                forall|k1: int, k2: int| 0 <= k1 < k2 < plain@.len()
                    ==> ((#[trigger] plain@[k1]).1 < (#[trigger] plain@[k2]).1
                        || (plain@[k1].1 == plain@[k2].1 && plain@[k1].0 < plain@[k2].0)),
                forall|k: int| 0 <= k < i ==> #[trigger] r@[k]
                    == (plain@[k].0, plain@[k].1, plain@[k].2, self.meta()[plain@[k].2]),
            decreases plain@.len() - i,
        {
            let (x, y, id) = plain[i];
            let e = self.meta_lookup(id);
            r.push((x, y, id, e));
            i = i + 1;
        }
        proof {
            assert forall|p: (int, int)| #[trigger] self.occ().dom().contains(p)
                implies exists|k: int| 0 <= k < r@.len()
                    && r@[k] == (p.0 as usize, p.1 as usize, self.occ()[p], self.meta()[self.occ()[p]]) by {
                let k = choose|k: int| 0 <= k < plain@.len()
                    && plain@[k] == (p.0 as usize, p.1 as usize, self.occ()[p]);
                assert(r@[k] == (p.0 as usize, p.1 as usize, self.occ()[p], self.meta()[self.occ()[p]]));
            }
        }
        r
    }

    /// Looks an identifier up in the metadata table.
    fn meta_lookup(&self, id: usize) -> (r: ThingEntry)
        requires
            self.meta().dom().contains(id),
            self.meta_keys_unique(),
        ensures
            r == self.meta()[id],
    {
        let mut i: usize = 0;
        while i < self.thing_table.len()
            invariant
                self.meta().dom().contains(id),
                self.meta_keys_unique(),
                i <= self.thing_table@.len(),
                assoc_map(self.thing_table@).dom().contains(id),
                forall|k: int| 0 <= k < i ==> (#[trigger] self.thing_table@[k]).0 != id,
            decreases self.thing_table@.len() - i,
        {
            let (k, e) = self.thing_table[i];
            if k == id {
                proof {
                    assert forall|j: int| 0 <= j < self.thing_table@.len() && j != i as int
                        implies (#[trigger] self.thing_table@[j]).0 != id by {
                        if j > i as int {
                            assert((self.thing_table@[i as int]).0 != (self.thing_table@[j]).0);
                        }
                    }
                    lemma_assoc_map_first_match(self.thing_table@, id, i as int);
                }
                return e;
            }
            i = i + 1;
        }
        proof {
            lemma_assoc_map_absent(self.thing_table@, id);
        }
        unreached()
    }

    /// The player, if one is positioned on the grid.
    pub fn player_thing(&self) -> (r: Option<(usize, usize, usize, ThingEntry)>)
        requires
            self.wf(),
        ensures
            match r {
                Some((x, y, id, e)) => {
                    &&& self.has_player()
                    &&& (x as int, y as int) == self.player_pos()
                    &&& self.occ().dom().contains((x as int, y as int))
                    &&& self.occ()[(x as int, y as int)] == id
                    &&& e == self.meta()[id]
                    &&& e.kind == ThingKind::Player
                },
                None => !self.has_player(),
            },
    {
        let all = self.all_things_with_metadata();
        let mut i: usize = 0;
        while i < all.len()
            invariant
                self.wf(),
                i <= all@.len(),
                forall|k: int| 0 <= k < all@.len() ==> {
                    let (x, y, id, e) = #[trigger] all@[k];
                    self.occ().dom().contains((x as int, y as int))
                        && self.occ()[(x as int, y as int)] == id
                        && self.meta().dom().contains(id)
                        && e == self.meta()[id]
                },
                forall|p: (int, int)| #[trigger] self.occ().dom().contains(p)
                    ==> exists|k: int| 0 <= k < all@.len()
                        && all@[k] == (p.0 as usize, p.1 as usize, self.occ()[p], self.meta()[self.occ()[p]]),
                forall|k: int| 0 <= k < i ==> (#[trigger] all@[k]).3.kind != ThingKind::Player,
            decreases all@.len() - i,
        {
            let (x, y, id, e) = all[i];
            if e.kind == ThingKind::Player {
                proof {
                    assert(self.occupied_player((x as int, y as int)));
                }
                return Some((x, y, id, e));
            }
            i = i + 1;
        }
        proof {
            if self.has_player() {
                let p = self.player_pos();
                assert(self.occupied_player(p));
                let k = choose|k: int| 0 <= k < all@.len()
                    && all@[k] == (p.0 as usize, p.1 as usize, self.occ()[p], self.meta()[self.occ()[p]]);
                assert(all@[k].3.kind == ThingKind::Player);
            }
        }
        None
    }

    /// Whether a chest is still positioned on the grid.
    pub fn treasure_exists(&self) -> (r: bool)
        requires
            self.wf(),
        ensures
            r == self.chest_present(),
    {
        let all = self.all_things_with_metadata();
        let mut i: usize = 0;
        while i < all.len()
            invariant
                self.wf(),
                i <= all@.len(),
                forall|k: int| 0 <= k < all@.len() ==> {
                    let (x, y, id, e) = #[trigger] all@[k];
                    self.occ().dom().contains((x as int, y as int))
                        && self.occ()[(x as int, y as int)] == id
                        && self.meta().dom().contains(id)
                        && e == self.meta()[id]
                },
                forall|p: (int, int)| #[trigger] self.occ().dom().contains(p)
                    ==> exists|k: int| 0 <= k < all@.len()
                        && all@[k] == (p.0 as usize, p.1 as usize, self.occ()[p], self.meta()[self.occ()[p]]),
                forall|k: int| 0 <= k < i ==> (#[trigger] all@[k]).3.kind != ThingKind::Chest,
            decreases all@.len() - i,
        {
            let (x, y, _id, e) = all[i];
            if e.kind == ThingKind::Chest {
                proof {
                    assert(self.occupied_chest((x as int, y as int)));
                }
                return true;
            }
            i = i + 1;
        }
        proof {
            if self.chest_present() {
                let p = choose|p: (int, int)| #[trigger] self.occupied_chest(p);
                let k = choose|k: int| 0 <= k < all@.len()
                    && all@[k] == (p.0 as usize, p.1 as usize, self.occ()[p], self.meta()[self.occ()[p]]);
                assert(all@[k].3.kind == ThingKind::Chest);
            }
        }
        false
    }
}

/// In an association list whose keys up to `i` miss `id` and whose entry at
/// `i` carries `id`, the denoted map agrees with the entry at `i`.
proof fn lemma_assoc_map_first_match(s: Seq<(usize, ThingEntry)>, id: usize, i: int)
    requires
        0 <= i < s.len(),
        s[i].0 == id,
        forall|k: int| 0 <= k < s.len() && k != i ==> (#[trigger] s[k]).0 != id,
    ensures
        assoc_map(s).dom().contains(id),
        assoc_map(s)[id] == s[i].1,
    decreases s.len(),
{
    if i == s.len() - 1 {
    } else {
        lemma_assoc_map_first_match(s.drop_last(), id, i);
    }
}

/// A key that no entry carries is not in the denoted map.
proof fn lemma_assoc_map_absent(s: Seq<(usize, ThingEntry)>, id: usize)
    requires
        forall|k: int| 0 <= k < s.len() ==> (#[trigger] s[k]).0 != id,
    ensures
        !assoc_map(s).dom().contains(id),
    decreases s.len(),
{
    if s.len() > 0 {
        lemma_assoc_map_absent(s.drop_last(), id);
    }
}


/// Every key of the denoted map is carried by some entry.
proof fn lemma_assoc_map_dom_key(s: Seq<(usize, ThingEntry)>, id: usize)
    requires
        assoc_map(s).dom().contains(id),
    ensures
        exists|k: int| 0 <= k < s.len() && (#[trigger] s[k]).0 == id,
    decreases s.len(),
{
    if s.len() > 0 {
        if s.last().0 == id {
            assert(s[s.len() - 1].0 == id);
        } else {
            lemma_assoc_map_dom_key(s.drop_last(), id);
            let k = choose|k: int| 0 <= k < s.drop_last().len() && (#[trigger] s.drop_last()[k]).0 == id;
            assert(s[k].0 == id);
        }
    }
}

/// The kernel facade: owns the state and exposes `load_map`, `move_player`
/// and read-only accessors.
///
/// Invariants: at most one player, at most one chest.
#[derive(Debug)]
pub struct SokobanKernel {
    state: State,
}

impl SokobanKernel {
    pub closed spec fn st(self) -> State {
        self.state
    }

    pub open spec fn wf(self) -> bool {
        self.st().wf()
    }

    /// What `load_map` asks of its arguments: one tile per cell, things on
    /// distinct in-range cells with distinct identifiers, and at most one
    /// player and one chest among them. Violating this is a programmer
    /// error at load time.
    pub open spec fn map_args_ok(
        width: usize,
        height: usize,
        tiles: Seq<Tile>,
        things: Seq<(usize, usize, usize, ThingEntry)>,
    ) -> bool {
        &&& width * height <= usize::MAX
        &&& tiles.len() == width * height
        &&& forall|k: int| 0 <= k < things.len()
            ==> (#[trigger] things[k]).0 < width && things[k].1 < height
        &&& forall|k1: int, k2: int| 0 <= k1 < k2 < things.len()
            ==> ((#[trigger] things[k1]).0, things[k1].1) != ((#[trigger] things[k2]).0, things[k2].1)
        &&& forall|k1: int, k2: int| 0 <= k1 < k2 < things.len()
            ==> (#[trigger] things[k1]).2 != (#[trigger] things[k2]).2
        &&& forall|k1: int, k2: int| 0 <= k1 < k2 < things.len()
            ==> !((#[trigger] things[k1]).3.kind == ThingKind::Player
                && (#[trigger] things[k2]).3.kind == ThingKind::Player)
        &&& forall|k1: int, k2: int| 0 <= k1 < k2 < things.len()
            ==> !((#[trigger] things[k1]).3.kind == ThingKind::Chest
                && (#[trigger] things[k2]).3.kind == ThingKind::Chest)
    }

    /// What a freshly loaded state looks like.
    pub open spec fn loaded_state(
        st: State,
        width: usize,
        height: usize,
        tiles: Seq<Tile>,
        things: Seq<(usize, usize, usize, ThingEntry)>,
    ) -> bool {
        &&& st.width() == width && st.height() == height
        &&& forall|x: int, y: int| st.in_bounds(x, y)
            ==> #[trigger] st.tile_spec(x, y) == tiles[y * width + x]
        &&& forall|k: int| 0 <= k < things.len() ==> {
            let (tx, ty, id, _e) = #[trigger] things[k];
            st.occ().dom().contains((tx as int, ty as int))
                && st.occ()[(tx as int, ty as int)] == id
        }
        &&& forall|p: (int, int)| #[trigger] st.occ().dom().contains(p)
            ==> exists|k: int| 0 <= k < things.len()
                && (#[trigger] things[k]).0 == p.0 && things[k].1 == p.1 && things[k].2 == st.occ()[p]
        &&& forall|k: int| 0 <= k < things.len() ==> {
            let (_tx, _ty, id, e) = #[trigger] things[k];
            st.meta().dom().contains(id) && st.meta()[id] == e
        }
        &&& forall|id: usize| #[trigger] st.meta().dom().contains(id)
            ==> exists|k: int| 0 <= k < things.len() && (#[trigger] things[k]).2 == id
        &&& st.hist() == Seq::<(usize, usize, usize, usize)>::empty()
        &&& forall|x: int, y: int| st.in_bounds(x, y) ==> !(#[trigger] st.shadow_spec(x, y))
    }

    pub fn new() -> (r: Self)
        ensures
            r.wf(),
            r.st().width() == 0,
            r.st().height() == 0,
            r.st().occ() == Map::<(int, int), usize>::empty(),
            r.st().meta() == Map::<usize, ThingEntry>::empty(),
            r.st().hist() == Seq::<(usize, usize, usize, usize)>::empty(),
    {
        let r = SokobanKernel {
            state: State {
                shadow: Table::new(),
                tiles: Table::new(),
                things: Table::new(),
                thing_table: Vec::new(),
                player_hist: Vec::new(),
            },
        };
        proof {
            assert(r.st().occ() =~= Map::<(int, int), usize>::empty());
            assert(r.st().meta() =~= Map::<usize, ThingEntry>::empty());
        }
        r
    }

    /// Builds a kernel and loads the given map into it.
    pub fn from_map(
        width: usize,
        height: usize,
        tiles: Vec<Tile>,
        things: Vec<(usize, usize, usize, ThingEntry)>,
    ) -> (r: Self)
        requires
            Self::map_args_ok(width, height, tiles@, things@),
        ensures
            r.wf(),
            Self::loaded_state(r.st(), width, height, tiles@, things@),
    {
        let mut me = Self::new();
        me.load_map(width, height, tiles, things);
        me
    }

    /// Fully replaces the grid and the things, and clears the move history
    /// and the shadow. `tiles` is read row-major: the tile for `(x, y)` is
    /// `tiles[y * width + x]`.
    pub fn load_map(
        &mut self,
        width: usize,
        height: usize,
        tiles: Vec<Tile>,
        things: Vec<(usize, usize, usize, ThingEntry)>,
    )
        requires
            Self::map_args_ok(width, height, tiles@, things@),
        ensures
            final(self).wf(),
            Self::loaded_state(final(self).st(), width, height, tiles@, things@),
    {
        self.state.tiles.resize_with(width, height, Tile::Void);
        self.state.shadow.resize(width, height);
        self.state.things.resize_with(width, height, None);
        self.state.thing_table.clear();
        self.state.player_hist.clear();
        proof {
            assert forall|i: int, j: int| self.state.shadow.in_bounds(i, j)
                implies !(#[trigger] self.state.shadow.at(i, j)) by {
                assert(call_ensures(bool::default, (), self.state.shadow.at(i, j)));
            }
        }

        let mut y: usize = 0;
        while y < height
            invariant
                width * height <= usize::MAX,
                tiles@.len() == width * height,
                y <= height,
                self.state.tiles.wf(),
                self.state.tiles.spec_width() == width,
                self.state.tiles.spec_height() == height,
                forall|i: int, j: int| 0 <= i < width && 0 <= j < y
                    ==> #[trigger] self.state.tiles.at(i, j) == tiles@[j * width + i],
                self.loaded_scaffold(width, height),
            decreases height - y,
        {
            let mut x: usize = 0;
            while x < width
                invariant
                    width * height <= usize::MAX,
                    tiles@.len() == width * height,
                    y < height,
                    x <= width,
                    self.state.tiles.wf(),
                    self.state.tiles.spec_width() == width,
                    self.state.tiles.spec_height() == height,
                    forall|i: int, j: int| 0 <= i < width && 0 <= j < y
                        ==> #[trigger] self.state.tiles.at(i, j) == tiles@[j * width + i],
                    forall|i: int| 0 <= i < x
                        ==> #[trigger] self.state.tiles.at(i, y as int) == tiles@[y * width + i],
                    self.loaded_scaffold(width, height),
                decreases width - x,
            {
                proof {
                    lemma_row_major_index_bound(x as int, y as int, width as int, height as int);
                }
                let idx = y * width + x;
                let t = tiles[idx];
                self.state.tiles.set(x, y, t);
                x = x + 1;
            }
            y = y + 1;
        }

        let ghost tiles_done = self.state.tiles;
        let mut k: usize = 0;
        while k < things.len()
            invariant
                Self::map_args_ok(width, height, tiles@, things@),
                k <= things@.len(),
                self.state.tiles == tiles_done,
                self.state.tiles.wf(),
                self.state.tiles.spec_width() == width,
                self.state.tiles.spec_height() == height,
                self.state.things.wf(),
                self.state.things.spec_width() == width,
                self.state.things.spec_height() == height,
                self.state.shadow.wf(),
                self.state.shadow.spec_width() == width,
                self.state.shadow.spec_height() == height,
                forall|i: int, j: int| self.state.shadow.in_bounds(i, j)
                    ==> !(#[trigger] self.state.shadow.at(i, j)),
                self.state.player_hist@.len() == 0,
                forall|j: int| 0 <= j < k ==> {
                    let (tx, ty, id, _e) = #[trigger] things@[j];
                    self.state.things.at(tx as int, ty as int) == Some(id)
                },
                forall|i: int, j: int| 0 <= i < width && 0 <= j < height
                    && #[trigger] self.state.things.at(i, j) is Some
                    ==> exists|m: int| 0 <= m < k && (#[trigger] things@[m]).0 == i
                        && things@[m].1 == j && Some(things@[m].2) == self.state.things.at(i, j),
                self.state.thing_table@.len() == k,
                forall|j: int| 0 <= j < k
                    ==> #[trigger] self.state.thing_table@[j] == ((things@[j].2, things@[j].3)),
            decreases things@.len() - k,
        {
            let (tx, ty, id, entry) = things[k];
            let ghost prev = self.state.things;
            self.state.things.set(tx, ty, Some(id));
            self.state.thing_table.push((id, entry));
            proof {
                assert forall|i: int, j: int| 0 <= i < width && 0 <= j < height
                    && #[trigger] self.state.things.at(i, j) is Some
                    implies exists|m: int| 0 <= m < k + 1 && (#[trigger] things@[m]).0 == i
                        && things@[m].1 == j && Some(things@[m].2) == self.state.things.at(i, j) by {
                    if i == tx as int && j == ty as int {
                        assert(things@[k as int].0 == i && things@[k as int].1 == j
                            && Some(things@[k as int].2) == self.state.things.at(i, j));
                    } else {
                        assert(self.state.things.at(i, j) == prev.at(i, j));
                    }
                }
            }
            k = k + 1;
        }

        proof {
            self.lemma_load_map_done(width, height, tiles@, things@);
        }
    }

    /// The parts of the loaded-state shape that the tile-filling loops keep
    /// untouched.
    spec fn loaded_scaffold(self, width: usize, height: usize) -> bool {
        &&& self.state.things.wf()
        &&& self.state.things.spec_width() == width
        &&& self.state.things.spec_height() == height
        &&& forall|i: int, j: int| self.state.things.in_bounds(i, j)
            ==> (#[trigger] self.state.things.at(i, j)) is None
        &&& self.state.shadow.wf()
        &&& self.state.shadow.spec_width() == width
        &&& self.state.shadow.spec_height() == height
        &&& forall|i: int, j: int| self.state.shadow.in_bounds(i, j)
            ==> !(#[trigger] self.state.shadow.at(i, j))
        &&& self.state.thing_table@.len() == 0
        &&& self.state.player_hist@.len() == 0
    }

    /// Discharges `wf` and `loaded_state` from the facts the loading loops
    /// establish.
    proof fn lemma_load_map_done(
        self,
        width: usize,
        height: usize,
        tiles: Seq<Tile>,
        things: Seq<(usize, usize, usize, ThingEntry)>,
    )
        requires
            Self::map_args_ok(width, height, tiles, things),
            self.state.tiles.wf(),
            self.state.tiles.spec_width() == width,
            self.state.tiles.spec_height() == height,
            forall|i: int, j: int| 0 <= i < width && 0 <= j < height
                ==> #[trigger] self.state.tiles.at(i, j) == tiles[j * width + i],
            self.state.things.wf(),
            self.state.things.spec_width() == width,
            self.state.things.spec_height() == height,
            self.state.shadow.wf(),
            self.state.shadow.spec_width() == width,
            self.state.shadow.spec_height() == height,
            forall|i: int, j: int| self.state.shadow.in_bounds(i, j)
                ==> !(#[trigger] self.state.shadow.at(i, j)),
            self.state.player_hist@.len() == 0,
            forall|j: int| 0 <= j < things.len() ==> {
                let (tx, ty, id, _e) = #[trigger] things[j];
                self.state.things.at(tx as int, ty as int) == Some(id)
            },
            forall|i: int, j: int| 0 <= i < width && 0 <= j < height
                && #[trigger] self.state.things.at(i, j) is Some
                ==> exists|m: int| 0 <= m < things.len() && (#[trigger] things[m]).0 == i
                    && things[m].1 == j && Some(things[m].2) == self.state.things.at(i, j),
            self.state.thing_table@.len() == things.len(),
            forall|j: int| 0 <= j < things.len()
                ==> #[trigger] self.state.thing_table@[j] == ((things[j].2, things[j].3)),
        ensures
            self.wf(),
            Self::loaded_state(self.st(), width, height, tiles, things),
    {
        let st = self.state;
        assert(st.width() == width && st.height() == height);

        // Metadata table: each entry is found at its own index.
        assert(st.meta_keys_unique());
        assert forall|j: int| 0 <= j < things.len() implies {
            let (_tx, _ty, id, e) = #[trigger] things[j];
            st.meta().dom().contains(id) && st.meta()[id] == e
        } by {
            assert forall|m: int| 0 <= m < st.thing_table@.len() && m != j
                implies (#[trigger] st.thing_table@[m]).0 != things[j].2 by {
                if m < j {
                    assert(things[m].2 != things[j].2);
                } else {
                    assert(things[j].2 != things[m].2);
                }
            }
            lemma_assoc_map_first_match(st.thing_table@, things[j].2, j);
        }
        assert forall|id: usize| #[trigger] st.meta().dom().contains(id)
            implies exists|k: int| 0 <= k < things.len() && (#[trigger] things[k]).2 == id by {
            lemma_assoc_map_dom_key(st.thing_table@, id);
            let k = choose|k: int| 0 <= k < st.thing_table@.len()
                && (#[trigger] st.thing_table@[k]).0 == id;
            assert(things[k].2 == id);
        }

        // Occupancy: each listed thing is on its cell, and nothing else is.
        assert forall|j: int| 0 <= j < things.len() implies {
            let (tx, ty, id, _e) = #[trigger] things[j];
            st.occ().dom().contains((tx as int, ty as int))
                && st.occ()[(tx as int, ty as int)] == id
        } by {
            let (tx, ty, id, _e) = things[j];
            assert(st.things.at(tx as int, ty as int) == Some(id));
        }
        assert forall|p: (int, int)| #[trigger] st.occ().dom().contains(p)
            implies exists|k: int| 0 <= k < things.len()
                && (#[trigger] things[k]).0 == p.0 && things[k].1 == p.1
                && things[k].2 == st.occ()[p] by {
            assert(st.things.at(p.0, p.1) is Some);
        }

        // Well-formedness: agreement, injectivity, single player and chest.
        assert forall|p: (int, int)| #[trigger] st.occ().dom().contains(p)
            implies st.meta().dom().contains(st.occ()[p]) by {
            let k = choose|k: int| 0 <= k < things.len()
                && (#[trigger] things[k]).0 == p.0 && things[k].1 == p.1
                && things[k].2 == st.occ()[p];
            assert(st.meta().dom().contains(things[k].2));
        }
        assert forall|p: (int, int), q: (int, int)|
            #[trigger] st.occ().dom().contains(p) && #[trigger] st.occ().dom().contains(q)
                && st.occ()[p] == st.occ()[q] implies p == q by {
            let kp = choose|k: int| 0 <= k < things.len()
                && (#[trigger] things[k]).0 == p.0 && things[k].1 == p.1
                && things[k].2 == st.occ()[p];
            let kq = choose|k: int| 0 <= k < things.len()
                && (#[trigger] things[k]).0 == q.0 && things[k].1 == q.1
                && things[k].2 == st.occ()[q];
            if kp != kq {
                assert(things[kp].2 != things[kq].2);
            }
        }
        assert forall|p: (int, int), q: (int, int)|
            #[trigger] st.occupied_player(p) && #[trigger] st.occupied_player(q)
            implies p == q by {
            let kp = choose|k: int| 0 <= k < things.len()
                && (#[trigger] things[k]).0 == p.0 && things[k].1 == p.1
                && things[k].2 == st.occ()[p];
            let kq = choose|k: int| 0 <= k < things.len()
                && (#[trigger] things[k]).0 == q.0 && things[k].1 == q.1
                && things[k].2 == st.occ()[q];
            assert(st.meta()[things[kp].2] == things[kp].3);
            assert(st.meta()[things[kq].2] == things[kq].3);
            if kp != kq {
                assert(!(things[kp].3.kind == ThingKind::Player
                    && things[kq].3.kind == ThingKind::Player));
            }
        }
        assert forall|p: (int, int), q: (int, int)|
            #[trigger] st.occupied_chest(p) && #[trigger] st.occupied_chest(q)
            implies p == q by {
            let kp = choose|k: int| 0 <= k < things.len()
                && (#[trigger] things[k]).0 == p.0 && things[k].1 == p.1
                && things[k].2 == st.occ()[p];
            let kq = choose|k: int| 0 <= k < things.len()
                && (#[trigger] things[k]).0 == q.0 && things[k].1 == q.1
                && things[k].2 == st.occ()[q];
            assert(st.meta()[things[kp].2] == things[kp].3);
            assert(st.meta()[things[kq].2] == things[kq].3);
            if kp != kq {
                assert(!(things[kp].3.kind == ThingKind::Chest
                    && things[kq].3.kind == ThingKind::Chest));
            }
        }
        assert(st.hist() =~= Seq::<(usize, usize, usize, usize)>::empty());
    }


    pub fn state(&self) -> (r: &State)
        ensures
            *r == self.st(),
    {
        &self.state
    }

    pub fn get_shadow(&self, x: usize, y: usize) -> (r: Option<bool>)
        requires
            self.wf(),
        ensures
            match r {
                Some(b) => self.st().in_bounds(x as int, y as int)
                    && b == self.st().shadow_spec(x as int, y as int),
                None => !self.st().in_bounds(x as int, y as int),
            },
    {
        match self.state.shadow.get(x, y) {
            Some(b) => Some(*b),
            None => None,
        }
    }
}


/// One step from `p` in direction `d`, in unbounded coordinates.
pub open spec fn step_pos(p: (int, int), d: Direction) -> (int, int) {
    (p.0 + d.dx(), p.1 + d.dy())
}

/// `b` lies strictly ahead of `a` on the ray that `d` spans.
pub open spec fn pos_ahead(a: (int, int), b: (int, int), d: Direction) -> bool {
    match d {
        Direction::Left => b.0 < a.0 && b.1 == a.1,
        Direction::Up => b.1 < a.1 && b.0 == a.0,
        Direction::Right => b.0 > a.0 && b.1 == a.1,
        Direction::Down => b.1 > a.1 && b.0 == a.0,
    }
}

impl State {
    /// An upper bound on how many pushes can still happen before the walk
    /// in direction `d` leaves the grid.
    pub open spec fn chain_fuel(self, p: (int, int), d: Direction) -> int {
        match d {
            Direction::Left => p.0 + 1,
            Direction::Up => p.1 + 1,
            Direction::Right => self.width() - p.0,
            Direction::Down => self.height() - p.1,
        }
    }

    /// The chain of pushes triggered by moving the thing `mover` at `p` one
    /// step in direction `d`: each element is a source cell with the thing
    /// that leaves it. The chain grows while the next cell is occupied,
    /// except that a player running into the chest collects it instead of
    /// displacing it. It fails if a source's target leaves the grid or is a
    /// wall; nothing is committed then.
    pub open spec fn chain_from(self, p: (int, int), mover: usize, d: Direction)
        -> Result<Seq<((int, int), usize)>, SokobanError>
        decreases self.chain_fuel(p, d),
    {
        let t = step_pos(p, d);
        if !self.in_bounds(t.0, t.1) {
            Err(SokobanError::MovedOutOfRange { x: p.0 as usize, y: p.1 as usize, dir: d })
        } else if self.tile_spec(t.0, t.1) == Tile::Wall {
            Err(SokobanError::BumpedIntoWall { x: p.0 as usize, y: p.1 as usize, dir: d })
        } else if !self.occ().dom().contains(t) {
            Ok(seq![(p, mover)])
        } else if self.kind_of(mover) == ThingKind::Player
            && self.kind_of(self.occ()[t]) == ThingKind::Chest {
            Ok(seq![(p, mover)])
        } else {
            match self.chain_from(t, self.occ()[t], d) {
                Ok(rest) => Ok(seq![(p, mover)].add(rest)),
                Err(e) => Err(e),
            }
        }
    }
}

/// The occupancy after pass one of a commit: every source cell cleared.
pub open spec fn clear_sources(
    occ: Map<(int, int), usize>,
    moves: Seq<((int, int), usize)>,
) -> Map<(int, int), usize>
    decreases moves.len(),
{
    if moves.len() == 0 {
        occ
    } else {
        clear_sources(occ, moves.drop_last()).remove(moves.last().0)
    }
}

/// The occupancy after pass two of a commit: every mover written one step
/// ahead of its source.
pub open spec fn write_dests(
    occ: Map<(int, int), usize>,
    moves: Seq<((int, int), usize)>,
    d: Direction,
) -> Map<(int, int), usize>
    decreases moves.len(),
{
    if moves.len() == 0 {
        occ
    } else {
        write_dests(occ, moves.drop_last(), d).insert(step_pos(moves.last().0, d), moves.last().1)
    }
}

/// The occupancy a successfully resolved chain commits to: all sources
/// cleared, then all movers written to their targets.
pub open spec fn commit_occ(
    occ: Map<(int, int), usize>,
    moves: Seq<((int, int), usize)>,
    d: Direction,
) -> Map<(int, int), usize> {
    write_dests(clear_sources(occ, moves), moves, d)
}

/// Shape of a successfully resolved chain: it starts at the first mover,
/// walks one step at a time, stays on occupied cells, never revisits a
/// cell, and its last target is either free or holds the chest that a
/// player collects.
pub proof fn lemma_chain_props(st: State, p: (int, int), m: usize, d: Direction)
    requires
        st.wf(),
        st.occ().dom().contains(p),
        st.occ()[p] == m,
        st.chain_from(p, m, d) matches Ok(_),
    ensures
        ({
            let moves = st.chain_from(p, m, d)->Ok_0;
            &&& moves.len() >= 1
            &&& moves[0].0 == p
            &&& forall|j: int| 0 <= j < moves.len() - 1
                ==> (#[trigger] moves[j + 1]).0 == step_pos(moves[j].0, d)
            &&& forall|j: int| 0 <= j < moves.len() ==> {
                let (c, mv) = #[trigger] moves[j];
                &&& st.occ().dom().contains(c)
                &&& st.occ()[c] == mv
                &&& st.in_bounds(c.0, c.1)
                &&& st.in_bounds(step_pos(c, d).0, step_pos(c, d).1)
                &&& st.tile_spec(step_pos(c, d).0, step_pos(c, d).1) != Tile::Wall
            }
            &&& forall|j1: int, j2: int| 0 <= j1 < j2 < moves.len()
                ==> pos_ahead((#[trigger] moves[j1]).0, (#[trigger] moves[j2]).0, d)
            &&& ({
                let t = step_pos(moves.last().0, d);
                ||| !st.occ().dom().contains(t)
                ||| (st.kind_of(moves.last().1) == ThingKind::Player
                    && st.kind_of(st.occ()[t]) == ThingKind::Chest)
            })
        }),
    decreases st.chain_fuel(p, d),
{
    let t = step_pos(p, d);
    let moves = st.chain_from(p, m, d)->Ok_0;
    if !st.in_bounds(t.0, t.1) {
    } else if st.tile_spec(t.0, t.1) == Tile::Wall {
    } else if !st.occ().dom().contains(t) {
    } else if st.kind_of(m) == ThingKind::Player && st.kind_of(st.occ()[t]) == ThingKind::Chest {
    } else {
        lemma_chain_props(st, t, st.occ()[t], d);
        let rest = st.chain_from(t, st.occ()[t], d)->Ok_0;
        assert(moves == seq![(p, m)].add(rest));
        assert(moves[0] == (p, m));
        assert forall|j: int| 0 <= j < moves.len() - 1
            implies (#[trigger] moves[j + 1]).0 == step_pos(moves[j].0, d) by {
            if j == 0 {
                assert(moves[1] == rest[0]);
            } else {
                let jm = j - 1;
                assert(moves[j] == rest[jm]);
                assert(moves[j + 1] == rest[jm + 1]);
                assert(rest[jm + 1].0 == step_pos(rest[jm].0, d));
            }
        }
        assert forall|j1: int, j2: int| 0 <= j1 < j2 < moves.len()
            implies pos_ahead((#[trigger] moves[j1]).0, (#[trigger] moves[j2]).0, d) by {
            if j1 == 0 {
                if j2 == 1 {
                    assert(moves[j2].0 == t);
                } else {
                    assert(pos_ahead(rest[0].0, (moves[j2]).0, d));
                }
            } else {
                assert(pos_ahead(rest[j1 - 1].0, rest[j2 - 1].0, d));
            }
        }
        assert(moves.last() == rest.last());
    }
}


/// `q` is the source cell of some move in the chain.
pub open spec fn chain_source(moves: Seq<((int, int), usize)>, q: (int, int)) -> bool {
    exists|j: int| 0 <= j < moves.len() && (#[trigger] moves[j]).0 == q
}

/// `q` is the target cell of some move in the chain.
pub open spec fn chain_dest(moves: Seq<((int, int), usize)>, d: Direction, q: (int, int)) -> bool {
    exists|j: int| 0 <= j < moves.len() && step_pos((#[trigger] moves[j]).0, d) == q
}

proof fn lemma_clear_sources_props(occ: Map<(int, int), usize>, moves: Seq<((int, int), usize)>)
    ensures
        forall|q: (int, int)| #[trigger] clear_sources(occ, moves).dom().contains(q)
            <==> (occ.dom().contains(q) && !chain_source(moves, q)),
        forall|q: (int, int)| #[trigger] clear_sources(occ, moves).dom().contains(q)
            ==> clear_sources(occ, moves)[q] == occ[q],
    decreases moves.len(),
{
    if moves.len() > 0 {
        let pre = moves.drop_last();
        lemma_clear_sources_props(occ, pre);
        assert forall|q: (int, int)|
            chain_source(moves, q) == (chain_source(pre, q) || moves.last().0 == q) by {
            if chain_source(moves, q) {
                let j = choose|j: int| 0 <= j < moves.len() && (#[trigger] moves[j]).0 == q;
                if j < moves.len() - 1 {
                    assert(pre[j].0 == q);
                }
            }
            if chain_source(pre, q) {
                let j = choose|j: int| 0 <= j < pre.len() && (#[trigger] pre[j]).0 == q;
                assert(moves[j].0 == q);
            }
            if moves.last().0 == q {
                assert(moves[moves.len() - 1].0 == q);
            }
        }
        let res = clear_sources(occ, moves);
        assert(res == clear_sources(occ, pre).remove(moves.last().0));
        assert forall|q: (int, int)| #[trigger] res.dom().contains(q)
            implies occ.dom().contains(q) && !chain_source(moves, q) && res[q] == occ[q] by {
            assert(clear_sources(occ, pre).dom().contains(q));
        }
        assert forall|q: (int, int)| occ.dom().contains(q) && !chain_source(moves, q)
            implies #[trigger] res.dom().contains(q) by {
            assert(!chain_source(pre, q) && moves.last().0 != q);
            assert(clear_sources(occ, pre).dom().contains(q));
        }
    }
}

proof fn lemma_write_dests_props(
    occ: Map<(int, int), usize>,
    moves: Seq<((int, int), usize)>,
    d: Direction,
)
    requires
        forall|j1: int, j2: int| 0 <= j1 < j2 < moves.len()
            ==> step_pos((#[trigger] moves[j1]).0, d) != step_pos((#[trigger] moves[j2]).0, d),
    ensures
        forall|q: (int, int)| #[trigger] write_dests(occ, moves, d).dom().contains(q)
            <==> (occ.dom().contains(q) || chain_dest(moves, d, q)),
        forall|j: int| 0 <= j < moves.len()
            ==> write_dests(occ, moves, d)[step_pos((#[trigger] moves[j]).0, d)] == moves[j].1,
        forall|q: (int, int)| !chain_dest(moves, d, q) && occ.dom().contains(q)
            ==> #[trigger] write_dests(occ, moves, d)[q] == occ[q],
    decreases moves.len(),
{
    if moves.len() > 0 {
        let pre = moves.drop_last();
        lemma_write_dests_props(occ, pre, d);
        assert forall|q: (int, int)|
            chain_dest(moves, d, q)
                == (chain_dest(pre, d, q) || step_pos(moves.last().0, d) == q) by {
            if chain_dest(moves, d, q) {
                let j = choose|j: int| 0 <= j < moves.len()
                    && step_pos((#[trigger] moves[j]).0, d) == q;
                if j < moves.len() - 1 {
                    assert(step_pos(pre[j].0, d) == q);
                }
            }
            if chain_dest(pre, d, q) {
                let j = choose|j: int| 0 <= j < pre.len()
                    && step_pos((#[trigger] pre[j]).0, d) == q;
                assert(step_pos(moves[j].0, d) == q);
            }
            if step_pos(moves.last().0, d) == q {
                assert(step_pos(moves[moves.len() - 1].0, d) == q);
            }
        }
        let res = write_dests(occ, moves, d);
        assert(res == write_dests(occ, pre, d).insert(step_pos(moves.last().0, d), moves.last().1));
        assert forall|j: int| 0 <= j < moves.len()
            implies res[step_pos((#[trigger] moves[j]).0, d)] == moves[j].1 by {
            if j < moves.len() - 1 {
                assert(step_pos(moves[j].0, d) != step_pos(moves[moves.len() - 1].0, d));
                assert(pre[j] == moves[j]);
                assert(write_dests(occ, pre, d)[step_pos(pre[j].0, d)] == pre[j].1);
            }
        }
        assert forall|q: (int, int)| #[trigger] res.dom().contains(q)
            implies (occ.dom().contains(q) || chain_dest(moves, d, q)) by {
            if q != step_pos(moves.last().0, d) {
                assert(write_dests(occ, pre, d).dom().contains(q));
            }
        }
        assert forall|q: (int, int)| occ.dom().contains(q) || chain_dest(moves, d, q)
            implies #[trigger] res.dom().contains(q) by {
            if q != step_pos(moves.last().0, d) {
                if chain_dest(moves, d, q) {
                    assert(chain_dest(pre, d, q));
                }
                assert(write_dests(occ, pre, d).dom().contains(q));
            }
        }
        assert forall|q: (int, int)| !chain_dest(moves, d, q) && occ.dom().contains(q)
            implies #[trigger] res[q] == occ[q] by {
            assert(!chain_dest(pre, d, q));
            assert(q != step_pos(moves.last().0, d)) by {
                assert(step_pos(moves[moves.len() - 1].0, d) == step_pos(moves.last().0, d));
            }
            assert(write_dests(occ, pre, d)[q] == occ[q]);
        }
    }
}

/// Everything the commit of a resolved chain does to the occupancy, stated
/// pointwise, together with preservation of the state invariants.
pub proof fn lemma_commit_props(st: State, p: (int, int), m: usize, d: Direction)
    requires
        st.wf(),
        st.occ().dom().contains(p),
        st.occ()[p] == m,
        st.chain_from(p, m, d) matches Ok(_),
    ensures
        ({
            let moves = st.chain_from(p, m, d)->Ok_0;
            let res = commit_occ(st.occ(), moves, d);
            &&& forall|q: (int, int)| #[trigger] res.dom().contains(q)
                <==> ((st.occ().dom().contains(q) && !chain_source(moves, q))
                    || chain_dest(moves, d, q))
            &&& forall|j: int| 0 <= j < moves.len()
                ==> res[step_pos((#[trigger] moves[j]).0, d)] == moves[j].1
            &&& forall|q: (int, int)|
                !chain_source(moves, q) && !chain_dest(moves, d, q)
                    && #[trigger] res.dom().contains(q) ==> res[q] == st.occ()[q]
            &&& !res.dom().contains(p)
            &&& res.dom().contains(step_pos(p, d)) && res[step_pos(p, d)] == m
            &&& forall|q: (int, int)| #[trigger] res.dom().contains(q)
                ==> st.in_bounds(q.0, q.1)
            &&& forall|q: (int, int)| #[trigger] res.dom().contains(q)
                ==> exists|q0: (int, int)| #[trigger] st.occ().dom().contains(q0)
                    && st.occ()[q0] == res[q]
            &&& forall|q1: (int, int), q2: (int, int)|
                #[trigger] res.dom().contains(q1) && #[trigger] res.dom().contains(q2)
                    && res[q1] == res[q2] ==> q1 == q2
        }),
{
    lemma_chain_props(st, p, m, d);
    let moves = st.chain_from(p, m, d)->Ok_0;
    let cleared = clear_sources(st.occ(), moves);
    let res = commit_occ(st.occ(), moves, d);

    assert forall|j1: int, j2: int| 0 <= j1 < j2 < moves.len()
        implies step_pos((#[trigger] moves[j1]).0, d) != step_pos((#[trigger] moves[j2]).0, d) by {
        assert(pos_ahead(moves[j1].0, moves[j2].0, d));
    }
    lemma_clear_sources_props(st.occ(), moves);
    lemma_write_dests_props(cleared, moves, d);

    // Every chain target is strictly ahead of the chain's first source.
    assert forall|j: int| 0 <= j < moves.len()
        implies pos_ahead(p, step_pos((#[trigger] moves[j]).0, d), d) by {
        if j > 0 {
            assert(pos_ahead(moves[0].0, moves[j].0, d));
        }
    }
    assert(!chain_dest(moves, d, p));
    assert(chain_source(moves, p)) by {
        assert(moves[0].0 == p);
    }
    assert(res.dom().contains(step_pos(p, d)) && res[step_pos(p, d)] == m) by {
        assert(step_pos(moves[0].0, d) == step_pos(p, d));
        assert(res[step_pos(moves[0].0, d)] == moves[0].1);
        assert(chain_dest(moves, d, step_pos(p, d))) by {
            assert(step_pos(moves[0].0, d) == step_pos(p, d));
        }
    }

    assert forall|q: (int, int)| #[trigger] res.dom().contains(q)
        implies st.in_bounds(q.0, q.1) by {
        if chain_dest(moves, d, q) {
            let j = choose|j: int| 0 <= j < moves.len()
                && step_pos((#[trigger] moves[j]).0, d) == q;
            assert(st.in_bounds(step_pos(moves[j].0, d).0, step_pos(moves[j].0, d).1));
        } else {
            assert(st.occ().dom().contains(q));
        }
    }

    // Values come from the old occupancy, and stay pairwise distinct.
    assert forall|q: (int, int)| #[trigger] res.dom().contains(q)
        implies exists|q0: (int, int)| #[trigger] st.occ().dom().contains(q0)
            && st.occ()[q0] == res[q] by {
        if chain_dest(moves, d, q) {
            let j = choose|j: int| 0 <= j < moves.len()
                && step_pos((#[trigger] moves[j]).0, d) == q;
            assert(res[q] == moves[j].1);
            assert(st.occ().dom().contains(moves[j].0) && st.occ()[moves[j].0] == moves[j].1);
        } else {
            assert(res[q] == st.occ()[q]);
        }
    }
    assert forall|q1: (int, int), q2: (int, int)|
        #[trigger] res.dom().contains(q1) && #[trigger] res.dom().contains(q2)
            && res[q1] == res[q2] implies q1 == q2 by {
        let o1: (int, int) = if chain_dest(moves, d, q1) {
            let j = choose|j: int| 0 <= j < moves.len()
                && step_pos((#[trigger] moves[j]).0, d) == q1;
            moves[j].0
        } else {
            q1
        };
        let o2: (int, int) = if chain_dest(moves, d, q2) {
            let j = choose|j: int| 0 <= j < moves.len()
                && step_pos((#[trigger] moves[j]).0, d) == q2;
            moves[j].0
        } else {
            q2
        };
        if chain_dest(moves, d, q1) {
            let j = choose|j: int| 0 <= j < moves.len()
                && step_pos((#[trigger] moves[j]).0, d) == q1;
            assert(res[q1] == moves[j].1 && st.occ()[o1] == moves[j].1
                && st.occ().dom().contains(o1) && step_pos(o1, d) == q1);
        } else {
            assert(res[q1] == st.occ()[q1] && st.occ().dom().contains(o1));
        }
        if chain_dest(moves, d, q2) {
            let j = choose|j: int| 0 <= j < moves.len()
                && step_pos((#[trigger] moves[j]).0, d) == q2;
            assert(res[q2] == moves[j].1 && st.occ()[o2] == moves[j].1
                && st.occ().dom().contains(o2) && step_pos(o2, d) == q2);
        } else {
            assert(res[q2] == st.occ()[q2] && st.occ().dom().contains(o2));
        }
        assert(st.occ()[o1] == st.occ()[o2]);
        assert(o1 == o2);
        if chain_dest(moves, d, q1) && !chain_dest(moves, d, q2) {
            // q2 survived both passes, so o2 == q2 is no chain source; but
            // o2 == o1 is one.
            assert(chain_source(moves, o1)) by {
                let j = choose|j: int| 0 <= j < moves.len()
                    && step_pos((#[trigger] moves[j]).0, d) == q1;
                assert(moves[j].0 == o1);
            }
            assert(false);
        }
        if !chain_dest(moves, d, q1) && chain_dest(moves, d, q2) {
            assert(chain_source(moves, o2)) by {
                let j = choose|j: int| 0 <= j < moves.len()
                    && step_pos((#[trigger] moves[j]).0, d) == q2;
                assert(moves[j].0 == o2);
            }
            assert(false);
        }
    }
}


/// The sources and movers that a resolver log records, as spec-level moves.
pub open spec fn log_moves(
    log: Seq<(usize, usize, Direction, usize, usize, usize)>,
) -> Seq<((int, int), usize)> {
    log.map(|j: int, e: (usize, usize, Direction, usize, usize, usize)|
        (((e.0 as int, e.1 as int), e.5)))
}

impl SokobanKernel {
    /// Resolves the chain of pushes that moving the thing `first_push.3` at
    /// `(first_push.0, first_push.1)` one step in direction `first_push.2`
    /// causes, and commits it to the occupancy — all of it or none of it.
    #[verifier::rlimit(90)]
    fn solve_collisions(&mut self, first_push: (usize, usize, Direction, usize))
        -> (r: Result<(), SokobanError>)
        requires
            old(self).wf(),
            old(self).st().occ().dom().contains((first_push.0 as int, first_push.1 as int)),
            old(self).st().occ()[(first_push.0 as int, first_push.1 as int)] == first_push.3,
        ensures
            final(self).wf(),
            ({
                let p0 = (first_push.0 as int, first_push.1 as int);
                let dir = first_push.2;
                let chain = old(self).st().chain_from(p0, first_push.3, dir);
                match r {
                    Ok(_) => {
                        &&& chain matches Ok(moves)
                            && final(self).st().occ() == commit_occ(old(self).st().occ(), moves, dir)
                        &&& final(self).st().meta() == old(self).st().meta()
                        &&& final(self).st().hist() == old(self).st().hist()
                        &&& final(self).st().width() == old(self).st().width()
                        &&& final(self).st().height() == old(self).st().height()
                        &&& forall|x: int, y: int| #[trigger] final(self).st().tile_spec(x, y)
                            == old(self).st().tile_spec(x, y)
                        &&& forall|x: int, y: int| #[trigger] final(self).st().shadow_spec(x, y)
                            == old(self).st().shadow_spec(x, y)
                    },
                    Err(e) => {
                        &&& *final(self) == *old(self)
                        &&& chain is Err && chain->Err_0 == e
                    },
                }
            }),
    {
        let ghost st0 = self.state;
        let (fx, fy, dir, fid) = first_push;
        let ghost p0: (int, int) = (fx as int, fy as int);
        let ghost full = st0.chain_from(p0, fid, dir);

        let mut push_log: Vec<(usize, usize, Direction, usize, usize, usize)> = Vec::new();
        let mut push_queue: VecDeque<(usize, usize, Direction, usize)> = VecDeque::new();
        let w = self.state.tiles.width();
        let h = self.state.tiles.height();
        proof {
            self.state.tiles.lemma_size_bound();
        }
        let mut push_table: Table<bool> = Table::new_filled(w, h);
        proof {
            assert forall|i: int, j: int| push_table.in_bounds(i, j)
                implies !(#[trigger] push_table.at(i, j)) by {
                assert(call_ensures(bool::default, (), push_table.at(i, j)));
            }
        }

        push_queue.push_back(first_push);
        proof {
            if full is Ok {
                let rest = full->Ok_0;
                assert(log_moves(push_log@).add(rest) =~= rest);
            }
        }

        // Resolution: walk the chain, logging each feasible push; abort on
        // the first failure with nothing committed.
        while push_queue.len() != 0
            invariant
                *self == *old(self),
                st0 == self.state,
                self.wf(),
                w == st0.width(),
                h == st0.height(),
                first_push == ((fx, fy, dir, fid)),
                p0 == ((fx as int, fy as int)),
                full == st0.chain_from(p0, fid, dir),
                st0.occ().dom().contains(p0) && st0.occ()[p0] == fid,
                push_table.wf(),
                push_table.spec_width() == w,
                push_table.spec_height() == h,
                push_queue@.len() <= 1,
                forall|j: int| 0 <= j < push_log@.len() ==> {
                    let e = #[trigger] push_log@[j];
                    let c = (e.0 as int, e.1 as int);
                    &&& e.2 == dir
                    &&& st0.occ().dom().contains(c) && st0.occ()[c] == e.5
                    &&& st0.in_bounds(c.0, c.1)
                    &&& st0.in_bounds(step_pos(c, dir).0, step_pos(c, dir).1)
                    &&& ((e.3 as int, e.4 as int)) == step_pos(c, dir)
                },
                forall|j1: int, j2: int| 0 <= j1 < j2 < push_log@.len()
                    ==> pos_ahead(
                        ((#[trigger] push_log@[j1]).0 as int, push_log@[j1].1 as int),
                        ((#[trigger] push_log@[j2]).0 as int, push_log@[j2].1 as int),
                        dir,
                    ),
                forall|i: int, jj: int| 0 <= i < w && 0 <= jj < h ==>
                    ((#[trigger] push_table.at(i, jj)) <==> exists|j: int|
                        0 <= j < push_log@.len()
                        && (((#[trigger] push_log@[j]).0 as int, push_log@[j].1 as int)) == ((i, jj))),
                push_queue@.len() == 1 ==> {
                    let f = push_queue@[0];
                    let c = (f.0 as int, f.1 as int);
                    &&& f.2 == dir
                    &&& st0.in_bounds(c.0, c.1)
                    &&& st0.occ().dom().contains(c) && st0.occ()[c] == f.3
                    &&& full == (match st0.chain_from(c, f.3, dir) {
                        Ok(rest) => Ok::<_, SokobanError>(log_moves(push_log@).add(rest)),
                        Err(e) => Err(e),
                    })
                    &&& forall|j: int| 0 <= j < push_log@.len()
                        ==> pos_ahead(
                            ((#[trigger] push_log@[j]).0 as int, push_log@[j].1 as int), c, dir)
                },
                push_queue@.len() == 0 ==> full == Ok::<_, SokobanError>(log_moves(push_log@)),
            decreases (if push_queue@.len() == 0 { 0int } else {
                st0.chain_fuel((push_queue@[0].0 as int, push_queue@[0].1 as int), dir)
            }),
        {
            let front = push_queue.pop_front().unwrap();
            let (x, y, dirf, pusher) = front;
            let ghost c: (int, int) = (x as int, y as int);
            let ghost log_snap = push_log@;
            push_table.set(x, y, true);

            let step = dirf.apply(x, y);
            let nx = step.0;
            let ny = step.1;

            /* Range check */
            let entry: bool = match push_table.get(nx, ny) {
                Some(e) => *e,
                None => {
                    proof {
                        let t = step_pos(c, dir);
                        assert(!st0.in_bounds(t.0, t.1));
                        assert(st0.chain_from(c, pusher, dir) == Err::<Seq<((int, int), usize)>, SokobanError>(
                            SokobanError::MovedOutOfRange { x, y, dir }));
                        assert(full == Err::<Seq<((int, int), usize)>, SokobanError>(
                            SokobanError::MovedOutOfRange { x, y, dir }));
                        assert(*self == *old(self));
                    }
                    return Err(SokobanError::MovedOutOfRange { x, y, dir: dirf });
                },
            };

            /* Wall check */
            let is_wall = match self.state.tiles.get(nx, ny) {
                Some(t) => *t == Tile::Wall,
                None => false,
            };
            if is_wall {
                proof {
                    let t = step_pos(c, dir);
                    assert(st0.in_bounds(t.0, t.1));
                    assert(st0.tile_spec(t.0, t.1) == Tile::Wall);
                    assert(st0.chain_from(c, pusher, dir) == Err::<Seq<((int, int), usize)>, SokobanError>(
                        SokobanError::BumpedIntoWall { x, y, dir }));
                    assert(full == Err::<Seq<((int, int), usize)>, SokobanError>(
                        SokobanError::BumpedIntoWall { x, y, dir }));
                    assert(*self == *old(self));
                }
                return Err(SokobanError::BumpedIntoWall { x, y, dir: dirf });
            }

            /* A marked target means the chain closed on itself — but pushes
             * advance strictly along one ray, so this cannot happen. */
            if entry {
                proof {
                    let t = step_pos(c, dir);
                    assert(pos_ahead(c, t, dir));
                    let j = choose|j: int| 0 <= j < log_snap.len()
                        && (((#[trigger] log_snap[j]).0 as int, log_snap[j].1 as int)) == t;
                    assert(pos_ahead(t, c, dir));
                    assert(false);
                }
                return Err(SokobanError::CollisionLoop);
            }

            /* The push is feasible: log it. */
            push_log.push((x, y, dirf, nx, ny, pusher));
            proof {
                assert(log_moves(push_log@) =~= log_moves(log_snap).push((c, pusher)));
                assert forall|i: int, jj: int| 0 <= i < w && 0 <= jj < h
                    implies ((#[trigger] push_table.at(i, jj)) <==> exists|j: int|
                        0 <= j < push_log@.len()
                        && (((#[trigger] push_log@[j]).0 as int, push_log@[j].1 as int)) == ((i, jj))) by {
                    if push_table.at(i, jj) {
                        if i == c.0 && jj == c.1 {
                            assert(((push_log@[push_log@.len() - 1].0 as int,
                                push_log@[push_log@.len() - 1].1 as int)) == ((i, jj)));
                        } else {
                            let j = choose|j: int| 0 <= j < log_snap.len()
                                && (((#[trigger] log_snap[j]).0 as int, log_snap[j].1 as int)) == ((i, jj));
                            assert(((push_log@[j].0 as int, push_log@[j].1 as int)) == ((i, jj)));
                        }
                    } else {
                        assert forall|j: int| 0 <= j < push_log@.len()
                            implies (((#[trigger] push_log@[j]).0 as int, push_log@[j].1 as int)) != ((i, jj)) by {
                            if j < push_log@.len() - 1 {
                                assert(push_log@[j] == log_snap[j]);
                            }
                        }
                    }
                }
            }

            /* Check whether something occupies the target. */
            let occ_cell: Option<usize> = match self.state.things.get(nx, ny) {
                Some(cc) => *cc,
                None => None,
            };
            match occ_cell {
                None => {
                    proof {
                        assert(st0.chain_from(c, pusher, dir) == Ok::<_, SokobanError>(seq![(c, pusher)]));
                        assert(log_moves(log_snap).add(seq![(c, pusher)])
                            =~= log_moves(push_log@));
                    }
                },
                Some(occupier) => {
                    proof {
                        assert(st0.occ().dom().contains(step_pos(c, dir)));
                        assert(st0.occ()[step_pos(c, dir)] == occupier);
                    }
                    let pusher_entry = self.state.meta_lookup(pusher);
                    let occupier_entry = self.state.meta_lookup(occupier);
                    if pusher_entry.kind == ThingKind::Player
                        && occupier_entry.kind == ThingKind::Chest {
                        /* The player collects the chest instead of pushing it. */
                        proof {
                            assert(st0.chain_from(c, pusher, dir)
                                == Ok::<_, SokobanError>(seq![(c, pusher)]));
                            assert(log_moves(log_snap).add(seq![(c, pusher)])
                                =~= log_moves(push_log@));
                        }
                    } else {
                        push_queue.push_back((nx, ny, dirf, occupier));
                        proof {
                            let t = step_pos(c, dir);
                            assert((match st0.chain_from(t, occupier, dir) {
                                Ok(rest) => Ok::<_, SokobanError>(seq![(c, pusher)].add(rest)),
                                Err(e) => Err(e),
                            }) == st0.chain_from(c, pusher, dir));
                            if st0.chain_from(t, occupier, dir) is Ok {
                                let rest = st0.chain_from(t, occupier, dir)->Ok_0;
                                assert(log_moves(log_snap).add(seq![(c, pusher)].add(rest))
                                    =~= log_moves(push_log@).add(rest));
                            }
                            assert forall|j: int| 0 <= j < push_log@.len()
                                implies pos_ahead(
                                    ((#[trigger] push_log@[j]).0 as int, push_log@[j].1 as int),
                                    t, dir) by {
                                assert(pos_ahead(c, t, dir));
                                if j < push_log@.len() - 1 {
                                    assert(push_log@[j] == log_snap[j]);
                                    assert(pos_ahead((log_snap[j].0 as int, log_snap[j].1 as int), c, dir));
                                }
                            }
                        }
                    }
                },
            }
        }

        /* The whole chain is feasible: apply it, clearing every source cell
         * first and then writing every mover one step ahead. */
        proof {
            lemma_chain_props(st0, p0, fid, dir);
            lemma_commit_props(st0, p0, fid, dir);
        }
        let ghost moves = full->Ok_0;
        let ghost log_final = push_log@;

        let mut i: usize = 0;
        while i < push_log.len()
            invariant
                i <= push_log@.len(),
                push_log@ == log_final,
                moves == log_moves(log_final),
                st0.wf(),
                forall|j: int| 0 <= j < push_log@.len() ==> {
                    let e = #[trigger] push_log@[j];
                    let cc = (e.0 as int, e.1 as int);
                    &&& st0.in_bounds(cc.0, cc.1)
                    &&& st0.in_bounds(step_pos(cc, dir).0, step_pos(cc, dir).1)
                    &&& ((e.3 as int, e.4 as int)) == step_pos(cc, dir)
                    &&& e.5 == st0.occ()[cc]
                },
                self.state.tiles == st0.tiles,
                self.state.shadow == st0.shadow,
                self.state.thing_table == st0.thing_table,
                self.state.player_hist == st0.player_hist,
                self.state.things.wf(),
                self.state.things.spec_width() == st0.width(),
                self.state.things.spec_height() == st0.height(),
                self.state.occ() == clear_sources(st0.occ(), moves.take(i as int)),
            decreases push_log@.len() - i,
        {
            let e = push_log[i];
            let ghost occ_pre = self.state.occ();
            self.state.things.set(e.0, e.1, None);
            proof {
                assert(self.state.occ() =~= occ_pre.remove((e.0 as int, e.1 as int)));
                assert(moves.take(i as int + 1).drop_last() =~= moves.take(i as int));
                assert(moves.take(i as int + 1).last() == moves[i as int]);
                assert(moves[i as int].0 == ((e.0 as int, e.1 as int)));
            }
            i = i + 1;
        }
        proof {
            assert(moves.take(push_log@.len() as int) =~= moves);
        }

        let ghost cleared = clear_sources(st0.occ(), moves);
        let mut i2: usize = 0;
        while i2 < push_log.len()
            invariant
                i2 <= push_log@.len(),
                push_log@ == log_final,
                moves == log_moves(log_final),
                st0.wf(),
                forall|j: int| 0 <= j < push_log@.len() ==> {
                    let e = #[trigger] push_log@[j];
                    let cc = (e.0 as int, e.1 as int);
                    &&& st0.in_bounds(cc.0, cc.1)
                    &&& st0.in_bounds(step_pos(cc, dir).0, step_pos(cc, dir).1)
                    &&& ((e.3 as int, e.4 as int)) == step_pos(cc, dir)
                    &&& e.5 == st0.occ()[cc]
                },
                self.state.tiles == st0.tiles,
                self.state.shadow == st0.shadow,
                self.state.thing_table == st0.thing_table,
                self.state.player_hist == st0.player_hist,
                self.state.things.wf(),
                self.state.things.spec_width() == st0.width(),
                self.state.things.spec_height() == st0.height(),
                self.state.occ() == write_dests(cleared, moves.take(i2 as int), dir),
            decreases push_log@.len() - i2,
        {
            let e = push_log[i2];
            let ghost occ_pre = self.state.occ();
            self.state.things.set(e.3, e.4, Some(e.5));
            proof {
                assert(self.state.occ() =~= occ_pre.insert((e.3 as int, e.4 as int), e.5));
                assert(moves.take(i2 as int + 1).drop_last() =~= moves.take(i2 as int));
                assert(moves.take(i2 as int + 1).last() == moves[i2 as int]);
                assert(step_pos(moves[i2 as int].0, dir) == ((e.3 as int, e.4 as int)));
                assert(moves[i2 as int].1 == e.5);
            }
            i2 = i2 + 1;
        }

        proof {
            assert(moves.take(push_log@.len() as int) =~= moves);
            assert(self.state.occ() == commit_occ(st0.occ(), moves, dir));
            self.lemma_commit_wf(st0, p0, fid, dir);
        }
        Ok(())
    }

    /// The committed occupancy keeps the state invariants.
    proof fn lemma_commit_wf(self, st0: State, p0: (int, int), fid: usize, d: Direction)
        requires
            st0.wf(),
            st0.occ().dom().contains(p0),
            st0.occ()[p0] == fid,
            st0.chain_from(p0, fid, d) matches Ok(_),
            self.state.occ() == commit_occ(st0.occ(), st0.chain_from(p0, fid, d)->Ok_0, d),
            self.state.tiles == st0.tiles,
            self.state.shadow == st0.shadow,
            self.state.thing_table == st0.thing_table,
            self.state.player_hist == st0.player_hist,
            self.state.things.wf(),
            self.state.things.spec_width() == st0.width(),
            self.state.things.spec_height() == st0.height(),
        ensures
            self.wf(),
    {
        lemma_commit_props(st0, p0, fid, d);
        let st = self.state;
        let res = st.occ();
        assert(st.width() == st0.width() && st.height() == st0.height());
        assert(st.meta() == st0.meta());
        assert(st.hist() == st0.hist());

        assert forall|p: (int, int)| #[trigger] res.dom().contains(p)
            implies st.meta().dom().contains(res[p]) by {
            let q0 = choose|q0: (int, int)| #[trigger] st0.occ().dom().contains(q0)
                && st0.occ()[q0] == res[p];
        }
        assert forall|p: (int, int), q: (int, int)|
            #[trigger] st.occupied_player(p) && #[trigger] st.occupied_player(q)
            implies p == q by {
            let p0x = choose|q0: (int, int)| #[trigger] st0.occ().dom().contains(q0)
                && st0.occ()[q0] == res[p];
            let q0x = choose|q0: (int, int)| #[trigger] st0.occ().dom().contains(q0)
                && st0.occ()[q0] == res[q];
            assert(st0.occupied_player(p0x));
            assert(st0.occupied_player(q0x));
            assert(p0x == q0x);
        }
        assert forall|p: (int, int), q: (int, int)|
            #[trigger] st.occupied_chest(p) && #[trigger] st.occupied_chest(q)
            implies p == q by {
            let p0x = choose|q0: (int, int)| #[trigger] st0.occ().dom().contains(q0)
                && st0.occ()[q0] == res[p];
            let q0x = choose|q0: (int, int)| #[trigger] st0.occ().dom().contains(q0)
                && st0.occ()[q0] == res[q];
            assert(st0.occupied_chest(p0x));
            assert(st0.occupied_chest(q0x));
            assert(p0x == q0x);
        }
    }
}


impl SokobanKernel {
    /// Removes every thing that sits over a `Void` tile; a box that falls
    /// in plugs the hole, turning the tile into `Floor` for good.
    fn handle_void_fall(&mut self)
        requires
            old(self).wf(),
        ensures
            final(self).wf(),
            final(self).st().meta() == old(self).st().meta(),
            final(self).st().hist() == old(self).st().hist(),
            final(self).st().width() == old(self).st().width(),
            final(self).st().height() == old(self).st().height(),
            forall|x: int, y: int| #[trigger] final(self).st().shadow_spec(x, y)
                == old(self).st().shadow_spec(x, y),
            forall|p: (int, int)| #[trigger] final(self).st().occ().dom().contains(p)
                <==> (old(self).st().occ().dom().contains(p)
                    && old(self).st().tile_spec(p.0, p.1) != Tile::Void),
            forall|p: (int, int)| #[trigger] final(self).st().occ().dom().contains(p)
                ==> final(self).st().occ()[p] == old(self).st().occ()[p],
            forall|x: int, y: int| old(self).st().in_bounds(x, y)
                ==> #[trigger] final(self).st().tile_spec(x, y) == (
                    if old(self).st().occ().dom().contains((x, y))
                        && old(self).st().tile_spec(x, y) == Tile::Void
                        && old(self).st().kind_of(old(self).st().occ()[(x, y)]) == ThingKind::Box {
                        Tile::Floor
                    } else {
                        old(self).st().tile_spec(x, y)
                    }),
    {
        let ghost st0 = self.state;
        let w = self.state.things.width();
        let h = self.state.things.height();
        let mut y: usize = 0;
        while y < h
            invariant
                st0.wf(),
                w == st0.width(),
                h == st0.height(),
                y <= h,
                self.state.thing_table == st0.thing_table,
                self.state.player_hist == st0.player_hist,
                self.state.shadow == st0.shadow,
                self.state.things.wf(),
                self.state.things.spec_width() == w,
                self.state.things.spec_height() == h,
                self.state.tiles.wf(),
                self.state.tiles.spec_width() == w,
                self.state.tiles.spec_height() == h,
                forall|i: int, j: int| 0 <= i < w && 0 <= j < h
                    ==> #[trigger] self.state.things.at(i, j) == (
                        if j < y && st0.things.at(i, j) is Some
                            && st0.tiles.at(i, j) == Tile::Void {
                            None
                        } else {
                            st0.things.at(i, j)
                        }),
                forall|i: int, j: int| 0 <= i < w && 0 <= j < h
                    ==> #[trigger] self.state.tiles.at(i, j) == (
                        if j < y && st0.things.at(i, j) is Some
                            && st0.tiles.at(i, j) == Tile::Void
                            && st0.kind_of(st0.things.at(i, j)->0) == ThingKind::Box {
                            Tile::Floor
                        } else {
                            st0.tiles.at(i, j)
                        }),
            decreases h - y,
        {
            let mut x: usize = 0;
            while x < w
                invariant
                    st0.wf(),
                    w == st0.width(),
                    h == st0.height(),
                    y < h,
                    x <= w,
                    self.state.thing_table == st0.thing_table,
                    self.state.player_hist == st0.player_hist,
                    self.state.shadow == st0.shadow,
                    self.state.things.wf(),
                    self.state.things.spec_width() == w,
                    self.state.things.spec_height() == h,
                    self.state.tiles.wf(),
                    self.state.tiles.spec_width() == w,
                    self.state.tiles.spec_height() == h,
                    forall|i: int, j: int| 0 <= i < w && 0 <= j < h
                        ==> #[trigger] self.state.things.at(i, j) == (
                            if (j < y || (j == y && i < x)) && st0.things.at(i, j) is Some
                                && st0.tiles.at(i, j) == Tile::Void {
                                None
                            } else {
                                st0.things.at(i, j)
                            }),
                    forall|i: int, j: int| 0 <= i < w && 0 <= j < h
                        ==> #[trigger] self.state.tiles.at(i, j) == (
                            if (j < y || (j == y && i < x)) && st0.things.at(i, j) is Some
                                && st0.tiles.at(i, j) == Tile::Void
                                && st0.kind_of(st0.things.at(i, j)->0) == ThingKind::Box {
                                Tile::Floor
                            } else {
                                st0.tiles.at(i, j)
                            }),
                decreases w - x,
            {
                let cur: Option<usize> = match self.state.things.get(x, y) {
                    Some(cell) => *cell,
                    None => None,
                };
                match cur {
                    Some(id) => {
                        let is_void = match self.state.tiles.get(x, y) {
                            Some(t) => *t == Tile::Void,
                            None => false,
                        };
                        if is_void {
                            proof {
                                assert(st0.things.at(x as int, y as int) == Some(id));
                                assert(st0.occ().dom().contains((x as int, y as int)));
                                assert(st0.occ()[(x as int, y as int)] == id);
                                assert(self.state.meta().dom().contains(id));
                            }
                            self.state.things.set(x, y, None);
                            let entry = self.state.meta_lookup(id);
                            proof {
                                assert(entry == st0.meta()[id]);
                            }
                            match entry.kind {
                                ThingKind::Box => {
                                    self.state.tiles.set(x, y, Tile::Floor);
                                },
                                _ => {},
                            }
                        }
                    },
                    None => {},
                }
                x = x + 1;
            }
            y = y + 1;
        }
        proof {
            let stf = self.state;
            assert forall|p: (int, int)| #[trigger] stf.occ().dom().contains(p)
                implies st0.occ().dom().contains(p)
                    && st0.tile_spec(p.0, p.1) != Tile::Void
                    && stf.occ()[p] == st0.occ()[p] by {
                assert(stf.things.at(p.0, p.1) is Some);
                assert(stf.things.at(p.0, p.1) == st0.things.at(p.0, p.1));
            }
            assert forall|p: (int, int)|
                st0.occ().dom().contains(p) && st0.tile_spec(p.0, p.1) != Tile::Void
                implies #[trigger] stf.occ().dom().contains(p) by {
                assert(st0.things.at(p.0, p.1) is Some);
                assert(stf.things.at(p.0, p.1) == st0.things.at(p.0, p.1));
            }
            assert forall|x: int, y: int| st0.in_bounds(x, y)
                implies #[trigger] stf.tile_spec(x, y) == (
                    if st0.occ().dom().contains((x, y))
                        && st0.tile_spec(x, y) == Tile::Void
                        && st0.kind_of(st0.occ()[(x, y)]) == ThingKind::Box {
                        Tile::Floor
                    } else {
                        st0.tile_spec(x, y)
                    }) by {
                if st0.things.at(x, y) is Some {
                    assert(st0.occ().dom().contains((x, y)));
                    assert(st0.occ()[(x, y)] == st0.things.at(x, y)->0);
                }
            }
            assert forall|p: (int, int), q: (int, int)|
                #[trigger] stf.occ().dom().contains(p) && #[trigger] stf.occ().dom().contains(q)
                    && stf.occ()[p] == stf.occ()[q] implies p == q by {
                assert(st0.occ().dom().contains(p) && st0.occ()[p] == stf.occ()[p]);
                assert(st0.occ().dom().contains(q) && st0.occ()[q] == stf.occ()[q]);
            }
            assert forall|p: (int, int)| #[trigger] stf.occ().dom().contains(p)
                implies stf.meta().dom().contains(stf.occ()[p]) by {
                assert(st0.occ().dom().contains(p) && st0.occ()[p] == stf.occ()[p]);
            }
            assert forall|p: (int, int), q: (int, int)|
                #[trigger] stf.occupied_player(p) && #[trigger] stf.occupied_player(q)
                implies p == q by {
                assert(st0.occ().dom().contains(p) && st0.occ()[p] == stf.occ()[p]);
                assert(st0.occ().dom().contains(q) && st0.occ()[q] == stf.occ()[q]);
                assert(st0.occupied_player(p));
                assert(st0.occupied_player(q));
            }
            assert forall|p: (int, int), q: (int, int)|
                #[trigger] stf.occupied_chest(p) && #[trigger] stf.occupied_chest(q)
                implies p == q by {
                assert(st0.occ().dom().contains(p) && st0.occ()[p] == stf.occ()[p]);
                assert(st0.occ().dom().contains(q) && st0.occ()[q] == stf.occ()[q]);
                assert(st0.occupied_chest(p));
                assert(st0.occupied_chest(q));
            }
            assert(stf.tables_wf());
            assert(stf.meta_keys_unique());
            assert forall|i: int| 0 <= i < stf.hist().len()
                implies stf.in_bounds(#[trigger] stf.hist()[i].2 as int, stf.hist()[i].3 as int) by {
                assert(stf.hist() == st0.hist());
                assert(st0.in_bounds(st0.hist()[i].2 as int, st0.hist()[i].3 as int));
            }
            assert(stf.wf());
        }
    }
}


/// The cells that the shadow walk visits: the target cell of each recorded
/// move, with the three most recent moves held back so the still-forming
/// edge of the trace is not flagged early.
pub open spec fn shadow_positions(hist: Seq<(usize, usize, usize, usize)>) -> Seq<(int, int)> {
    hist.map(|i: int, e: (usize, usize, usize, usize)| (((e.2 as int, e.3 as int))))
        .take(if hist.len() >= 3 { hist.len() - 3 } else { 0 } as int)
}

/// The self-intersection-free path left after walking `ps` with rollback:
/// revisiting a cell discards everything traced since its earlier visit.
pub open spec fn shadow_log(ps: Seq<(int, int)>) -> Seq<(int, int)>
    decreases ps.len(),
{
    if ps.len() == 0 {
        Seq::empty()
    } else {
        let prev = shadow_log(ps.drop_last());
        let p = ps.last();
        if prev.contains(p) {
            prev.take(prev.index_of(p) + 1)
        } else {
            prev.push(p)
        }
    }
}

/// The rolled-back path never repeats a cell and only visits cells that
/// the walk itself visits.
pub proof fn lemma_shadow_log_props(ps: Seq<(int, int)>)
    ensures
        forall|j1: int, j2: int| 0 <= j1 < j2 < shadow_log(ps).len()
            ==> shadow_log(ps)[j1] != shadow_log(ps)[j2],
        forall|j: int| 0 <= j < shadow_log(ps).len() ==> ps.contains(#[trigger] shadow_log(ps)[j]),
    decreases ps.len(),
{
    if ps.len() > 0 {
        let pre = ps.drop_last();
        let prev = shadow_log(pre);
        let p = ps.last();
        let cur = shadow_log(ps);
        lemma_shadow_log_props(pre);
        assert forall|j: int| 0 <= j < prev.len() implies ps.contains(#[trigger] prev[j]) by {
            assert(pre.contains(prev[j]));
            let i = choose|i: int| 0 <= i < pre.len() && pre[i] == prev[j];
            assert(ps[i] == prev[j]);
        }
        assert(ps[ps.len() - 1] == p);
        if prev.contains(p) {
            let idx = prev.index_of(p);
            assert(0 <= idx < prev.len());
            assert forall|j1: int, j2: int| 0 <= j1 < j2 < cur.len()
                implies cur[j1] != cur[j2] by {
                assert(cur[j1] == prev[j1] && cur[j2] == prev[j2]);
            }
        } else {
            assert forall|j1: int, j2: int| 0 <= j1 < j2 < cur.len()
                implies cur[j1] != cur[j2] by {
                if j2 == cur.len() - 1 {
                    assert(cur[j1] == prev[j1] && cur[j2] == p);
                    assert(prev.contains(prev[j1]));
                } else {
                    assert(cur[j1] == prev[j1] && cur[j2] == prev[j2]);
                }
            }
        }
    }
}

impl SokobanKernel {
    /// Recomputes the shadow bitmap from the move history: the walked path
    /// with still-open loops rolled back is marked, everything else is
    /// cleared.
    #[verifier::rlimit(90)]
    fn update_shadow(&mut self)
        requires
            old(self).wf(),
        ensures
            final(self).wf(),
            final(self).st().meta() == old(self).st().meta(),
            final(self).st().hist() == old(self).st().hist(),
            final(self).st().occ() == old(self).st().occ(),
            final(self).st().width() == old(self).st().width(),
            final(self).st().height() == old(self).st().height(),
            forall|x: int, y: int| #[trigger] final(self).st().tile_spec(x, y)
                == old(self).st().tile_spec(x, y),
            forall|x: int, y: int| old(self).st().in_bounds(x, y)
                ==> (#[trigger] final(self).st().shadow_spec(x, y)
                    == shadow_log(shadow_positions(old(self).st().hist())).contains((x, y))),
    {
        let ghost st0 = self.state;
        let ghost ps = shadow_positions(st0.hist());
        self.state.shadow.reset();
        proof {
            assert forall|i: int, j: int| self.state.shadow.in_bounds(i, j)
                implies !(#[trigger] self.state.shadow.at(i, j)) by {
                assert(call_ensures(bool::default, (), self.state.shadow.at(i, j)));
            }
            assert forall|i: int| 0 <= i < ps.len()
                implies st0.in_bounds((#[trigger] ps[i]).0, ps[i].1) by {
                assert(st0.in_bounds(st0.hist()[i].2 as int, st0.hist()[i].3 as int));
            }
        }

        let hist_len = self.state.player_hist.len();
        let count_entries = if hist_len >= 3 { hist_len - 3 } else { 0 };
        proof {
            assert(ps.len() == count_entries);
        }
        let mut log: Vec<(usize, usize)> = Vec::new();
        let mut i: usize = 0;
        while i < count_entries
            invariant
                st0.wf(),
                self.state.tiles == st0.tiles,
                self.state.things == st0.things,
                self.state.thing_table == st0.thing_table,
                self.state.player_hist == st0.player_hist,
                self.state.shadow.wf(),
                self.state.shadow.spec_width() == st0.width(),
                self.state.shadow.spec_height() == st0.height(),
                ps == shadow_positions(st0.hist()),
                forall|k: int| 0 <= k < ps.len()
                    ==> st0.in_bounds((#[trigger] ps[k]).0, ps[k].1),
                i <= count_entries,
                count_entries == ps.len(),
                log@.len() == shadow_log(ps.take(i as int)).len(),
                forall|j: int| 0 <= j < log@.len()
                    ==> (((#[trigger] log@[j]).0 as int, log@[j].1 as int))
                        == shadow_log(ps.take(i as int))[j],
                forall|a: int, b: int| st0.in_bounds(a, b)
                    ==> ((#[trigger] self.state.shadow.at(a, b))
                        <==> shadow_log(ps.take(i as int)).contains((a, b))),
            decreases count_entries - i,
        {
            let ghost lg_prev = shadow_log(ps.take(i as int));
            proof {
                lemma_shadow_log_props(ps.take(i as int));
                assert(ps.take(i as int + 1).drop_last() =~= ps.take(i as int));
                assert(ps.take(i as int + 1).last() == ps[i as int]);
            }
            let e = self.state.player_hist[i];
            let x = e.2;
            let y = e.3;
            proof {
                assert(ps[i as int] == ((x as int, y as int)));
            }
            log.push((x, y));
            let visited = *self.state.shadow.get(x, y).unwrap();

            if visited {
                proof {
                    assert(lg_prev.contains((x as int, y as int)));
                }
                let ghost idx = lg_prev.index_of((x as int, y as int));
                proof {
                    assert(0 <= idx < lg_prev.len());
                    assert(lg_prev[idx] == ((x as int, y as int)));
                }
                let _ = log.pop();
                proof {
                    assert(lg_prev.take(lg_prev.len() as int) =~= lg_prev);
                }
                /* Roll the stale sub-loop back, unmarking each discarded
                 * cell, until the earlier visit of this cell is reached. */
                loop
                    invariant_except_break
                        idx < log@.len(),
                    invariant
                        st0.wf(),
                        self.state.tiles == st0.tiles,
                        self.state.things == st0.things,
                        self.state.thing_table == st0.thing_table,
                        self.state.player_hist == st0.player_hist,
                        self.state.shadow.wf(),
                        self.state.shadow.spec_width() == st0.width(),
                        self.state.shadow.spec_height() == st0.height(),
                        0 <= idx < lg_prev.len(),
                        lg_prev[idx] == ((x as int, y as int)),
                        forall|j1: int, j2: int| 0 <= j1 < j2 < lg_prev.len()
                            ==> lg_prev[j1] != lg_prev[j2],
                        forall|j: int| 0 <= j < lg_prev.len()
                            ==> st0.in_bounds((#[trigger] lg_prev[j]).0, lg_prev[j].1),
                        log@.len() <= lg_prev.len(),
                        forall|j: int| 0 <= j < log@.len()
                            ==> (((#[trigger] log@[j]).0 as int, log@[j].1 as int)) == lg_prev[j],
                        forall|a: int, b: int| st0.in_bounds(a, b)
                            ==> ((#[trigger] self.state.shadow.at(a, b))
                                <==> (lg_prev.take(log@.len() as int).contains((a, b))
                                    || (a, b) == ((x as int, y as int)))),
                    ensures
                        log@.len() == idx,
                    decreases log@.len(),
                {
                    let last = log.pop().unwrap();
                    if last.0 == x && last.1 == y {
                        proof {
                            assert(lg_prev[log@.len() as int] == ((x as int, y as int)));
                            assert(log@.len() == idx);
                        }
                        break;
                    }
                    proof {
                        assert(lg_prev[log@.len() as int] == ((last.0 as int, last.1 as int)));
                        assert(st0.in_bounds(last.0 as int, last.1 as int));
                    }
                    let ghost shadow_pre = self.state.shadow;
                    self.state.shadow.set(last.0, last.1, false);
                    proof {
                        let n = log@.len() as int;
                        assert forall|a: int, b: int| st0.in_bounds(a, b)
                            implies ((#[trigger] self.state.shadow.at(a, b))
                                <==> (lg_prev.take(n).contains((a, b))
                                    || (a, b) == ((x as int, y as int)))) by {
                            if a == last.0 as int && b == last.1 as int {
                                assert forall|j: int| 0 <= j < n
                                    implies lg_prev[j] != ((a, b)) by {
                                    assert(lg_prev[j] != lg_prev[n]);
                                }
                                assert(!lg_prev.take(n).contains((a, b)));
                                assert(((a, b)) != ((x as int, y as int))) by {
                                    assert(lg_prev[n] != lg_prev[idx]);
                                }
                            } else {
                                assert(self.state.shadow.at(a, b) == shadow_pre.at(a, b));
                                if lg_prev.take(n + 1).contains((a, b)) {
                                    let j = choose|j: int| 0 <= j < n + 1
                                        && #[trigger] lg_prev.take(n + 1)[j] == ((a, b));
                                    assert(lg_prev[j] == ((a, b)));
                                    assert(j != n);
                                    assert(lg_prev.take(n)[j] == ((a, b)));
                                }
                                if lg_prev.take(n).contains((a, b)) {
                                    let j = choose|j: int| 0 <= j < n
                                        && #[trigger] lg_prev.take(n)[j] == ((a, b));
                                    assert(lg_prev.take(n + 1)[j] == ((a, b)));
                                }
                            }
                        }
                    }
                }
                log.push((x, y));
                proof {
                    let lg_new = shadow_log(ps.take(i as int + 1));
                    assert(lg_new == lg_prev.take(lg_prev.index_of((x as int, y as int)) + 1));
                    assert(lg_prev.index_of((x as int, y as int)) == idx) by {
                        let idx2 = lg_prev.index_of((x as int, y as int));
                        assert(lg_prev[idx2] == ((x as int, y as int)));
                        if idx2 != idx {
                            assert(lg_prev[idx] != lg_prev[idx2]);
                        }
                    }
                    assert(log@.len() == idx + 1);
                    assert forall|j: int| 0 <= j < log@.len()
                        implies (((#[trigger] log@[j]).0 as int, log@[j].1 as int))
                            == lg_new[j] by {
                        if j < idx {
                            assert(lg_new[j] == lg_prev[j]);
                        } else {
                            assert(lg_new[j] == lg_prev[idx]);
                        }
                    }
                    assert forall|a: int, b: int| st0.in_bounds(a, b)
                        implies ((#[trigger] self.state.shadow.at(a, b))
                            <==> lg_new.contains((a, b))) by {
                        if lg_prev.take(idx).contains((a, b)) {
                            let j = choose|j: int| 0 <= j < idx
                                && #[trigger] lg_prev.take(idx)[j] == ((a, b));
                            assert(lg_new[j] == ((a, b)));
                        }
                        if (a, b) == ((x as int, y as int)) {
                            assert(lg_new[idx] == ((a, b)));
                        }
                        if lg_new.contains((a, b)) {
                            let j = choose|j: int| 0 <= j < lg_new.len() && lg_new[j] == ((a, b));
                            if j < idx {
                                assert(lg_prev.take(idx)[j] == ((a, b)));
                            } else {
                                assert(lg_new[idx] == ((x as int, y as int)));
                            }
                        }
                    }
                }
            } else {
                proof {
                    assert(!lg_prev.contains((x as int, y as int)));
                    let lg_new = shadow_log(ps.take(i as int + 1));
                    assert(lg_new == lg_prev.push((x as int, y as int)));
                    assert forall|j: int| 0 <= j < log@.len()
                        implies (((#[trigger] log@[j]).0 as int, log@[j].1 as int))
                            == lg_new[j] by {
                        if j < log@.len() - 1 {
                            assert(log@[j] == log@.drop_last()[j]);
                        }
                    }
                }
            }
            let ghost shadow_pre2 = self.state.shadow;
            self.state.shadow.set(x, y, true);
            proof {
                let lg_new = shadow_log(ps.take(i as int + 1));
                assert(st0.in_bounds(x as int, y as int));
                assert forall|a: int, b: int| st0.in_bounds(a, b)
                    implies ((#[trigger] self.state.shadow.at(a, b))
                        <==> lg_new.contains((a, b))) by {
                    if a == x as int && b == y as int {
                        assert(lg_new[lg_new.len() - 1] == ((a, b)));
                    } else {
                        assert(self.state.shadow.at(a, b) == shadow_pre2.at(a, b));
                        if visited {
                        } else {
                            if lg_new.contains((a, b)) {
                                let j = choose|j: int| 0 <= j < lg_new.len()
                                    && lg_new[j] == ((a, b));
                                assert(j < lg_new.len() - 1);
                                assert(shadow_log(ps.take(i as int))[j] == ((a, b)));
                            }
                            if shadow_log(ps.take(i as int)).contains((a, b)) {
                                let j = choose|j: int| 0 <= j < shadow_log(ps.take(i as int)).len()
                                    && shadow_log(ps.take(i as int))[j] == ((a, b));
                                assert(lg_new[j] == ((a, b)));
                            }
                        }
                    }
                }
            }
            i = i + 1;
        }
        proof {
            assert(ps.take(count_entries as int) =~= ps);
            let stf = self.state;
            assert(stf.occ() == st0.occ());
            assert(stf.meta() == st0.meta());
            assert(stf.hist() == st0.hist());
            assert(stf.width() == st0.width() && stf.height() == st0.height());
            assert(stf.tables_wf());
            assert(stf.meta_keys_unique()) by {
                assert(stf.thing_table@ == st0.thing_table@);
            }
            assert forall|p: (int, int)| #[trigger] stf.occ().dom().contains(p)
                implies stf.meta().dom().contains(stf.occ()[p]) by {
                assert(st0.occ().dom().contains(p));
            }
            assert forall|p: (int, int), q: (int, int)|
                #[trigger] stf.occ().dom().contains(p) && #[trigger] stf.occ().dom().contains(q)
                    && stf.occ()[p] == stf.occ()[q] implies p == q by {
                assert(st0.occ().dom().contains(p) && st0.occ().dom().contains(q));
            }
            assert forall|p: (int, int), q: (int, int)|
                #[trigger] stf.occupied_player(p) && #[trigger] stf.occupied_player(q)
                implies p == q by {
                assert(st0.occupied_player(p) && st0.occupied_player(q));
            }
            assert forall|p: (int, int), q: (int, int)|
                #[trigger] stf.occupied_chest(p) && #[trigger] stf.occupied_chest(q)
                implies p == q by {
                assert(st0.occupied_chest(p) && st0.occupied_chest(q));
            }
            assert forall|i: int| 0 <= i < stf.hist().len()
                implies stf.in_bounds(#[trigger] stf.hist()[i].2 as int, stf.hist()[i].3 as int) by {
                assert(st0.in_bounds(st0.hist()[i].2 as int, st0.hist()[i].3 as int));
            }
            assert(stf.wf());
        }
    }
}


/// A failed chain reports where it hit the wall or the edge — never any
/// other error kind. In particular a resolution can never report a
/// collision loop: pushes advance strictly along one ray.
pub proof fn lemma_chain_err_kind(st: State, p: (int, int), m: usize, d: Direction)
    ensures
        st.chain_from(p, m, d) is Err ==> {
            let e = st.chain_from(p, m, d)->Err_0;
            e matches SokobanError::MovedOutOfRange { .. }
                || e matches SokobanError::BumpedIntoWall { .. }
        },
    decreases st.chain_fuel(p, d),
{
    let t = step_pos(p, d);
    if !st.in_bounds(t.0, t.1) {
    } else if st.tile_spec(t.0, t.1) == Tile::Wall {
    } else if !st.occ().dom().contains(t) {
    } else if st.kind_of(m) == ThingKind::Player
        && st.kind_of(st.occ()[t]) == ThingKind::Chest {
    } else {
        lemma_chain_err_kind(st, t, st.occ()[t], d);
    }
}

impl SokobanKernel {
    /// The single mutating entry point: resolves the player's one-step move
    /// in `dir`, commits the whole push chain or nothing, drops things that
    /// ended over `Void` (a fallen box plugs the hole), records the move and
    /// recomputes the shadow. On any error the kernel is left exactly as it
    /// was.
    pub fn move_player(&mut self, dir: Direction) -> (r: Result<(), SokobanError>)
        requires
            old(self).wf(),
        ensures
            final(self).wf(),
            r is Err ==> *final(self) == *old(self),
            (r == Err::<(), SokobanError>(SokobanError::NoPlayer)) <==> !old(self).st().has_player(),
            old(self).st().has_player() ==> ({
                let st0 = old(self).st();
                let p0 = st0.player_pos();
                let chain = st0.chain_from(p0, st0.player_id(), dir);
                match r {
                    Err(e) => chain is Err && chain->Err_0 == e,
                    Ok(_) => ({
                        let moves = chain->Ok_0;
                        let mid = commit_occ(st0.occ(), moves, dir);
                        let hist1 = st0.hist().push(((
                            p0.0 as usize,
                            p0.1 as usize,
                            (p0.0 + dir.dx()) as usize,
                            (p0.1 + dir.dy()) as usize,
                        )));
                        &&& chain is Ok
                        &&& final(self).st().width() == st0.width()
                        &&& final(self).st().height() == st0.height()
                        &&& final(self).st().meta() == st0.meta()
                        &&& final(self).st().hist() == hist1
                        &&& forall|p: (int, int)| #[trigger] final(self).st().occ().dom().contains(p)
                            <==> (mid.dom().contains(p) && st0.tile_spec(p.0, p.1) != Tile::Void)
                        &&& forall|p: (int, int)| #[trigger] final(self).st().occ().dom().contains(p)
                            ==> final(self).st().occ()[p] == mid[p]
                        &&& forall|x: int, y: int| st0.in_bounds(x, y)
                            ==> #[trigger] final(self).st().tile_spec(x, y) == (
                                if mid.dom().contains((x, y)) && st0.tile_spec(x, y) == Tile::Void
                                    && st0.kind_of(mid[(x, y)]) == ThingKind::Box {
                                    Tile::Floor
                                } else {
                                    st0.tile_spec(x, y)
                                })
                        &&& forall|x: int, y: int| st0.in_bounds(x, y)
                            ==> (#[trigger] final(self).st().shadow_spec(x, y)
                                == shadow_log(shadow_positions(hist1)).contains((x, y)))
                    }),
                }
            }),
    {
        let ghost st0 = self.state;
        let pt = match self.state.player_thing() {
            Some(t) => t,
            None => {
                return Err(SokobanError::NoPlayer);
            },
        };
        let (px, py, pid, _entry) = pt;
        proof {
            assert(st0.player_pos() == ((px as int, py as int)));
            assert(st0.player_id() == pid);
            lemma_chain_err_kind(st0, (px as int, py as int), pid, dir);
        }
        let np = dir.apply(px, py);

        match self.solve_collisions((px, py, dir, pid)) {
            Ok(_) => {},
            Err(e) => {
                return Err(e);
            },
        }
        let ghost mid_state = self.state;

        self.handle_void_fall();
        let ghost after_fall = self.state;

        /* Everything has been accepted: record the player move. */
        proof {
            let chain = st0.chain_from((px as int, py as int), pid, dir);
            lemma_chain_props(st0, (px as int, py as int), pid, dir);
            let t = step_pos((px as int, py as int), dir);
            assert(st0.in_bounds(t.0, t.1));
            assert(np == ((t.0 as usize, t.1 as usize))) by {
                if dir == Direction::Left {
                    assert(px > 0);
                } else if dir == Direction::Up {
                    assert(py > 0);
                } else if dir == Direction::Right {
                    st0.tiles.lemma_dims_in_range();
                    assert(px as int + 1 < st0.width());
                    assert(px < usize::MAX);
                } else {
                    st0.tiles.lemma_dims_in_range();
                    assert(py as int + 1 < st0.height());
                    assert(py < usize::MAX);
                }
            }
        }
        self.state.player_hist.push((px, py, np.0, np.1));
        proof {
            let stp = self.state;
            assert(stp.occ() == after_fall.occ());
            assert(stp.meta() == after_fall.meta());
            assert(stp.hist() == after_fall.hist().push((px, py, np.0, np.1)));
            assert forall|i: int| 0 <= i < stp.hist().len()
                implies stp.in_bounds(#[trigger] stp.hist()[i].2 as int, stp.hist()[i].3 as int) by {
                if i < stp.hist().len() - 1 {
                    assert(after_fall.in_bounds(after_fall.hist()[i].2 as int,
                        after_fall.hist()[i].3 as int));
                }
            }
            assert forall|p: (int, int), q: (int, int)|
                #[trigger] stp.occupied_player(p) && #[trigger] stp.occupied_player(q)
                implies p == q by {
                assert(after_fall.occupied_player(p) && after_fall.occupied_player(q));
            }
            assert forall|p: (int, int), q: (int, int)|
                #[trigger] stp.occupied_chest(p) && #[trigger] stp.occupied_chest(q)
                implies p == q by {
                assert(after_fall.occupied_chest(p) && after_fall.occupied_chest(q));
            }
            assert(stp.wf());
        }
        let ghost hist1 = self.state.hist();

        self.update_shadow();
        proof {
            let stf = self.state;
            let chain = st0.chain_from((px as int, py as int), pid, dir);
            let moves = chain->Ok_0;
            let mid = commit_occ(st0.occ(), moves, dir);
            assert(mid_state.occ() == mid);
            assert(stf.hist() == hist1);
            assert forall|p: (int, int)| #[trigger] stf.occ().dom().contains(p)
                implies (mid.dom().contains(p) && st0.tile_spec(p.0, p.1) != Tile::Void)
                    && stf.occ()[p] == mid[p] by {
                assert(after_fall.occ().dom().contains(p));
                assert(mid_state.tile_spec(p.0, p.1) == st0.tile_spec(p.0, p.1));
            }
            assert forall|p: (int, int)|
                mid.dom().contains(p) && st0.tile_spec(p.0, p.1) != Tile::Void
                implies #[trigger] stf.occ().dom().contains(p) by {
                assert(mid_state.tile_spec(p.0, p.1) == st0.tile_spec(p.0, p.1));
                assert(after_fall.occ().dom().contains(p));
            }
            let p0 = st0.player_pos();
            let hist1s = st0.hist().push(((
                p0.0 as usize,
                p0.1 as usize,
                (p0.0 + dir.dx()) as usize,
                (p0.1 + dir.dy()) as usize,
            )));
            assert(chain is Ok);
            assert(stf.width() == st0.width());
            assert(stf.height() == st0.height());
            assert(stf.meta() == st0.meta());
            assert(hist1 == hist1s);
            assert(stf.hist() == hist1s);
            assert forall|x: int, y: int| st0.in_bounds(x, y)
                implies #[trigger] stf.tile_spec(x, y) == (
                    if mid.dom().contains((x, y)) && st0.tile_spec(x, y) == Tile::Void
                        && st0.kind_of(mid[(x, y)]) == ThingKind::Box {
                        Tile::Floor
                    } else {
                        st0.tile_spec(x, y)
                    }) by {
                assert(mid_state.tile_spec(x, y) == st0.tile_spec(x, y));
                assert(after_fall.tile_spec(x, y) == (
                    if mid_state.occ().dom().contains((x, y))
                        && mid_state.tile_spec(x, y) == Tile::Void
                        && mid_state.kind_of(mid_state.occ()[(x, y)]) == ThingKind::Box {
                        Tile::Floor
                    } else {
                        mid_state.tile_spec(x, y)
                    }));
                assert(stf.tile_spec(x, y) == after_fall.tile_spec(x, y));
            }
            assert forall|x: int, y: int| st0.in_bounds(x, y)
                implies (#[trigger] stf.shadow_spec(x, y)
                    == shadow_log(shadow_positions(hist1s)).contains((x, y))) by {
            }
        }
        Ok(())
    }
}


/// The scan state "last cell was marked" after reading `n` cells of row `y`.
pub open spec fn row_prev(f: spec_fn(int, int) -> bool, y: int, n: int) -> bool {
    n > 0 && f(n - 1, y)
}

/// The crossing count after scanning `n` cells of row `y`: the number of
/// clear-to-marked (rising) edges seen so far, the row's start counting as
/// clear.
pub open spec fn row_change_count(f: spec_fn(int, int) -> bool, y: int, n: int) -> int
    decreases n,
{
    if n <= 0 {
        0
    } else {
        row_change_count(f, y, n - 1)
            + if !row_prev(f, y, n - 1) && f(n - 1, y) { 1int } else { 0int }
    }
}

pub open spec fn row_touched(f: spec_fn(int, int) -> bool, y: int, n: int) -> bool {
    exists|x: int| 0 <= x < n && #[trigger] f(x, y)
}

/// A row is flagged when its crossing count — its rising edges, plus one
/// extra if the row ends on a marked cell — is odd and the row holds a
/// mark at all. A simple closed curve crosses a scanline an even number of
/// times, so an odd count signals a degenerate or self-touching trace.
pub open spec fn row_flagged(f: spec_fn(int, int) -> bool, y: int, w: int) -> bool {
    (row_change_count(f, y, w) + if row_prev(f, y, w) { 1int } else { 0int }) % 2 == 1
        && row_touched(f, y, w)
}

/// The even-odd scan reports when some row is flagged.
pub open spec fn scan_detects(f: spec_fn(int, int) -> bool, w: int, h: int) -> bool {
    exists|y: int| 0 <= y < h && row_flagged(f, y, w)
}

/// Rows that agree cell for cell get the same scan verdict.
pub proof fn lemma_row_scan_congruence(
    f1: spec_fn(int, int) -> bool,
    f2: spec_fn(int, int) -> bool,
    y: int,
    n: int,
)
    requires
        forall|x: int| 0 <= x < n ==> #[trigger] f1(x, y) == f2(x, y),
    ensures
        row_change_count(f1, y, n) == row_change_count(f2, y, n),
        row_prev(f1, y, n) == row_prev(f2, y, n),
        row_touched(f1, y, n) == row_touched(f2, y, n),
    decreases n,
{
    if n > 0 {
        lemma_row_scan_congruence(f1, f2, y, n - 1);
        if row_touched(f1, y, n) {
            let x = choose|x: int| 0 <= x < n && #[trigger] f1(x, y);
            assert(f2(x, y));
        }
        if row_touched(f2, y, n) {
            let x = choose|x: int| 0 <= x < n && #[trigger] f2(x, y);
            assert(f1(x, y));
        }
    }
}

/// Tables that agree on every cell get the same verdict.
pub proof fn lemma_scan_congruence(
    f1: spec_fn(int, int) -> bool,
    f2: spec_fn(int, int) -> bool,
    w: int,
    h: int,
)
    requires
        forall|x: int, y: int| 0 <= x < w && 0 <= y < h ==> #[trigger] f1(x, y) == f2(x, y),
    ensures
        scan_detects(f1, w, h) == scan_detects(f2, w, h),
{
    assert forall|y: int| 0 <= y < h
        implies row_flagged(f1, y, w) == row_flagged(f2, y, w) by {
        lemma_row_scan_congruence(f1, f2, y, w);
    }
    if scan_detects(f1, w, h) {
        let y = choose|y: int| 0 <= y < h && #[trigger] row_flagged(f1, y, w);
        assert(row_flagged(f2, y, w));
    }
    if scan_detects(f2, w, h) {
        let y = choose|y: int| 0 <= y < h && #[trigger] row_flagged(f2, y, w);
        assert(row_flagged(f1, y, w));
    }
}

/// `(x, y)` is one of the listed cells.
pub open spec fn marks_cell(cyc: Seq<(usize, usize)>, x: int, y: int) -> bool {
    exists|j: int| 0 <= j < cyc.len()
        && (((#[trigger] cyc[j]).0 as int, cyc[j].1 as int)) == ((x, y))
}

impl SokobanKernel {
    /// The scanline parity check. Rows are scanned left to right, counting
    /// clear-to-marked (rising) edges, plus one extra if the row ends on a
    /// marked cell; a row with marks and an odd total is the witness. A
    /// simple closed curve crosses any scanline an even number of times, so
    /// an odd count signals a degenerate or self-touching trace.
    pub fn even_odd_check(table: &Table<bool>) -> (r: bool)
        requires
            table.wf(),
            table.spec_width() < usize::MAX,
        ensures
            r == scan_detects(
                (|x: int, y: int| table.at(x, y)),
                table.spec_width(),
                table.spec_height(),
            ),
    {
        let ghost f = (|x: int, y: int| table.at(x, y));
        let w = table.width();
        let h = table.height();
        let mut y: usize = 0;
        while y < h
            invariant
                table.wf(),
                f == (|x: int, y: int| table.at(x, y)),
                w == table.spec_width(),
                h == table.spec_height(),
                w < usize::MAX,
                y <= h,
                forall|yy: int| 0 <= yy < y ==> !row_flagged(f, yy, w as int),
            decreases h - y,
        {
            let mut touched = false;
            let mut last = false;
            let mut change_count: usize = 0;
            let mut x: usize = 0;
            while x < w
                invariant
                    table.wf(),
                    f == (|x: int, y: int| table.at(x, y)),
                    w == table.spec_width(),
                    h == table.spec_height(),
                    w < usize::MAX,
                    y < h,
                    x <= w,
                    change_count == row_change_count(f, y as int, x as int),
                    change_count <= x,
                    last == row_prev(f, y as int, x as int),
                    touched == row_touched(f, y as int, x as int),
                decreases w - x,
            {
                let curr = *table.get(x, y).unwrap();
                proof {
                    assert(curr == f(x as int, y as int));
                    if curr {
                        assert(row_touched(f, y as int, x as int + 1));
                    } else {
                        if row_touched(f, y as int, x as int + 1) {
                            let xx = choose|xx: int| 0 <= xx < x as int + 1 && #[trigger] f(xx, y as int);
                            assert(xx < x as int);
                            assert(row_touched(f, y as int, x as int));
                        }
                    }
                }
                if curr {
                    touched = true;
                }
                if !last && curr {
                    change_count = change_count + 1;
                }
                last = curr;
                x = x + 1;
            }

            if last {
                change_count = change_count + 1;
            }

            if change_count % 2 == 1 && touched {
                proof {
                    assert(row_flagged(f, y as int, w as int));
                }
                return true;
            }
            proof {
                assert(!row_flagged(f, y as int, w as int));
            }
            y = y + 1;
        }
        proof {
            if scan_detects(f, w as int, h as int) {
                let yy = choose|yy: int| 0 <= yy < h as int && #[trigger] row_flagged(f, yy, w as int);
                assert(!row_flagged(f, yy, w as int));
            }
        }
        false
    }

    /// Marks the given cells on a grid-sized table (cells off the grid are
    /// ignored) and runs the even-odd check on it, validating a candidate
    /// closed path against the grid: a flagged row exposes a scanline that
    /// crosses the trace an odd number of times.
    pub fn check_cycle(&self, cyc: &Vec<(usize, usize)>) -> (r: bool)
        requires
            self.wf(),
            self.st().width() < usize::MAX,
        ensures
            r == scan_detects(
                (|x: int, y: int| marks_cell(cyc@, x, y)),
                self.st().width(),
                self.st().height(),
            ),
    {
        let w = self.state.tiles.width();
        let h = self.state.tiles.height();
        proof {
            self.state.tiles.lemma_size_bound();
        }
        let mut vst: Table<bool> = Table::new_filled(w, h);
        proof {
            assert forall|i: int, j: int| vst.in_bounds(i, j)
                implies !(#[trigger] vst.at(i, j)) by {
                assert(call_ensures(bool::default, (), vst.at(i, j)));
            }
        }

        let mut i: usize = 0;
        while i < cyc.len()
            invariant
                i <= cyc@.len(),
                vst.wf(),
                vst.spec_width() == self.st().width(),
                vst.spec_height() == self.st().height(),
                forall|a: int, b: int| vst.in_bounds(a, b)
                    ==> ((#[trigger] vst.at(a, b)) <==> exists|j: int| 0 <= j < i
                        && (((#[trigger] cyc@[j]).0 as int, cyc@[j].1 as int)) == ((a, b))),
            decreases cyc@.len() - i,
        {
            let (cx, cy) = cyc[i];
            let ghost vst_pre = vst;
            vst.set(cx, cy, true);
            proof {
                assert forall|a: int, b: int| vst.in_bounds(a, b)
                    implies ((#[trigger] vst.at(a, b)) <==> exists|j: int| 0 <= j < i + 1
                        && (((#[trigger] cyc@[j]).0 as int, cyc@[j].1 as int)) == ((a, b))) by {
                    if a == cx as int && b == cy as int {
                        assert(((cyc@[i as int].0 as int, cyc@[i as int].1 as int)) == ((a, b)));
                    } else {
                        assert(vst.at(a, b) == vst_pre.at(a, b));
                        if exists|j: int| 0 <= j < i + 1
                            && (((#[trigger] cyc@[j]).0 as int, cyc@[j].1 as int)) == ((a, b)) {
                            let j = choose|j: int| 0 <= j < i + 1
                                && (((#[trigger] cyc@[j]).0 as int, cyc@[j].1 as int)) == ((a, b));
                            assert(j != i as int);
                        }
                    }
                }
            }
            i = i + 1;
        }

        let r = Self::even_odd_check(&vst);
        proof {
            lemma_scan_congruence(
                (|x: int, y: int| vst.at(x, y)),
                (|x: int, y: int| marks_cell(cyc@, x, y)),
                self.st().width(),
                self.st().height(),
            );
        }
        r
    }
}


impl Default for SokobanKernel {
    fn default() -> (r: Self)
        ensures
            r.wf(),
            r.st().width() == 0,
            r.st().height() == 0,
            r.st().occ() == Map::<(int, int), usize>::empty(),
            r.st().meta() == Map::<usize, ThingEntry>::empty(),
            r.st().hist() == Seq::<(usize, usize, usize, usize)>::empty(),
    {
        Self::new()
    }
}

/// The cell `i` steps from `p` along direction `d`.
pub open spec fn ray(p: (int, int), d: Direction, i: int) -> (int, int) {
    (p.0 + i * d.dx(), p.1 + i * d.dy())
}

/// How cells along a ray compose.
pub proof fn lemma_ray(p: (int, int), d: Direction, i: int)
    ensures
        ray(p, d, 0) == p,
        step_pos(ray(p, d, i), d) == ray(p, d, i + 1),
        ray(ray(p, d, 1), d, i) == ray(p, d, i + 1),
{
    match d {
        Direction::Left => {},
        Direction::Up => {},
        Direction::Right => {},
        Direction::Down => {},
    }
}

/// Chain push: when `k` boxes stand in a row ahead of the mover at `p` and
/// the cell behind the last box is on the grid, not a wall and free, the
/// resolution succeeds and consists of exactly the `k + 1` moves that shift
/// the mover and each box one step along `d`.
pub proof fn lemma_chain_push(st: State, p: (int, int), m: usize, d: Direction, k: nat)
    requires
        st.wf(),
        st.occ().dom().contains(p),
        st.occ()[p] == m,
        forall|i: int| 1 <= i <= k ==> st.occ().dom().contains(#[trigger] ray(p, d, i))
            && st.kind_of(st.occ()[ray(p, d, i)]) == ThingKind::Box,
        forall|i: int| 1 <= i <= k + 1
            ==> st.in_bounds((#[trigger] ray(p, d, i)).0, ray(p, d, i).1),
        forall|i: int| 1 <= i <= k + 1
            ==> st.tile_spec((#[trigger] ray(p, d, i)).0, ray(p, d, i).1) != Tile::Wall,
        !st.occ().dom().contains(ray(p, d, k as int + 1)),
    ensures
        st.chain_from(p, m, d) is Ok,
        st.chain_from(p, m, d)->Ok_0.len() == k + 1,
        forall|i: int| 0 <= i <= k
            ==> (#[trigger] st.chain_from(p, m, d)->Ok_0[i])
                == ((ray(p, d, i), st.occ()[ray(p, d, i)])),
    decreases k,
{
    lemma_ray(p, d, 0);
    let t = step_pos(p, d);
    assert(ray(p, d, 1) == t);
    let moves = st.chain_from(p, m, d)->Ok_0;
    if k == 0 {
        assert(!st.occ().dom().contains(t));
        assert(st.chain_from(p, m, d) == Ok::<_, SokobanError>(seq![(p, m)]));
    } else {
        assert(st.occ().dom().contains(t) && st.kind_of(st.occ()[t]) == ThingKind::Box);
        let m1 = st.occ()[t];
        assert forall|i: int| 1 <= i <= k - 1
            implies st.occ().dom().contains(#[trigger] ray(t, d, i))
                && st.kind_of(st.occ()[ray(t, d, i)]) == ThingKind::Box by {
            lemma_ray(p, d, i);
            assert(ray(t, d, i) == ray(p, d, i + 1));
        }
        assert forall|i: int| 1 <= i <= k
            implies st.in_bounds((#[trigger] ray(t, d, i)).0, ray(t, d, i).1)
                && st.tile_spec(ray(t, d, i).0, ray(t, d, i).1) != Tile::Wall by {
            lemma_ray(p, d, i);
            assert(ray(t, d, i) == ray(p, d, i + 1));
        }
        lemma_ray(p, d, k as int);
        assert(ray(t, d, k - 1 + 1) == ray(p, d, k as int + 1));
        lemma_chain_push(st, t, m1, d, (k - 1) as nat);
        let rest = st.chain_from(t, m1, d)->Ok_0;
        assert(st.chain_from(p, m, d) == Ok::<_, SokobanError>(seq![(p, m)].add(rest)));
        assert forall|i: int| 0 <= i <= k
            implies (#[trigger] st.chain_from(p, m, d)->Ok_0[i])
                == ((ray(p, d, i), st.occ()[ray(p, d, i)])) by {
            if i > 0 {
                lemma_ray(p, d, i - 1);
                assert(moves[i] == rest[i - 1]);
                assert(rest[i - 1] == ((ray(t, d, i - 1), st.occ()[ray(t, d, i - 1)])));
                assert(ray(t, d, i - 1) == ray(p, d, i));
            }
        }
    }
}

/// Blocked chain push: when the cell behind the `k`-th box is a wall, the
/// resolution fails with `BumpedIntoWall` at the last box — and by
/// `move_player`'s contract nothing changes.
pub proof fn lemma_chain_push_blocked(st: State, p: (int, int), m: usize, d: Direction, k: nat)
    requires
        st.wf(),
        st.occ().dom().contains(p),
        st.occ()[p] == m,
        forall|i: int| 1 <= i <= k ==> st.occ().dom().contains(#[trigger] ray(p, d, i))
            && st.kind_of(st.occ()[ray(p, d, i)]) == ThingKind::Box,
        forall|i: int| 1 <= i <= k + 1
            ==> st.in_bounds((#[trigger] ray(p, d, i)).0, ray(p, d, i).1),
        forall|i: int| 1 <= i <= k
            ==> st.tile_spec((#[trigger] ray(p, d, i)).0, ray(p, d, i).1) != Tile::Wall,
        st.tile_spec(ray(p, d, k as int + 1).0, ray(p, d, k as int + 1).1) == Tile::Wall,
    ensures
        st.chain_from(p, m, d) == Err::<Seq<((int, int), usize)>, SokobanError>(
            SokobanError::BumpedIntoWall {
                x: ray(p, d, k as int).0 as usize,
                y: ray(p, d, k as int).1 as usize,
                dir: d,
            }),
    decreases k,
{
    lemma_ray(p, d, 0);
    let t = step_pos(p, d);
    assert(ray(p, d, 1) == t);
    if k == 0 {
    } else {
        assert(st.occ().dom().contains(t) && st.kind_of(st.occ()[t]) == ThingKind::Box);
        let m1 = st.occ()[t];
        assert forall|i: int| 1 <= i <= k - 1
            implies st.occ().dom().contains(#[trigger] ray(t, d, i))
                && st.kind_of(st.occ()[ray(t, d, i)]) == ThingKind::Box by {
            lemma_ray(p, d, i);
        }
        assert forall|i: int| 1 <= i <= k
            implies st.in_bounds((#[trigger] ray(t, d, i)).0, ray(t, d, i).1) by {
            lemma_ray(p, d, i);
        }
        assert forall|i: int| 1 <= i <= k - 1
            implies st.tile_spec((#[trigger] ray(t, d, i)).0, ray(t, d, i).1) != Tile::Wall by {
            lemma_ray(p, d, i);
        }
        lemma_ray(p, d, k as int);
        assert(ray(t, d, k - 1 + 1) == ray(p, d, k as int + 1));
        lemma_chain_push_blocked(st, t, m1, d, (k - 1) as nat);
        lemma_ray(p, d, k - 1);
        assert(ray(t, d, k - 1) == ray(p, d, k as int));
    }
}

/// Chest pass-through: a player moving onto the chest's cell succeeds with
/// a one-move chain; the committed occupancy has the player on the chest's
/// former cell, the chest is collected rather than displaced, and no other
/// cell changes.
pub proof fn lemma_chest_passthrough(st: State, d: Direction)
    requires
        st.wf(),
        st.has_player(),
        ({
            let t = step_pos(st.player_pos(), d);
            &&& st.in_bounds(t.0, t.1)
            &&& st.tile_spec(t.0, t.1) != Tile::Wall
            &&& st.occ().dom().contains(t)
            &&& st.kind_of(st.occ()[t]) == ThingKind::Chest
        }),
    ensures
        ({
            let p = st.player_pos();
            let t = step_pos(p, d);
            let chain = st.chain_from(p, st.player_id(), d);
            &&& chain == Ok::<_, SokobanError>(seq![(p, st.player_id())])
            &&& ({
                let res = commit_occ(st.occ(), chain->Ok_0, d);
                &&& res.dom().contains(t) && res[t] == st.player_id()
                &&& !res.dom().contains(p)
                &&& forall|q: (int, int)| q != p && q != t ==> (
                    (#[trigger] res.dom().contains(q) <==> st.occ().dom().contains(q))
                    && (res.dom().contains(q) ==> res[q] == st.occ()[q]))
            })
        }),
{
    let p = st.player_pos();
    assert(st.occupied_player(p));
    let m = st.player_id();
    let t = step_pos(p, d);
    assert(st.kind_of(m) == ThingKind::Player);
    let chain = st.chain_from(p, m, d);
    assert(chain == Ok::<_, SokobanError>(seq![(p, m)]));
    lemma_commit_props(st, p, m, d);
    let moves = chain->Ok_0;
    let res = commit_occ(st.occ(), moves, d);
    assert forall|q: (int, int)| q != p && q != t
        implies ((#[trigger] res.dom().contains(q) <==> st.occ().dom().contains(q))
            && (res.dom().contains(q) ==> res[q] == st.occ()[q])) by {
        assert(!chain_source(moves, q)) by {
            if chain_source(moves, q) {
                let j = choose|j: int| 0 <= j < moves.len() && (#[trigger] moves[j]).0 == q;
                assert(moves[0].0 == p);
            }
        }
        assert(!chain_dest(moves, d, q)) by {
            if chain_dest(moves, d, q) {
                let j = choose|j: int| 0 <= j < moves.len()
                    && step_pos((#[trigger] moves[j]).0, d) == q;
                assert(step_pos(moves[0].0, d) == t);
            }
        }
    }
}


/// Void absorption: when a resolved chain pushes a box onto a `Void` tile,
/// the committed occupancy has that box on the void cell — so by
/// `move_player`'s contract the cleanup pass removes it there and rewrites
/// that tile to `Floor`, after which the cell behaves as plain floor.
pub proof fn lemma_void_absorption(st: State, p: (int, int), m: usize, d: Direction, j: int)
    requires
        st.wf(),
        st.occ().dom().contains(p),
        st.occ()[p] == m,
        st.chain_from(p, m, d) matches Ok(_),
        0 <= j < st.chain_from(p, m, d)->Ok_0.len(),
    ensures
        ({
            let moves = st.chain_from(p, m, d)->Ok_0;
            let t = step_pos(moves[j].0, d);
            let mid = commit_occ(st.occ(), moves, d);
            &&& mid.dom().contains(t)
            &&& mid[t] == moves[j].1
            &&& st.kind_of(mid[t]) == st.kind_of(st.occ()[moves[j].0])
        }),
{
    lemma_chain_props(st, p, m, d);
    lemma_commit_props(st, p, m, d);
    let moves = st.chain_from(p, m, d)->Ok_0;
    let mid = commit_occ(st.occ(), moves, d);
    assert(mid.dom().contains(step_pos(moves[j].0, d))) by {
        assert(chain_dest(moves, d, step_pos(moves[j].0, d)));
    }
}
} // verus!
