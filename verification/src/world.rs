//! The game-world data model: tile grids, the entities placed on them,
//! and the players bound to those entities.

use vstd::prelude::*;
use crate::countermap::CounterMap;

verus! {

pub const TILE_WIDTH: usize = 16;

pub const TILE_HEIGHT: usize = 16;

pub type MapId = usize;

pub type EntityId = usize;

pub type PlayerId = usize;

/// A position on one map: column, then row.
pub type Pos = (u16, u16);

/// A direction of one step of movement.
#[derive(Clone, Copy, Debug, PartialEq, Eq)]
pub enum Dir {
    Up,
    Down,
    Left,
    Right,
}

/// A location valid across the whole world: a map and a position on it.
#[derive(Clone, Copy, Debug, PartialEq, Eq)]
pub struct MapLoc {
    pub map_id: MapId,
    pub pos: Pos,
}

/// One cell of a map's grid. Tiles never change once a map is built.
#[derive(Clone, Copy, Debug, PartialEq, Eq)]
pub enum Tile {
    Ground,
    Wall,
    /// A portal to another map and position.
    Link(MapLoc),
    /// A door, open or closed.
    Door(bool),
}

/// An occupant of one map: a position and the glyph drawn there. It is
/// owned by the map that allocated it and addressed by an entity id
/// scoped to that map.
#[derive(Clone, Copy, Debug, PartialEq, Eq)]
pub struct Entity {
    pub pos: Pos,
    pub sprite: u8,
}

impl Entity {
    pub fn new(pos: Pos, sprite: u8) -> (r: Self)
        ensures
            r == (Entity { pos, sprite }),
    {
        Entity { pos, sprite }
    }
}

/// The identity bound to one connected client: a name and a back
/// reference to the entity it controls. It does not own the entity.
pub struct Player {
    pub name: String,
    pub map_id: MapId,
    pub entity_id: EntityId,
}

/// A player as a mathematical value.
#[verifier::ext_equal]
pub struct PlayerModel {
    pub name: Seq<char>,
    pub map_id: MapId,
    pub entity_id: EntityId,
}

impl Player {
    pub open spec fn model(&self) -> PlayerModel {
        PlayerModel { name: self.name@, map_id: self.map_id, entity_id: self.entity_id }
    }
}

/// A map as a mathematical value: its size, its grid in row-major
/// order, and its entity store.
#[verifier::ext_equal]
pub struct MapModel {
    pub width: u16,
    pub height: u16,
    pub tiles: Seq<Tile>,
    pub entities: Seq<Option<Entity>>,
}

/// Whether `pos` names a cell of the grid.
pub open spec fn in_bounds(m: MapModel, pos: Pos) -> bool {
    pos.0 < m.width && pos.1 < m.height
}

/// The row-major index of `pos` in the grid.
pub open spec fn tile_index(m: MapModel, pos: Pos) -> int {
    pos.1 as int * m.width as int + pos.0 as int
}

/// The tile under `pos`.
pub open spec fn tile_at(m: MapModel, pos: Pos) -> Tile {
    m.tiles[tile_index(m, pos)]
}

/// Whether some live entity stands on `pos`.
pub open spec fn occupied(entities: Seq<Option<Entity>>, pos: Pos) -> bool {
    exists|i: int|
        0 <= i < entities.len() && ((#[trigger] entities[i]) matches Some(e) && e.pos == pos)
}

/// Whether an entity may be placed on `pos`: the tile is ground and no
/// entity stands there. Checked at placement time only.
pub open spec fn can_place(m: MapModel, pos: Pos) -> bool {
    tile_at(m, pos) == Tile::Ground && !occupied(m.entities, pos)
}

/// The map after an entity with glyph `sprite` is placed on `pos`.
pub open spec fn place_entity(m: MapModel, pos: Pos, sprite: u8) -> MapModel {
    MapModel { entities: m.entities.push(Some(Entity { pos, sprite })), ..m }
}

/// The coordinates one step from `pos` in direction `dir`, as unbounded
/// numbers.
pub open spec fn step_pos(pos: Pos, dir: Dir) -> (int, int) {
    match dir {
        Dir::Up => (pos.0 as int, pos.1 as int - 1),
        Dir::Down => (pos.0 as int, pos.1 as int + 1),
        Dir::Left => (pos.0 as int - 1, pos.1 as int),
        Dir::Right => (pos.0 as int + 1, pos.1 as int),
    }
}

/// Whether one step from `pos` in direction `dir` stays inside the
/// coordinate space. Movement is otherwise unvalidated: walls, bounds of
/// the grid and other entities do not stop it.
pub open spec fn can_step(pos: Pos, dir: Dir) -> bool {
    let (x, y) = step_pos(pos, dir);
    0 <= x <= u16::MAX && 0 <= y <= u16::MAX
}

/// The map after the entity under `entity_id` takes one step in
/// direction `dir`.
pub open spec fn move_entity_model(m: MapModel, entity_id: EntityId, dir: Dir) -> MapModel {
    let e = m.entities[entity_id as int]->Some_0;
    let (x, y) = step_pos(e.pos, dir);
    let moved = Entity { pos: (x as u16, y as u16), sprite: e.sprite };
    MapModel { entities: m.entities.update(entity_id as int, Some(moved)), ..m }
}

/// The tile the fresh grid of a `width` by `height` map holds at `pos`:
/// wall on the border ring, ground inside.
pub open spec fn border_tile(width: u16, height: u16, pos: Pos) -> Tile {
    if pos.0 == 0 || pos.0 == width - 1 || pos.1 == 0 || pos.1 == height - 1 {
        Tile::Wall
    } else {
        Tile::Ground
    }
}

/// The grid of a fresh map, row-major.
pub open spec fn fresh_tiles(width: u16, height: u16) -> Seq<Tile> {
    Seq::new(
        (width as nat) * (height as nat),
        |k: int| border_tile(width, height, ((k % (width as int)) as u16, (k / (width as int)) as u16)),
    )
}

/// A fresh map: the bordered grid and no entities.
pub open spec fn fresh_map_model(width: u16, height: u16) -> MapModel {
    MapModel {
        width,
        height,
        tiles: fresh_tiles(width, height),
        entities: Seq::empty(),
    }
}

/// In a fresh map every border cell is wall and every interior cell is
/// ground.
pub proof fn lemma_fresh_map_tile(width: u16, height: u16, pos: Pos)
    requires
        pos.0 < width,
        pos.1 < height,
    ensures
        tile_at(fresh_map_model(width, height), pos) == border_tile(width, height, pos),
{
    let w = width as int;
    let k = pos.1 as int * w + pos.0 as int;
    assert(0 <= k < w * height as int) by (nonlinear_arith)
        requires
            0 <= pos.0 < width,
            0 <= pos.1 < height,
            w == width as int,
            k == pos.1 as int * w + pos.0 as int,
    ;
    vstd::arithmetic::div_mod::lemma_fundamental_div_mod_converse(
        k,
        w,
        pos.1 as int,
        pos.0 as int,
    );
}

/// A fixed-size grid of tiles plus the store of the entities standing
/// on it.
pub struct TileMap {
    map: Vec<Tile>,
    width: u16,
    height: u16,
    entities: CounterMap<Entity>,
}

impl TileMap {
    /// The map as a mathematical value.
    pub closed spec fn model(&self) -> MapModel {
        MapModel {
            width: self.width,
            height: self.height,
            tiles: self.map@,
            entities: self.entities.model(),
        }
    }

    /// The grid covers exactly `width` by `height` cells and the entity
    /// store is sound.
    pub closed spec fn wf(&self) -> bool {
        &&& self.entities.wf()
        &&& self.map@.len() == self.width as int * self.height as int
    }

    /// Builds a grid whose outer ring is wall and whose interior is
    /// ground, with no entities on it.
    pub fn new(width: u16, height: u16) -> (r: Self)
        ensures
            r.wf(),
            r.model() =~= fresh_map_model(width, height),
    {
        let mut map: Vec<Tile> = Vec::new();
        let mut y: u16 = 0;
        while y < height
            invariant
                y <= height,
                map@.len() == y as int * width as int,
                forall|k: int|
                    0 <= k < map@.len() ==> map@[k] == fresh_tiles(width, height)[k],
            decreases height - y,
        {
            let mut x: u16 = 0;
            while x < width
                invariant
                    y < height,
                    x <= width,
                    map@.len() == y as int * width as int + x as int,
                    forall|k: int|
                        0 <= k < map@.len() ==> map@[k] == fresh_tiles(width, height)[k],
                decreases width - x,
            {
                let tile = if x == 0 || x == width - 1 || y == 0 || y == height - 1 {
                    Tile::Wall
                } else {
                    Tile::Ground
                };
                proof {
                    let w = width as int;
                    let k = map@.len() as int;
                    assert(k == y as int * w + x as int);
                    assert(k < w * height as int) by (nonlinear_arith)
                        requires
                            0 <= x < width,
                            0 <= y < height,
                            w == width as int,
                            k == y as int * w + x as int,
                    ;
                    vstd::arithmetic::div_mod::lemma_fundamental_div_mod_converse(
                        k,
                        w,
                        y as int,
                        x as int,
                    );
                    assert(fresh_tiles(width, height)[k] == border_tile(width, height, (x, y)));
                }
                map.push(tile);
                x = x + 1;
            }
            proof {
                assert(y as int * width as int + width as int == (y + 1) as int * width as int)
                    by (nonlinear_arith);
            }
            y = y + 1;
        }
        let entities: CounterMap<Entity> = CounterMap::new();
        proof {
            assert(map@.len() == height as int * width as int) by (nonlinear_arith)
                requires
                    map@.len() == height as int * width as int,
            ;
            assert(fresh_tiles(width, height).len() == width as nat * height as nat);
            assert(width as int * height as int == height as int * width as int)
                by (nonlinear_arith);
        }
        TileMap { map, width, height, entities }
    }

    /// The tile under `pos`.
    pub fn tile(&self, pos: Pos) -> (r: Tile)
        requires
            self.wf(),
            in_bounds(self.model(), pos),
        ensures
            r == tile_at(self.model(), pos),
    {
        proof {
            assert((pos.1 as int) * (self.width as int) + (pos.0 as int) < (self.width as int)
                * (self.height as int)) by (nonlinear_arith)
                requires
                    0 <= pos.0 < self.width,
                    0 <= pos.1 < self.height,
            ;
            assert((pos.1 as int) * (self.width as int) + (pos.0 as int) < 0x1_0000_0000)
                by (nonlinear_arith)
                requires
                    0 <= pos.0 < 0x1_0000,
                    0 <= pos.1 < 0x1_0000,
                    0 <= self.width < 0x1_0000,
            ;
        }
        let idx: usize = (pos.1 as usize) * (self.width as usize) + (pos.0 as usize);
        self.map[idx]
    }

    /// Succeeds exactly when `pos` names an unoccupied ground tile; then
    /// a new entity with glyph `sprite` stands there, under a fresh id.
    /// Failure is a normal outcome and leaves the map unchanged.
    pub fn add_entity(&mut self, pos: Pos, sprite: u8) -> (r: Option<EntityId>)
        requires
            old(self).wf(),
            in_bounds(old(self).model(), pos),
            old(self).model().entities.len() < usize::MAX,
        ensures
            final(self).wf(),
            r is Some <==> can_place(old(self).model(), pos),
            r matches Some(id) ==> id == old(self).model().entities.len() && final(self).model()
                =~= place_entity(old(self).model(), pos, sprite),
            r is None ==> *final(self) == *old(self),
    {
        let t = self.tile(pos);
        let is_ground = matches!(t, Tile::Ground);
        if !is_ground {
            return None;
        }
        if self.occupant_sprite(pos).is_some() {
            return None;
        }
        let id = self.entities.push(Entity { pos, sprite });
        Some(id)
    }

    /// The glyph of the live entity with the least id standing on `pos`,
    /// if any entity stands there.
    pub fn occupant_sprite(&self, pos: Pos) -> (r: Option<u8>)
        requires
            self.wf(),
        ensures
            match first_occupant(self.model().entities, pos) {
                Some(e) => r == Some(e.sprite),
                None => r is None,
            },
            r is Some <==> occupied(self.model().entities, pos),
    {
        let n = self.entities.len();
        let mut i: usize = 0;
        while i < n
            invariant
                self.wf(),
                n == self.model().entities.len(),
                i <= n,
                first_occupant_from(self.model().entities, pos, 0) == first_occupant_from(
                    self.model().entities,
                    pos,
                    i as int,
                ),
                forall|j: int|
                    0 <= j < i ==> !((#[trigger] self.model().entities[j]) matches Some(e)
                        && e.pos == pos),
            decreases n - i,
        {
            match self.entities.get(i) {
                Some(e) => {
                    if e.pos.0 == pos.0 && e.pos.1 == pos.1 {
                        proof {
                            assert((self.model().entities[i as int]) matches Some(ee) && ee.pos
                                == pos);
                        }
                        return Some(e.sprite);
                    }
                },
                None => {},
            }
            i = i + 1;
        }
        proof {
            if occupied(self.model().entities, pos) {
                let j = choose|j: int|
                    0 <= j < self.model().entities.len() && ((#[trigger] self.model().entities[j])
                        matches Some(e) && e.pos == pos);
                assert(!(self.model().entities[j] matches Some(e) && e.pos == pos));
            }
        }
        None
    }

    /// Shifts the entity under `entity_id` one cell in direction `dir`,
    /// unconditionally: no check that the destination is in bounds, is
    /// ground, or is free. Only a step off the coordinate space itself is
    /// ruled out, by precondition.
    pub fn move_entity(&mut self, entity_id: EntityId, dir: Dir)
        requires
            old(self).wf(),
            entity_id < old(self).model().entities.len(),
            old(self).model().entities[entity_id as int] is Some,
            can_step(old(self).model().entities[entity_id as int]->Some_0.pos, dir),
        ensures
            final(self).wf(),
            final(self).model() =~= move_entity_model(old(self).model(), entity_id, dir),
    {
        let e: Entity = match self.entities.get(entity_id) {
            Some(e) => *e,
            None => {
                proof {
                    assert(false);
                }
                return ;
            },
        };
        let (x, y) = e.pos;
        let npos: Pos = match dir {
            Dir::Up => (x, y - 1),
            Dir::Down => (x, y + 1),
            Dir::Left => (x - 1, y),
            Dir::Right => (x + 1, y),
        };
        self.entities.update(entity_id, Entity { pos: npos, sprite: e.sprite });
    }

    /// The width of the grid.
    pub fn width(&self) -> (r: u16)
        ensures
            r == self.model().width,
    {
        self.width
    }

    /// The height of the grid.
    pub fn height(&self) -> (r: u16)
        ensures
            r == self.model().height,
    {
        self.height
    }

    /// The live entity under `id`, if any.
    pub fn entity(&self, id: EntityId) -> (r: Option<&Entity>)
        ensures
            match r {
                Some(e) => id < self.model().entities.len() && self.model().entities[id as int]
                    == Some(*e),
                None => !(id < self.model().entities.len() && self.model().entities[id as int]
                    is Some),
            },
    {
        self.entities.get(id)
    }

    /// How many entity ids this map has issued.
    pub fn entity_count(&self) -> (r: usize)
        requires
            self.wf(),
        ensures
            r == self.model().entities.len(),
    {
        self.entities.len()
    }

    /// The grid itself, row-major.
    pub(crate) fn raw_tiles(&self) -> (r: &Vec<Tile>)
        ensures
            r@ == self.model().tiles,
    {
        &self.map
    }

    /// Reassembles a map from its parts.
    pub(crate) fn from_parts(
        width: u16,
        height: u16,
        tiles: Vec<Tile>,
        entities: Vec<Option<Entity>>,
    ) -> (r: Self)
        requires
            tiles@.len() == width as int * height as int,
        ensures
            r.wf(),
            r.model() =~= (MapModel { width, height, tiles: tiles@, entities: entities@ }),
    {
        TileMap { map: tiles, width, height, entities: CounterMap::from_slots(entities) }
    }

    /// Draws the grid as text: for each cell the sprite of an occupying
    /// entity if any, else the tile's own glyph, each row closed by a
    /// newline.
    pub fn render(&self) -> (r: Vec<u8>)
        requires
            self.wf(),
            (self.model().height as int) * (self.model().width as int + 1) <= usize::MAX,
        ensures
            r@ =~= render_spec(self.model()),
    {
        let w1: usize = self.width as usize + 1;
        let mut out: Vec<u8> = Vec::new();
        let mut y: u16 = 0;
        while y < self.height
            invariant
                self.wf(),
                y <= self.height,
                w1 == self.model().width as int + 1,
                (self.model().height as int) * w1 as int <= usize::MAX,
                out@.len() == (y as int) * (w1 as int),
                forall|k: int| 0 <= k < out@.len() ==> out@[k] == render_byte(self.model(), k),
            decreases self.height - y,
        {
            proof {
                assert((y as int + 1) * (w1 as int) <= (self.model().height as int) * (
                w1 as int)) by (nonlinear_arith)
                    requires
                        0 <= y < self.model().height,
                        0 < w1,
                ;
            }
            let mut x: u16 = 0;
            while x < self.width
                invariant
                    self.wf(),
                    y < self.height,
                    x <= self.width,
                    w1 == self.model().width as int + 1,
                    (y as int + 1) * (w1 as int) <= usize::MAX,
                    out@.len() == (y as int) * (w1 as int) + x as int,
                    forall|k: int|
                        0 <= k < out@.len() ==> out@[k] == render_byte(self.model(), k),
                decreases self.width - x,
            {
                proof {
                    let w1i = w1 as int;
                    let k = (y as int) * w1i + x as int;
                    assert(k + 1 <= (y as int + 1) * w1i) by (nonlinear_arith)
                        requires
                            0 <= x < w1,
                            w1i == w1 as int,
                            k == (y as int) * w1i + x as int,
                    ;
                    vstd::arithmetic::div_mod::lemma_fundamental_div_mod_converse(
                        k,
                        w1i,
                        y as int,
                        x as int,
                    );
                    assert(render_byte(self.model(), k) == cell_glyph(self.model(), (x, y)));
                }
                let g: u8 = match self.occupant_sprite((x, y)) {
                    Some(s) => s,
                    None => glyph_of(self.tile((x, y))),
                };
                out.push(g);
                x = x + 1;
            }
            proof {
                let w1i = w1 as int;
                let k = (y as int) * w1i + x as int;
                vstd::arithmetic::div_mod::lemma_fundamental_div_mod_converse(
                    k,
                    w1i,
                    y as int,
                    x as int,
                );
                assert(render_byte(self.model(), k) == 10);
                assert((y as int) * w1i + w1i == (y as int + 1) * w1i) by (nonlinear_arith);
            }
            out.push(10);
            y = y + 1;
        }
        proof {
            assert((self.model().height as nat) * ((self.model().width as nat) + 1) == (
            self.model().height as int) * (w1 as int)) by (nonlinear_arith)
                requires
                    w1 as int == self.model().width as int + 1,
            ;
        }
        out
    }

    /// A deep, independent copy of this map.
    pub fn duplicate(&self) -> (r: Self)
        requires
            self.wf(),
        ensures
            r.wf(),
            r.model() =~= self.model(),
    {
        let mut tiles: Vec<Tile> = Vec::new();
        let n = self.map.len();
        let mut i: usize = 0;
        while i < n
            invariant
                n == self.map@.len(),
                i <= n,
                tiles@.len() == i,
                forall|k: int| 0 <= k < i ==> tiles@[k] == self.map@[k],
            decreases n - i,
        {
            tiles.push(self.map[i]);
            i = i + 1;
        }
        let mut ents: Vec<Option<Entity>> = Vec::new();
        let m = self.entities.len();
        let mut j: usize = 0;
        while j < m
            invariant
                self.wf(),
                m == self.model().entities.len(),
                j <= m,
                ents@.len() == j,
                forall|k: int| 0 <= k < j ==> ents@[k] == self.model().entities[k],
            decreases m - j,
        {
            match self.entities.get(j) {
                Some(e) => ents.push(Some(*e)),
                None => ents.push(None),
            }
            j = j + 1;
        }
        TileMap {
            map: tiles,
            width: self.width,
            height: self.height,
            entities: CounterMap::from_slots(ents),
        }
    }
}

/// The glyph drawn for a bare tile.
pub fn glyph_of(t: Tile) -> (r: u8)
    ensures
        r == tile_glyph(t),
{
    match t {
        Tile::Ground => 46,
        Tile::Wall => 35,
        Tile::Link(_) => 76,
        Tile::Door(false) => 68,
        Tile::Door(true) => 73,
    }
}

/// The first live entity standing on `pos` at or after index `i`, in id
/// order.
pub open spec fn first_occupant_from(entities: Seq<Option<Entity>>, pos: Pos, i: int) -> Option<
    Entity,
>
    decreases entities.len() - i,
{
    if i < 0 || i >= entities.len() {
        None
    } else {
        match entities[i] {
            Some(e) => if e.pos == pos {
                Some(e)
            } else {
                first_occupant_from(entities, pos, i + 1)
            },
            None => first_occupant_from(entities, pos, i + 1),
        }
    }
}

/// The live entity with the least id standing on `pos`, if any.
pub open spec fn first_occupant(entities: Seq<Option<Entity>>, pos: Pos) -> Option<Entity> {
    first_occupant_from(entities, pos, 0)
}

/// The glyph drawn by the player entity that joins the world.
pub const PLAYER_SPRITE: u8 = 80;

/// The glyph drawn for a bare tile: ground, wall, portal, closed door,
/// open door.
pub open spec fn tile_glyph(t: Tile) -> u8 {
    match t {
        Tile::Ground => 46,
        Tile::Wall => 35,
        Tile::Link(_) => 76,
        Tile::Door(false) => 68,
        Tile::Door(true) => 73,
    }
}

/// The glyph drawn at `pos`: the sprite of the first occupant in id
/// order, or the tile's own glyph when nothing stands there.
pub open spec fn cell_glyph(m: MapModel, pos: Pos) -> u8 {
    match first_occupant(m.entities, pos) {
        Some(e) => e.sprite,
        None => tile_glyph(tile_at(m, pos)),
    }
}

/// Byte `k` of the rendered grid: rows of `width` glyphs, each row closed
/// by a newline.
pub open spec fn render_byte(m: MapModel, k: int) -> u8 {
    let w1 = m.width as int + 1;
    let row = k / w1;
    let col = k % w1;
    if col == m.width as int {
        10
    } else {
        cell_glyph(m, (col as u16, row as u16))
    }
}

/// The whole rendered grid.
pub open spec fn render_spec(m: MapModel) -> Seq<u8> {
    Seq::new((m.height as nat) * ((m.width as nat) + 1), |k: int| render_byte(m, k))
}

/// Law: placing on a wall always fails; placing on unoccupied ground
/// always succeeds; placing again on the same position afterwards always
/// fails.
pub proof fn lemma_placement_rules(m: MapModel, pos: Pos, sprite: u8)
    ensures
        tile_at(m, pos) == Tile::Wall ==> !can_place(m, pos),
        tile_at(m, pos) == Tile::Ground && !occupied(m.entities, pos) ==> can_place(m, pos),
        can_place(m, pos) ==> !can_place(place_entity(m, pos, sprite), pos),
{
    if can_place(m, pos) {
        let m2 = place_entity(m, pos, sprite);
        assert(m2.entities[m.entities.len() as int] == Some(Entity { pos, sprite }));
        assert(occupied(m2.entities, pos));
    }
}

/// Law: one step moves exactly one coordinate by exactly one cell —
/// right and left move the column, down and up move the row — and the
/// sprite, the grid and every other entity stay as they were.
pub proof fn lemma_move_entity_coords(m: MapModel, entity_id: EntityId, dir: Dir)
    requires
        entity_id < m.entities.len(),
        m.entities[entity_id as int] is Some,
        can_step(m.entities[entity_id as int]->Some_0.pos, dir),
    ensures
        ({
            let e = m.entities[entity_id as int]->Some_0;
            let m2 = move_entity_model(m, entity_id, dir);
            let e2 = m2.entities[entity_id as int]->Some_0;
            &&& m2.entities[entity_id as int] is Some
            &&& e2.sprite == e.sprite
            &&& dir == Dir::Right ==> e2.pos.0 == e.pos.0 + 1 && e2.pos.1 == e.pos.1
            &&& dir == Dir::Left ==> e2.pos.0 == e.pos.0 - 1 && e2.pos.1 == e.pos.1
            &&& dir == Dir::Down ==> e2.pos.1 == e.pos.1 + 1 && e2.pos.0 == e.pos.0
            &&& dir == Dir::Up ==> e2.pos.1 == e.pos.1 - 1 && e2.pos.0 == e.pos.0
            &&& forall|j: int|
                0 <= j < m.entities.len() && j != entity_id ==> m2.entities[j] == m.entities[j]
            &&& m2.tiles == m.tiles
            &&& m2.width == m.width
            &&& m2.height == m.height
        }),
{
}

/// The whole game state as a mathematical value.
#[verifier::ext_equal]
pub struct WorldModel {
    pub maps: Seq<Option<MapModel>>,
    pub players: Seq<Option<PlayerModel>>,
}

/// Every live player's back reference resolves to a live entity of a
/// live map.
pub open spec fn players_resolve(w: WorldModel) -> bool {
    forall|i: int|
        0 <= i < w.players.len() && (#[trigger] w.players[i]) is Some ==> {
            let p = w.players[i]->Some_0;
            &&& p.map_id < w.maps.len()
            &&& w.maps[p.map_id as int] is Some
            &&& p.entity_id < w.maps[p.map_id as int]->Some_0.entities.len()
            &&& w.maps[p.map_id as int]->Some_0.entities[p.entity_id as int] is Some
        }
}

/// Whether `add_player` succeeds: the target map is live and the target
/// tile is unoccupied ground.
pub open spec fn can_add_player(w: WorldModel, loc: MapLoc) -> bool {
    &&& loc.map_id < w.maps.len()
    &&& w.maps[loc.map_id as int] is Some
    &&& can_place(w.maps[loc.map_id as int]->Some_0, loc.pos)
}

/// The world after a player joins at `loc`: the target map gains the
/// player's entity and the player store gains the back reference.
pub open spec fn add_player_model(w: WorldModel, name: Seq<char>, loc: MapLoc) -> WorldModel {
    let m = w.maps[loc.map_id as int]->Some_0;
    WorldModel {
        maps: w.maps.update(loc.map_id as int, Some(place_entity(m, loc.pos, PLAYER_SPRITE))),
        players: w.players.push(
            Some(
                PlayerModel {
                    name,
                    map_id: loc.map_id,
                    entity_id: m.entities.len() as EntityId,
                },
            ),
        ),
    }
}

/// The aggregate of all maps and all players: the single source of
/// truth that every session works against.
pub struct World {
    pub maps: CounterMap<TileMap>,
    pub players: CounterMap<Player>,
}

impl World {
    /// The world as a mathematical value.
    pub open spec fn model(&self) -> WorldModel {
        WorldModel {
            maps: self.maps.model().map_values(
                |o: Option<TileMap>|
                    match o {
                        Some(m) => Some(m.model()),
                        None => None,
                    },
            ),
            players: self.players.model().map_values(
                |o: Option<Player>|
                    match o {
                        Some(p) => Some(p.model()),
                        None => None,
                    },
            ),
        }
    }

    /// Both stores are sound and every live map's grid matches its size.
    pub open spec fn wf(&self) -> bool {
        &&& self.maps.wf()
        &&& self.players.wf()
        &&& forall|i: int|
            0 <= i < self.maps.model().len() && (#[trigger] self.maps.model()[i]) is Some
                ==> self.maps.model()[i]->Some_0.wf()
    }

    /// A world holding exactly one fresh default map of 20 by 12 cells
    /// and no players.
    pub fn new() -> (r: Self)
        ensures
            r.wf(),
            players_resolve(r.model()),
            r.model().players =~= Seq::<Option<PlayerModel>>::empty(),
            r.model().maps =~= seq![Some(fresh_map_model(20, 12))],
    {
        let mut maps: CounterMap<TileMap> = CounterMap::new();
        maps.push(TileMap::new(20, 12));
        let players: CounterMap<Player> = CounterMap::new();
        World { maps, players }
    }

    /// Lets a player join at `loc`. Placement is delegated to the target
    /// map: exactly when `loc` names an unoccupied ground tile of a live
    /// map, the new player's id is returned; otherwise nothing is
    /// created. The new player's entity stands at the requested
    /// position.
    pub fn add_player(&mut self, name: String, loc: MapLoc) -> (r: Option<PlayerId>)
        requires
            old(self).wf(),
            old(self).model().players.len() < usize::MAX,
            loc.map_id < old(self).model().maps.len() && old(self).model().maps[loc.map_id as int]
                is Some ==> {
                let m = old(self).model().maps[loc.map_id as int]->Some_0;
                in_bounds(m, loc.pos) && m.entities.len() < usize::MAX
            },
        ensures
            final(self).wf(),
            r is Some <==> can_add_player(old(self).model(), loc),
            r matches Some(pid) ==> pid == old(self).model().players.len() && final(self).model()
                =~= add_player_model(old(self).model(), name@, loc),
            r is None ==> final(self).model() =~= old(self).model(),
            r matches Some(pid) ==> ({
                let w2 = final(self).model();
                let p = w2.players[pid as int]->Some_0;
                &&& w2.players[pid as int] is Some
                &&& p.name == name@
                &&& p.map_id == loc.map_id
                &&& w2.maps[p.map_id as int] is Some
                &&& p.entity_id < w2.maps[p.map_id as int]->Some_0.entities.len()
                &&& w2.maps[p.map_id as int]->Some_0.entities[p.entity_id as int] == Some(
                    Entity { pos: loc.pos, sprite: PLAYER_SPRITE },
                )
            }),
            players_resolve(old(self).model()) ==> players_resolve(final(self).model()),
    {
        let map_count = self.maps.len();
        if loc.map_id >= map_count {
            return None;
        }
        let ghost w0 = self.model();
        let slot = self.maps.slot_mut(loc.map_id);
        let entity_id_opt: Option<EntityId> = match slot {
            Some(map) => map.add_entity(loc.pos, PLAYER_SPRITE),
            None => None,
        };
        proof {
            assert(self.model().players =~= w0.players);
            if entity_id_opt is None {
                assert(self.model().maps =~= w0.maps);
            }
        }
        match entity_id_opt {
            Some(entity_id) => {
                let pid = self.players.push(Player { name, map_id: loc.map_id, entity_id });
                proof {
                    let w2 = self.model();
                    let wa = add_player_model(w0, name@, loc);
                    assert(w2.maps =~= wa.maps);
                    assert(w2.players =~= wa.players);
                    if players_resolve(w0) {
                        assert forall|i: int|
                            0 <= i < w2.players.len() && (#[trigger] w2.players[i])
                                is Some implies {
                            let p = w2.players[i]->Some_0;
                            &&& p.map_id < w2.maps.len()
                            &&& w2.maps[p.map_id as int] is Some
                            &&& p.entity_id < w2.maps[p.map_id as int]->Some_0.entities.len()
                            &&& w2.maps[p.map_id as int]->Some_0.entities[p.entity_id as int]
                                is Some
                        } by {
                            if i < w0.players.len() {
                                assert(w0.players[i] is Some);
                            }
                        }
                    }
                }
                Some(pid)
            },
            None => None,
        }
    }

    /// A deep, independent copy of the whole world, safe to encode and
    /// send while others mutate the original.
    pub fn snapshot(&self) -> (r: World)
        requires
            self.wf(),
        ensures
            r.wf(),
            r.model() =~= self.model(),
    {
        let mut map_slots: Vec<Option<TileMap>> = Vec::new();
        let n = self.maps.len();
        let mut i: usize = 0;
        while i < n
            invariant
                self.wf(),
                n == self.maps.model().len(),
                i <= n,
                map_slots@.len() == i,
                forall|k: int|
                    0 <= k < i ==> match (#[trigger] map_slots@[k], self.maps.model()[k]) {
                        (Some(c), Some(o)) => c.wf() && c.model() =~= o.model(),
                        (None, None) => true,
                        _ => false,
                    },
            decreases n - i,
        {
            match self.maps.get(i) {
                Some(m) => {
                    let c = m.duplicate();
                    map_slots.push(Some(c));
                },
                None => map_slots.push(None),
            }
            i = i + 1;
        }
        let mut player_slots: Vec<Option<Player>> = Vec::new();
        let np = self.players.len();
        let mut j: usize = 0;
        while j < np
            invariant
                self.wf(),
                np == self.players.model().len(),
                j <= np,
                player_slots@.len() == j,
                forall|k: int|
                    0 <= k < j ==> match (#[trigger] player_slots@[k], self.players.model()[k]) {
                        (Some(c), Some(o)) => c.model() =~= o.model(),
                        (None, None) => true,
                        _ => false,
                    },
            decreases np - j,
        {
            match self.players.get(j) {
                Some(p) => {
                    let c = Player { name: p.name.clone(), map_id: p.map_id, entity_id: p.entity_id };
                    player_slots.push(Some(c));
                },
                None => player_slots.push(None),
            }
            j = j + 1;
        }
        let r = World {
            maps: CounterMap::from_slots(map_slots),
            players: CounterMap::from_slots(player_slots),
        };
        proof {
            assert(r.model().maps =~= self.model().maps);
            assert(r.model().players =~= self.model().players);
        }
        r
    }
}


} // verus!
