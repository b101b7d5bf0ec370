//! Turning a map into ordered sprite placements, once per map.
use vstd::prelude::*;
use crate::atlas::{MapSprites, SpriteEntry};
use crate::iso::{iso_x, iso_y, IVec2, IsometricOperations, MAP_TILE_HEIGHT, MAP_TILE_WIDTH};
use crate::map::TileMap;

verus! {

/// One sprite, ready for display.
///
/// The tile's footprint sits at `(x, y)`. The sprite is drawn
/// `excess_height / 2` pixels higher, at the vertical position
/// `sprite_y_halves / 2`, so that a sprite taller than a tile keeps its base
/// on the footprint. Its depth is `depth_num / depth_den`, which falls as the
/// screen y of the base rises; within a grid column it grows with the grid y.
#[derive(Clone, Copy, Debug, PartialEq, Eq, Structural)]
pub struct PlacementRecord {
    pub x: i64,
    pub y: i64,
    pub excess_height: i64,
    /// Twice the vertical position of the sprite: `2 * y + excess_height`.
    pub sprite_y_halves: i64,
    pub depth_num: i64,
    pub depth_den: i64,
    pub sprite_slot: u32,
}

/// Everything one render pass produces.
pub struct RenderPass {
    /// The placements, column by column, each column from back to front.
    pub placements: Vec<PlacementRecord>,
    /// The screen point the camera centres on.
    pub camera: IVec2,
}

/// Why a map could not be rendered.
#[derive(Clone, Copy, Debug, PartialEq, Eq, Structural)]
pub enum RenderError {
    /// The map holds a tile id that the sprite lookup table does not answer for.
    TileIdOutOfRange { tile: usize },
}

/// Whether all screen geometry of the map fits in `i64` coordinates.
pub open spec fn renderable(m: TileMap) -> bool {
    (m.width + m.height) * MAP_TILE_WIDTH <= i64::MAX
}

/// The smallest screen y of the map's cells.
pub open spec fn screen_y_min(m: TileMap) -> int {
    -(m.height * (MAP_TILE_HEIGHT / 2))
}

/// The largest screen y of the map's cells.
pub open spec fn screen_y_max(m: TileMap) -> int {
    m.width * (MAP_TILE_HEIGHT / 2)
}

/// The largest screen x of the map's cells.
pub open spec fn screen_x_max(m: TileMap) -> int {
    m.height * (MAP_TILE_WIDTH / 2) + m.width * (MAP_TILE_WIDTH / 2)
}

/// How much taller than a tile a sprite of the given height is.
pub open spec fn excess_of(height: u32) -> int {
    if height > MAP_TILE_HEIGHT {
        height - MAP_TILE_HEIGHT
    } else {
        0
    }
}

/// Every tile id of the map has an entry in the lookup table.
pub open spec fn tiles_in_table(m: TileMap, table: Seq<SpriteEntry>) -> bool {
    forall|i: int| 0 <= i < m.tiles@.len() ==> #[trigger] m.tiles@[i] < table.len()
}

/// The placement of the cell `(x, y)`.
pub open spec fn cell_record(m: TileMap, table: Seq<SpriteEntry>, x: int, y: int) -> PlacementRecord {
    let e = table[m.tiles@[y * m.width + x] as int];
    PlacementRecord {
        x: iso_x(x, y) as i64,
        y: iso_y(x, y) as i64,
        excess_height: excess_of(e.size.height) as i64,
        sprite_y_halves: (2 * iso_y(x, y) + excess_of(e.size.height)) as i64,
        depth_num: (screen_y_max(m) - iso_y(x, y) - screen_y_min(m)) as i64,
        depth_den: screen_y_max(m) as i64,
        sprite_slot: e.slot,
    }
}

/// The first `k` placements of column `x`, from the back row forward.
pub open spec fn column(m: TileMap, table: Seq<SpriteEntry>, x: int, k: int) -> Seq<PlacementRecord>
    decreases k,
{
    if k <= 0 {
        Seq::empty()
    } else {
        column(m, table, x, k - 1).push(cell_record(m, table, x, m.height - k))
    }
}

/// The placements of the first `n` columns.
pub open spec fn placements(m: TileMap, table: Seq<SpriteEntry>, n: int) -> Seq<PlacementRecord>
    decreases n,
{
    if n <= 0 {
        Seq::empty()
    } else {
        placements(m, table, n - 1) + column(m, table, n - 1, m.height as int)
    }
}

/// The screen point the camera centres on for the map.
pub open spec fn camera_spec(m: TileMap) -> IVec2 {
    IVec2 {
        x: (screen_x_max(m) / 2 - MAP_TILE_WIDTH / 2) as i64,
        y: ((screen_y_max(m) + screen_y_min(m)) / 2 - MAP_TILE_HEIGHT / 2) as i64,
    }
}

/// Which map was rendered last, if any.
pub struct MapRenderData {
    last: Option<u128>,
}

impl MapRenderData {
    /// The handle of the map rendered last.
    pub closed spec fn spec_last(&self) -> Option<u128> {
        self.last
    }

    /// Whether a render pass is due for the map with handle `current`.
    pub open spec fn spec_fires(&self, atlas_ready: bool, current: u128) -> bool {
        atlas_ready && self.spec_last() != Some(current)
    }

    /// No map rendered yet.
    pub fn new() -> (r: Self)
        ensures
            r.spec_last() is None,
    {
        MapRenderData { last: None }
    }

    /// The handle of the map rendered last.
    pub fn last_rendered(&self) -> (r: Option<u128>)
        ensures
            r == self.spec_last(),
    {
        self.last
    }

    /// One tick of the renderer. When the atlas is not ready, or the map with
    /// handle `current` is the one rendered last, nothing happens (`Ok(None)`).
    /// Otherwise every cell is placed, column by column and each column from
    /// the back row forward, and `current` becomes the map rendered last. A
    /// tile id that the lookup table does not answer for fails the pass and
    /// leaves the state unchanged.
    pub fn render_map(&mut self, map_sprites: &MapSprites, current: u128, map: &TileMap) -> (r:
        Result<Option<RenderPass>, RenderError>)
        requires
            map.wf(),
            renderable(*map),
        ensures
            !old(self).spec_fires(map_sprites.spec_ready(), current) ==> {
                &&& r matches Ok(None)
                &&& *final(self) == *old(self)
            },
            old(self).spec_fires(map_sprites.spec_ready(), current) && tiles_in_table(*map, map_sprites.spec_table()) ==> {
                &&& r matches Ok(Some(pass))
                &&& pass.placements@ == placements(*map, map_sprites.spec_table(), map.width as int)
                &&& pass.camera == camera_spec(*map)
                &&& final(self).spec_last() == Some(current)
            },
            old(self).spec_fires(map_sprites.spec_ready(), current) && !tiles_in_table(*map, map_sprites.spec_table()) ==> {
                &&& *final(self) == *old(self)
                &&& exists|k: int| {
                    &&& 0 <= k < map.tiles@.len()
                    &&& map.tiles@[k] >= map_sprites.spec_table().len()
                    &&& forall|j: int| 0 <= j < k ==> #[trigger] map.tiles@[j] < map_sprites.spec_table().len()
                    &&& r == Err::<Option<RenderPass>, RenderError>(RenderError::TileIdOutOfRange { tile: map.tiles@[k] })
                }
            },
    {
        if !map_sprites.is_ready() {
            return Ok(None);
        }
        if let Some(last) = self.last {
            if last == current {
                return Ok(None);
            }
        }
        let count: usize = map_sprites.tile_count();
        let mut i: usize = 0;
        while i < map.tiles.len()
            invariant
                i <= map.tiles@.len(),
                count == map_sprites.spec_table().len(),
                *self == *old(self),
                old(self).spec_fires(map_sprites.spec_ready(), current),
                forall|j: int| 0 <= j < i ==> #[trigger] map.tiles@[j] < count,
            decreases map.tiles@.len() - i,
        {
            if map.tiles[i] >= count {
                return Err(RenderError::TileIdOutOfRange { tile: map.tiles[i] });
            }
            i = i + 1;
        }
        let placements = place_cells(map_sprites, map);
        self.last = Some(current);
        let camera = camera_center(map);
        Ok(Some(RenderPass { placements, camera }))
    }
}

/// The screen point the camera centres on for the map.
fn camera_center(map: &TileMap) -> (r: IVec2)
    requires
        renderable(*map),
    ensures
        r == camera_spec(*map),
{
    let w = map.width as i64;
    let h = map.height as i64;
    IVec2 {
        x: (h * (MAP_TILE_WIDTH / 2) + w * (MAP_TILE_WIDTH / 2)) / 2 - MAP_TILE_WIDTH / 2,
        y: (w * (MAP_TILE_HEIGHT / 2) - h * (MAP_TILE_HEIGHT / 2)) / 2 - MAP_TILE_HEIGHT / 2,
    }
}

/// The placements of every cell of the map.
fn place_cells(map_sprites: &MapSprites, map: &TileMap) -> (r: Vec<PlacementRecord>)
    requires
        map.wf(),
        renderable(*map),
        tiles_in_table(*map, map_sprites.spec_table()),
    ensures
        r@ == placements(*map, map_sprites.spec_table(), map.width as int),
{
    let ghost table = map_sprites.spec_table();
    let w: usize = map.width;
    let h: usize = map.height;
    let mut out: Vec<PlacementRecord> = Vec::new();
    let mut x: usize = 0;
    while x < w
        invariant
            x <= w == map.width,
            h == map.height,
            map.wf(),
            renderable(*map),
            tiles_in_table(*map, table),
            table == map_sprites.spec_table(),
            out@ == placements(*map, table, x as int),
        decreases w - x,
    {
        let ghost before = out@;
        let mut k: usize = 0;
        while k < h
            invariant
                x < w == map.width,
                k <= h == map.height,
                map.wf(),
                renderable(*map),
                tiles_in_table(*map, table),
                table == map_sprites.spec_table(),
                out@ == before + column(*map, table, x as int, k as int),
            decreases h - k,
        {
            let y: usize = h - 1 - k;
            out.push(place_cell(map_sprites, map, x, y));
            k = k + 1;
        }
        x = x + 1;
    }
    out
}

/// The placement of the cell `(x, y)`.
fn place_cell(map_sprites: &MapSprites, map: &TileMap, x: usize, y: usize) -> (r: PlacementRecord)
    requires
        map.wf(),
        renderable(*map),
        tiles_in_table(*map, map_sprites.spec_table()),
        x < map.width,
        y < map.height,
    ensures
        r == cell_record(*map, map_sprites.spec_table(), x as int, y as int),
{
    let w: usize = map.width;
    let h: usize = map.height;
    let n: usize = map.tiles.len();
    proof {
        assert(y * w + x < w * h) by (nonlinear_arith)
            requires
                x < w,
                y < h,
        ;
        assert(w * h == n);
        assert(0 <= y * w) by (nonlinear_arith);
    }
    let tile: usize = map.tiles[y * w + x];
    let slot: u32 = map_sprites.tile_sprite_index(tile);
    let size = map_sprites.tile_sprite_height(tile);
    let screen = IVec2 { x: x as i64, y: y as i64 }.to_isometric();
    let excess: i64 = if size.height as i64 > MAP_TILE_HEIGHT {
        size.height as i64 - MAP_TILE_HEIGHT
    } else {
        0
    };
    let y_max: i64 = w as i64 * (MAP_TILE_HEIGHT / 2);
    let y_min: i64 = -(h as i64 * (MAP_TILE_HEIGHT / 2));
    PlacementRecord {
        x: screen.x,
        y: screen.y,
        excess_height: excess,
        sprite_y_halves: 2 * screen.y + excess,
        depth_num: y_max - screen.y - y_min,
        depth_den: y_max,
        sprite_slot: slot,
    }
}

/// Once a map has been rendered, rendering the same map handle again does
/// nothing, whatever the atlas reports: a render pass happens at most once
/// per distinct map handle in a row.
pub proof fn lemma_render_once(state: MapRenderData, atlas_ready: bool, current: u128)
    requires
        state.spec_last() == Some(current),
    ensures
        !state.spec_fires(atlas_ready, current),
{
}

/// Of two cells in the same grid column, the one with the greater grid `y`
/// has the greater depth, over the same positive denominator, whatever the
/// tiles hold: depth orders the cells of a column by their row.
pub proof fn lemma_depth_order(m: TileMap, table: Seq<SpriteEntry>, x: int, y1: int, y2: int)
    requires
        m.wf(),
        renderable(m),
        0 <= x < m.width,
        0 <= y2 < y1 < m.height,
    ensures
        cell_record(m, table, x, y1).depth_num > cell_record(m, table, x, y2).depth_num,
        cell_record(m, table, x, y1).depth_den == cell_record(m, table, x, y2).depth_den > 0,
{
    let w = m.width as int;
    let h = m.height as int;
    assert(MAP_TILE_HEIGHT / 2 == 32);
    assert(0 < 32 * (w - x + y2 + h) < 32 * (w - x + y1 + h) <= 64 * (w + h)) by (nonlinear_arith)
        requires
            0 <= x < w,
            0 <= y2 < y1 < h,
    ;
    assert(screen_y_max(m) - iso_y(x, y1) - screen_y_min(m) == 32 * (w - x + y1 + h));
    assert(screen_y_max(m) - iso_y(x, y2) - screen_y_min(m) == 32 * (w - x + y2 + h));
}

/// Across the whole map, a cell whose base sits lower on the screen (a
/// smaller screen y) has the greater depth: depth follows screen y alone,
/// whatever order the cells were visited in.
pub proof fn lemma_depth_by_screen_y(m: TileMap, table: Seq<SpriteEntry>, x1: int, y1: int, x2: int, y2: int)
    requires
        m.wf(),
        renderable(m),
        0 <= x1 < m.width,
        0 <= y1 < m.height,
        0 <= x2 < m.width,
        0 <= y2 < m.height,
        cell_record(m, table, x1, y1).y < cell_record(m, table, x2, y2).y,
    ensures
        cell_record(m, table, x1, y1).depth_num > cell_record(m, table, x2, y2).depth_num,
{
    let w = m.width as int;
    let h = m.height as int;
    assert(MAP_TILE_HEIGHT / 2 == 32);
    assert(MAP_TILE_WIDTH == 128);
    assert(iso_y(x1, y1) == 32 * (x1 - y1)) by (nonlinear_arith)
        requires
            iso_y(x1, y1) == (x1 - y1) * (MAP_TILE_HEIGHT / 2),
            MAP_TILE_HEIGHT / 2 == 32,
    ;
    assert(iso_y(x2, y2) == 32 * (x2 - y2)) by (nonlinear_arith)
        requires
            iso_y(x2, y2) == (x2 - y2) * (MAP_TILE_HEIGHT / 2),
            MAP_TILE_HEIGHT / 2 == 32,
    ;
    assert(32 * (x1 - y1) < 32 * w && 32 * (x2 - y2) < 32 * w && -32 * h < 32 * (x1 - y1) && -32 * h < 32 * (x2 - y2));
    assert(screen_y_max(m) == 32 * w && screen_y_min(m) == -32 * h) by (nonlinear_arith)
        requires
            screen_y_max(m) == w * (MAP_TILE_HEIGHT / 2),
            screen_y_min(m) == -(h * (MAP_TILE_HEIGHT / 2)),
            MAP_TILE_HEIGHT / 2 == 32,
    ;
    assert(128 * (w + h) <= i64::MAX) by (nonlinear_arith)
        requires
            (w + h) * MAP_TILE_WIDTH <= i64::MAX,
            MAP_TILE_WIDTH == 128,
    ;
    assert(0 < 32 * (w + h) <= 64 * (w + h) <= i64::MAX);
}

} // verus!
