use isomap::atlas::{MapSprites, SpriteEntry, SpriteSize};
use isomap::iso::IVec2;
use isomap::map::TileMap;
use isomap::render::{MapRenderData, PlacementRecord, RenderError};

fn ready_sprites() -> MapSprites {
    let mut sprites = MapSprites::new(vec![1, 2]);
    let images = vec![
        Some(SpriteEntry { slot: 5, size: SpriteSize { width: 128, height: 64 } }),
        Some(SpriteEntry { slot: 7, size: SpriteSize { width: 128, height: 100 } }),
    ];
    assert_eq!(sprites.load_map_sprites(true, &images), Ok(true));
    sprites
}

fn record(x: i64, y: i64, excess_height: i64, sprite_y_halves: i64, depth_num: i64, sprite_slot: u32) -> PlacementRecord {
    PlacementRecord { x, y, excess_height, sprite_y_halves, depth_num, depth_den: 64, sprite_slot }
}

#[test]
fn render_places_every_cell_back_to_front() {
    let sprites = ready_sprites();
    let map = TileMap { width: 2, height: 2, tiles: vec![0, 1, 1, 0] };
    let mut state = MapRenderData::new();
    let pass = state.render_map(&sprites, 9, &map).unwrap().unwrap();
    assert_eq!(
        pass.placements,
        vec![
            record(64, -32, 36, -28, 160, 7),
            record(0, 0, 0, 0, 128, 5),
            record(128, 0, 0, 0, 128, 5),
            record(64, 32, 36, 100, 96, 7),
        ]
    );
    assert_eq!(pass.camera, IVec2 { x: 64, y: -32 });
    assert_eq!(state.last_rendered(), Some(9));
}

#[test]
fn render_fires_once_per_map_handle() {
    let sprites = ready_sprites();
    let map = TileMap { width: 2, height: 1, tiles: vec![0, 1] };
    let mut state = MapRenderData::new();
    assert!(state.render_map(&sprites, 3, &map).unwrap().is_some());
    assert!(state.render_map(&sprites, 3, &map).unwrap().is_none());
    assert!(state.render_map(&sprites, 4, &map).unwrap().is_some());
    assert_eq!(state.last_rendered(), Some(4));
}

#[test]
fn render_waits_for_atlas() {
    let sprites = MapSprites::new(vec![1]);
    let map = TileMap { width: 1, height: 1, tiles: vec![0] };
    let mut state = MapRenderData::new();
    assert!(state.render_map(&sprites, 1, &map).unwrap().is_none());
    assert_eq!(state.last_rendered(), None);
}

#[test]
fn render_rejects_unknown_tile_id() {
    let sprites = ready_sprites();
    let map = TileMap { width: 3, height: 1, tiles: vec![1, 4, 2] };
    let mut state = MapRenderData::new();
    assert_eq!(
        state.render_map(&sprites, 1, &map).err(),
        Some(RenderError::TileIdOutOfRange { tile: 4 })
    );
    assert_eq!(state.last_rendered(), None);
}

#[test]
fn depth_grows_toward_the_back_of_a_column() {
    let sprites = ready_sprites();
    let map = TileMap { width: 1, height: 4, tiles: vec![0, 1, 0, 1] };
    let mut state = MapRenderData::new();
    let pass = state.render_map(&sprites, 1, &map).unwrap().unwrap();
    // one column, from y = 3 down to y = 0
    let depths: Vec<i64> = pass.placements.iter().map(|r| r.depth_num).collect();
    assert_eq!(depths, vec![256, 224, 192, 160]);
    assert!(pass.placements.iter().all(|r| r.depth_den == 32));
}

#[test]
fn empty_map_renders_nothing() {
    let sprites = ready_sprites();
    let map = TileMap { width: 0, height: 0, tiles: vec![] };
    let mut state = MapRenderData::new();
    let pass = state.render_map(&sprites, 1, &map).unwrap().unwrap();
    assert!(pass.placements.is_empty());
}
