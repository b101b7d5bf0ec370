use isomap::atlas::{texture_path, AtlasError, MapSprites, SpriteEntry, SpriteSize};

fn entry(slot: u32, width: u32, height: u32) -> SpriteEntry {
    SpriteEntry { slot, size: SpriteSize { width, height } }
}

#[test]
fn texture_paths_follow_numbering() {
    assert_eq!(texture_path(0), b"assets/textures/map/landscapeTiles_000.png".to_vec());
    assert_eq!(texture_path(7), b"assets/textures/map/landscapeTiles_007.png".to_vec());
    assert_eq!(texture_path(42), b"assets/textures/map/landscapeTiles_042.png".to_vec());
    assert_eq!(texture_path(999), b"assets/textures/map/landscapeTiles_999.png".to_vec());
}

#[test]
fn expected_paths_in_tile_id_order() {
    let sprites = MapSprites::new(vec![11, 22, 33]);
    let paths = sprites.expected_texture_paths();
    assert_eq!(paths.len(), 3);
    assert_eq!(paths[0], b"assets/textures/map/landscapeTiles_000.png".to_vec());
    assert_eq!(paths[1], b"assets/textures/map/landscapeTiles_001.png".to_vec());
    assert_eq!(paths[2], b"assets/textures/map/landscapeTiles_002.png".to_vec());
}

#[test]
fn atlas_ready_after_all_three_load() {
    let mut sprites = MapSprites::new(vec![11, 22, 33]);
    assert!(!sprites.is_ready());
    assert_eq!(sprites.pending_handles(), vec![11, 22, 33]);
    let images = vec![Some(entry(2, 128, 64)), Some(entry(0, 128, 99)), Some(entry(1, 132, 83))];
    assert_eq!(sprites.load_map_sprites(false, &images), Ok(false));
    assert!(!sprites.is_ready());
    assert_eq!(sprites.load_map_sprites(true, &images), Ok(true));
    assert!(sprites.is_ready());
    assert!(sprites.pending_handles().is_empty());
    assert_eq!(sprites.tile_count(), 3);
    let slots = [sprites.tile_sprite_index(0), sprites.tile_sprite_index(1), sprites.tile_sprite_index(2)];
    assert_eq!(slots, [2, 0, 1]);
    assert!(slots[0] != slots[1] && slots[1] != slots[2] && slots[0] != slots[2]);
    assert!(slots.iter().all(|s| (*s as usize) < 3));
    assert_eq!(sprites.tile_sprite_height(1), SpriteSize { width: 128, height: 99 });
    // a ready atlas is built once
    assert_eq!(sprites.load_map_sprites(true, &vec![]), Ok(false));
    assert_eq!(sprites.tile_count(), 3);
}

#[test]
fn atlas_fails_on_unresolved_image() {
    let mut sprites = MapSprites::new(vec![11, 22, 33]);
    let images = vec![Some(entry(0, 1, 1)), None, Some(entry(1, 1, 1))];
    assert_eq!(
        sprites.load_map_sprites(true, &images),
        Err(AtlasError::AtlasResolutionFailure { index: 1 })
    );
    assert!(!sprites.is_ready());
    let short = vec![Some(entry(0, 1, 1)), Some(entry(1, 1, 1))];
    assert_eq!(
        sprites.load_map_sprites(true, &short),
        Err(AtlasError::AtlasResolutionFailure { index: 2 })
    );
    assert!(!sprites.is_ready());
}

#[test]
fn atlas_with_no_images_is_ready_and_empty() {
    let mut sprites = MapSprites::new(vec![]);
    assert!(!sprites.is_ready());
    assert_eq!(sprites.load_map_sprites(true, &vec![]), Ok(true));
    assert!(sprites.is_ready());
    assert_eq!(sprites.tile_count(), 0);
}
