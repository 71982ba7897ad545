use framework::sprite::{quad_indices, Sprite, SpriteId, SpriteMap, SpriteMapId, SpriteMaps};
use glam::vec2;

fn sample_map() -> SpriteMap {
    SpriteMap::new(
        "jump".to_string(),
        "1".to_string(),
        "jump.png".to_string(),
        vec2(64.0, 32.0),
        vec![
            Sprite::new("red_platform".to_string(), vec2(0.0, 0.0), vec2(32.0, 8.0)),
            Sprite::new("yellow_platform".to_string(), vec2(0.0, 8.0), vec2(32.0, 16.0)),
            Sprite::new("red_platform".to_string(), vec2(32.0, 0.0), vec2(64.0, 8.0)),
        ],
    )
}

#[test]
fn find_id_by_name_returns_the_first_match() {
    let map = sample_map();
    assert_eq!(map.find_id_by_name("red_platform").map(|id| id.0), Some(0));
    assert_eq!(map.find_id_by_name("yellow_platform").map(|id| id.0), Some(1));
}

#[test]
fn find_id_by_name_misses_unknown_names() {
    let map = sample_map();
    assert!(map.find_id_by_name("purple_platform").is_none());
    assert!(map.find_id_by_name("").is_none());
    assert!(map.find_id_by_name("red_platform ").is_none());
}

#[test]
fn get_returns_the_sprite_at_the_id() {
    let map = sample_map();
    let s = map.get(SpriteId(1)).unwrap();
    assert_eq!(s.name(), "yellow_platform");
    assert_eq!(s.min(), vec2(0.0, 8.0));
    assert_eq!(s.max(), vec2(32.0, 16.0));
    assert!(map.get(SpriteId(3)).is_none());
}

#[test]
fn map_keeps_its_fields() {
    let map = sample_map();
    assert_eq!(map.name(), "jump");
    assert_eq!(map.version(), "1");
    assert_eq!(map.texture(), "jump.png");
    assert_eq!(map.dimensions(), vec2(64.0, 32.0));
    assert_eq!(map.sprites().len(), 3);
}

#[test]
fn quad_indices_cover_two_triangles() {
    assert_eq!(quad_indices(0), [0, 1, 2, 0, 2, 3]);
    assert_eq!(quad_indices(8), [8, 9, 10, 8, 10, 11]);
    assert_eq!(quad_indices(u32::MAX - 3), [u32::MAX - 3, u32::MAX - 2, u32::MAX - 1, u32::MAX - 3, u32::MAX - 1, u32::MAX]);
}

#[test]
fn sprite_maps_hand_out_ids_in_order_and_read_them_back() {
    let mut maps = SpriteMaps::new();
    assert!(maps.get_map(SpriteMapId(0)).is_none());
    let a = maps.add(sample_map());
    let b = maps.add(SpriteMap::new("b".to_string(), "2".to_string(), "b.png".to_string(), vec2(1.0, 1.0), vec![]));
    assert_eq!((a.0, b.0), (0, 1));
    assert_eq!(maps.get_map(a).unwrap().name(), "jump");
    assert_eq!(maps.get_map(b).unwrap().name(), "b");
    assert!(maps.get_map(SpriteMapId(2)).is_none());
    assert_eq!(maps.find_sprite(a, "yellow_platform").map(|id| id.0), Some(1));
    assert!(maps.find_sprite(b, "yellow_platform").is_none());
    assert!(maps.find_sprite(SpriteMapId(5), "red_platform").is_none());
}
