use dungeon_core::sprite_data::SpriteSetOptions;
use dungeon_core::util::clamp;
use dungeon_core::util::get_sprite_coords;
use dungeon_core::util::max;
use dungeon_core::util::min;

#[test]
fn clamp_pins_to_the_interval() {
    assert_eq!(clamp(5, 0, 10), 5);
    assert_eq!(clamp(-3, 0, 10), 0);
    assert_eq!(clamp(42, 0, 10), 10);
    assert_eq!(clamp(7, 7, 7), 7);
}

#[test]
fn min_and_max_choose_correctly() {
    assert_eq!(min(2, 9), 2);
    assert_eq!(min(9, 2), 2);
    assert_eq!(min(4, 4), 4);
    assert_eq!(max(2, 9), 9);
    assert_eq!(max(9, 2), 9);
    assert_eq!(max(-4, -4), -4);
}

#[test]
fn sprite_coords_scale_by_tile_size() {
    assert_eq!(get_sprite_coords(3, 2, 16, 16), (48, 32));
    assert_eq!(get_sprite_coords(0, 0, 16, 16), (0, 0));
}

fn options_with_positions(position: Vec<u32>) -> SpriteSetOptions {
    SpriteSetOptions {
        texture: String::from("all_tiles.png"),
        size: (16, 16),
        position,
        tile: None,
        variants: None,
    }
}

#[test]
fn sprite_positions_must_be_pairs() {
    assert!(options_with_positions(vec![1, 2]).validate().is_ok());
    assert!(options_with_positions(vec![1, 2, 3, 4]).validate().is_ok());
    assert!(options_with_positions(vec![]).validate().is_err());
    assert!(options_with_positions(vec![1]).validate().is_err());
    assert!(options_with_positions(vec![1, 2, 3]).validate().is_err());
}
