use tiled_map::gid::tile_location;
use tiled_map::{Flip, Gid, ResolvedGid};

#[test]
fn greatest_threshold_wins() {
    let r = ResolvedGid::resolve(0x8000_0037, &[1, 50, 100]);
    assert_eq!(
        r,
        ResolvedGid::Value {
            tileset_index: 1,
            tile_id: 5,
            flip: Flip { horizontal: true, vertical: false, diagonal: false, rotated_hex_120: false },
        }
    );
}

#[test]
fn resolution_edges() {
    let gids = [1, 50, 100];
    assert_eq!(ResolvedGid::resolve(0, &gids), ResolvedGid::Null);
    assert_eq!(ResolvedGid::resolve(0xf000_0000, &gids), ResolvedGid::Null);
    assert_eq!(ResolvedGid::resolve(7, &[]), ResolvedGid::Null);
    assert_eq!(ResolvedGid::resolve(3, &[5, 9]), ResolvedGid::Null);
    assert_eq!(
        ResolvedGid::resolve(100, &gids),
        ResolvedGid::Value { tileset_index: 2, tile_id: 0, flip: Flip::default() }
    );
    assert_eq!(
        ResolvedGid::resolve(49, &gids),
        ResolvedGid::Value { tileset_index: 0, tile_id: 48, flip: Flip::default() }
    );
    assert_eq!(
        ResolvedGid::resolve(0x7000_0001, &gids),
        ResolvedGid::Value {
            tileset_index: 0,
            tile_id: 0,
            flip: Flip { horizontal: false, vertical: true, diagonal: true, rotated_hex_120: true },
        }
    );
}

#[test]
fn equal_thresholds_pick_the_last_entry() {
    assert_eq!(
        ResolvedGid::resolve(10, &[1, 5, 5]),
        ResolvedGid::Value { tileset_index: 2, tile_id: 5, flip: Flip::default() }
    );
}

#[test]
fn raw_gid_flags() {
    let g = Gid(2147484833);
    assert_eq!(g.value(), 1185);
    assert!(g.is_flipped_horizontally());
    assert!(!g.is_flipped_vertically());
    assert!(!g.is_flipped_diagonally());
    assert!(!g.is_rotated_hex_120());
    assert!(Gid(0x4000_0000).is_flipped_vertically());
    assert!(Gid(0x2000_0000).is_flipped_diagonally());
    assert!(Gid(0x1000_0000).is_rotated_hex_120());
    assert_eq!(Gid(0xffff_ffff).value(), 0x0fff_ffff);
    assert!(ResolvedGid::Null.is_null());
}

#[test]
fn tile_locations() {
    assert_eq!(tile_location(&[1, 50, 100], Gid(0x8000_0037)), Some((1, 5)));
    assert_eq!(tile_location(&[1, 50, 100], Gid(120)), Some((2, 20)));
    assert_eq!(tile_location(&[10], Gid(3)), None);
}

#[test]
fn zero_id_locates_nothing() {
    assert_eq!(tile_location(&[0], Gid(0)), None);
    assert_eq!(tile_location(&[0, 5], Gid(0x8000_0000)), None);
    assert_eq!(tile_location(&[0], Gid(3)), Some((0, 3)));
}
