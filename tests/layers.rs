use base64::Engine;
use tiled_map::layer::MAX_RASTER_CELLS;
use tiled_map::{Chunk, Error, Flip, ResolvedGid, TileLayer, TileLayerRegion, XmlAttribute, XmlNode};

fn node(name: &str, attrs: &[(&str, &str)], text: Option<&str>, children: Vec<XmlNode>) -> XmlNode {
    XmlNode {
        name: name.to_string(),
        attributes: attrs
            .iter()
            .map(|(n, v)| XmlAttribute { name: n.to_string(), value: v.to_string() })
            .collect(),
        text: text.map(|t| t.to_string()),
        children,
    }
}

fn value(tileset_index: usize, tile_id: u32) -> ResolvedGid {
    ResolvedGid::Value { tileset_index, tile_id, flip: Flip::default() }
}

fn finite_layer(w: &str, h: &str, csv: &str) -> XmlNode {
    node(
        "layer",
        &[("id", "1"), ("width", w), ("height", h)],
        None,
        vec![node("data", &[("encoding", "csv")], Some(csv), vec![])],
    )
}

#[test]
fn finite_csv_layer_cells() {
    let layer = TileLayer::parse(&finite_layer("3", "2", "\n1,2,3,\n4,0,6\n"), &[1], false).unwrap();
    assert_eq!(layer.region(), TileLayerRegion { x: 0, y: 0, width: 3, height: 2 });
    assert_eq!(layer.width(), 3);
    assert_eq!(layer.height(), 2);
    assert_eq!(layer.gid_at(0, 0), value(0, 0));
    assert_eq!(layer.gid_at(2, 0), value(0, 2));
    assert_eq!(layer.gid_at(0, 1), value(0, 3));
    assert_eq!(layer.gid_at(1, 1), ResolvedGid::Null);
    assert_eq!(layer.gid_at(2, 1), value(0, 5));
}

#[test]
fn finite_layer_in_base64() {
    let mut bytes = Vec::new();
    for id in [1u32, 2, 3, 4] {
        bytes.extend_from_slice(&id.to_le_bytes());
    }
    let text = base64::engine::general_purpose::STANDARD.encode(&bytes);
    let data = node("data", &[("encoding", "base64")], Some(&format!("\n   {text}\n  ")), vec![]);
    let layer_node = node("layer", &[("width", "2"), ("height", "2")], None, vec![data]);
    let layer = TileLayer::parse(&layer_node, &[1, 3], false).unwrap();
    assert_eq!(layer.gid_at(1, 0), value(0, 1));
    assert_eq!(layer.gid_at(0, 1), value(1, 0));
    assert_eq!(layer.gid_at(1, 1), value(1, 1));
}

#[test]
fn lookups_outside_are_null() {
    let layer = TileLayer::parse(&finite_layer("2", "2", "1,1,1,1"), &[1], false).unwrap();
    assert_eq!(layer.gid_at(-1, 0), ResolvedGid::Null);
    assert_eq!(layer.gid_at(0, -1), ResolvedGid::Null);
    assert_eq!(layer.gid_at(2, 0), ResolvedGid::Null);
    assert_eq!(layer.gid_at(0, 2), ResolvedGid::Null);
    assert_eq!(layer.gid_at(i32::MIN, i32::MAX), ResolvedGid::Null);
    assert_eq!(layer.gid_at(1, 1), value(0, 0));
}

#[test]
fn short_and_long_id_lists() {
    let short = TileLayer::from_ids(2, 2, &[1, 2, 3], &[1]).unwrap();
    assert_eq!(short.gid_at(0, 1), value(0, 2));
    assert_eq!(short.gid_at(1, 1), ResolvedGid::Null);
    let long = TileLayer::from_ids(1, 1, &[2, 3, 4], &[1]).unwrap();
    assert_eq!(long.gid_at(0, 0), value(0, 1));
    assert_eq!(long.gids().next(), Some((0, 0, value(0, 1))));
}

#[test]
fn oversized_layers_are_refused() {
    assert_eq!(TileLayer::from_ids(100_000, 100_000, &[], &[1]).err(), Some(Error::SizeLimitError));
    assert!(TileLayer::from_ids(0, u32::MAX, &[], &[1]).is_err());
    assert!(TileLayer::from_ids(1 << 13, 1 << 13, &[], &[1]).is_ok());
    assert_eq!(MAX_RASTER_CELLS, 1 << 26);
}

fn chunk(x: &str, y: &str, w: &str, h: &str, csv: &str) -> XmlNode {
    node("chunk", &[("x", x), ("y", y), ("width", w), ("height", h)], Some(csv), vec![])
}

fn csv_of(n: usize, id: u32) -> String {
    vec![id.to_string(); n].join(",")
}

#[test]
fn infinite_layer_bounding_box_and_gaps() {
    let data = node(
        "data",
        &[("encoding", "csv")],
        Some("\n"),
        vec![chunk("-4", "-2", "16", "16", &csv_of(256, 1)), chunk("0", "0", "16", "16", &csv_of(256, 2))],
    );
    let layer_node = node("layer", &[("width", "30"), ("height", "20")], None, vec![data]);
    let layer = TileLayer::parse(&layer_node, &[1], true).unwrap();
    assert_eq!(layer.region(), TileLayerRegion { x: -4, y: -2, width: 20, height: 18 });
    assert_eq!(layer.gid_at(-4, -2), value(0, 0));
    assert_eq!(layer.gid_at(0, 0), value(0, 1));
    assert_eq!(layer.gid_at(11, 13), value(0, 1));
    assert_eq!(layer.gid_at(13, -1), ResolvedGid::Null);
    assert_eq!(layer.gid_at(-1, 15), ResolvedGid::Null);
    assert_eq!(layer.gid_at(16, 0), ResolvedGid::Null);
}

#[test]
fn separated_chunks_leave_null_between() {
    let data = node(
        "data",
        &[("encoding", "csv")],
        None,
        vec![chunk("0", "0", "2", "2", "1,2,3,4"), node("other", &[], None, vec![]), chunk("5", "5", "2", "2", "5,6,7,8")],
    );
    let layer_node = node("layer", &[], None, vec![node("properties", &[], None, vec![]), data]);
    let layer = TileLayer::parse(&layer_node, &[1], true).unwrap();
    assert_eq!(layer.region(), TileLayerRegion { x: 0, y: 0, width: 7, height: 7 });
    assert_eq!(layer.gid_at(1, 1), value(0, 3));
    assert_eq!(layer.gid_at(3, 3), ResolvedGid::Null);
    assert_eq!(layer.gid_at(2, 5), ResolvedGid::Null);
    assert_eq!(layer.gid_at(6, 6), value(0, 7));
}

#[test]
fn later_chunk_wins_overlap() {
    let chunks = vec![
        Chunk { x: 0, y: 0, width: 2, height: 1, tile_gids: vec![value(0, 1), value(0, 2)] },
        Chunk { x: 1, y: 0, width: 1, height: 1, tile_gids: vec![value(1, 9)] },
    ];
    let layer = TileLayer::from_chunks(0, 0, &chunks).unwrap();
    assert_eq!(layer.gid_at(0, 0), value(0, 1));
    assert_eq!(layer.gid_at(1, 0), value(1, 9));
}

#[test]
fn no_chunks_give_an_empty_raster() {
    let layer = TileLayer::from_chunks(5, 5, &[]).unwrap();
    assert_eq!(layer.region(), TileLayerRegion { x: 0, y: 0, width: 0, height: 0 });
    assert_eq!(layer.gid_at(0, 0), ResolvedGid::Null);
    assert_eq!(layer.gids().next(), None);
}

#[test]
fn huge_chunk_boxes_are_refused() {
    let chunks = vec![
        Chunk { x: -2_000_000_000, y: 0, width: 1, height: 1, tile_gids: vec![] },
        Chunk { x: 2_000_000_000, y: 0, width: 1, height: 1, tile_gids: vec![] },
    ];
    assert_eq!(TileLayer::from_chunks(0, 0, &chunks).err(), Some(Error::SizeLimitError));
    let edge = vec![Chunk { x: i32::MAX, y: 0, width: 2, height: 1, tile_gids: vec![] }];
    assert_eq!(TileLayer::from_chunks(0, 0, &edge).err(), Some(Error::SizeLimitError));
}

#[test]
fn iteration_in_row_major_order() {
    let data = node("data", &[("encoding", "csv")], None, vec![chunk("-1", "-1", "2", "2", "0,5,0,7")]);
    let layer = TileLayer::parse(&node("layer", &[], None, vec![data]), &[1], true).unwrap();
    let mut all = layer.gids();
    assert_eq!(all.next(), Some((-1, -1, ResolvedGid::Null)));
    assert_eq!(all.next(), Some((0, -1, value(0, 4))));
    assert_eq!(all.next(), Some((-1, 0, ResolvedGid::Null)));
    assert_eq!(all.next(), Some((0, 0, value(0, 6))));
    assert_eq!(all.next(), None);
}

#[test]
fn non_null_iteration_filters_in_order() {
    let layer = TileLayer::from_ids(3, 2, &[0, 4, 0, 2147483650, 0, 9], &[1, 5]).unwrap();
    let mut tiles = layer.gids().non_null();
    assert_eq!(tiles.next(), Some((1, 0, value(0, 3))));
    assert_eq!(
        tiles.next(),
        Some((
            0,
            1,
            ResolvedGid::Value {
                tileset_index: 0,
                tile_id: 1,
                flip: Flip { horizontal: true, vertical: false, diagonal: false, rotated_hex_120: false }
            }
        ))
    );
    assert_eq!(tiles.next(), Some((2, 1, value(1, 4))));
    assert_eq!(tiles.next(), None);
    assert_eq!(tiles.next(), None);
}

#[test]
fn unsupported_encoding_fails_the_layer() {
    let data = node("data", &[("encoding", "base64"), ("compression", "unknown")], Some("AQAAAA=="), vec![]);
    let layer_node = node("layer", &[("width", "1"), ("height", "1")], None, vec![data]);
    assert_eq!(TileLayer::parse(&layer_node, &[1], false).err(), Some(Error::UnsupportedEncodingError));
    let data = node("data", &[("encoding", "base64"), ("compression", "unknown")], None, vec![]);
    let layer_node = node("layer", &[], None, vec![data]);
    assert_eq!(TileLayer::parse(&layer_node, &[1], true).err(), Some(Error::UnsupportedEncodingError));
}

#[test]
fn structural_and_format_errors() {
    let no_data = node("layer", &[("width", "1"), ("height", "1")], None, vec![]);
    assert_eq!(TileLayer::parse(&no_data, &[1], false).err(), Some(Error::InvalidLayerError));
    let no_text = node("layer", &[], None, vec![node("data", &[("encoding", "csv")], None, vec![])]);
    assert_eq!(TileLayer::parse(&no_text, &[1], false).err(), Some(Error::InvalidLayerError));
    assert_eq!(TileLayer::parse(&finite_layer("two", "1", "1,2"), &[1], false).err(), Some(Error::ParsingError));
    assert_eq!(TileLayer::parse(&finite_layer("2", "1", "1,b"), &[1], false).err(), Some(Error::ParsingError));
    let bad_chunk = node("data", &[("encoding", "csv")], None, vec![chunk("a", "0", "1", "1", "1")]);
    assert_eq!(TileLayer::parse(&node("layer", &[], None, vec![bad_chunk]), &[1], true).err(), Some(Error::ParsingError));
    let textless = node("data", &[("encoding", "csv")], None, vec![node("chunk", &[("width", "1")], None, vec![])]);
    assert_eq!(TileLayer::parse(&node("layer", &[], None, vec![textless]), &[1], true).err(), Some(Error::InvalidLayerError));
}

#[test]
fn chunk_without_ids_is_a_format_error() {
    let data = node("data", &[("encoding", "base64")], None, vec![chunk("0", "0", "2", "2", "  \n ")]);
    assert_eq!(TileLayer::parse(&node("layer", &[], None, vec![data]), &[1], true).err(), Some(Error::ParsingError));
    let empty = node("data", &[("encoding", "base64")], None, vec![chunk("0", "0", "0", "2", "")]);
    let layer = TileLayer::parse(&node("layer", &[], None, vec![empty]), &[1], true).unwrap();
    assert_eq!(layer.region(), TileLayerRegion { x: 0, y: 0, width: 0, height: 2 });
}
