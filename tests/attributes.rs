use tiled_map::{
    parse_bool, Animation, Color, DrawOrder, Error, FillMode, Frame, Grid, HAlign, Image, ObjectAlignment,
    Orientation, RenderOrder, StaggerAxis, StaggerIndex, TileOffset, TileRenderSize, VAlign, XmlAttribute,
    XmlNode,
};

fn node(name: &str, attrs: &[(&str, &str)], children: Vec<XmlNode>) -> XmlNode {
    XmlNode {
        name: name.to_string(),
        attributes: attrs
            .iter()
            .map(|(n, v)| XmlAttribute { name: n.to_string(), value: v.to_string() })
            .collect(),
        text: None,
        children,
    }
}

#[test]
fn keyword_enums() {
    assert_eq!(Orientation::parse("hexagonal"), Ok(Orientation::Hexagonal));
    assert_eq!(Orientation::parse("Orthogonal"), Err(Error::ParsingError));
    assert_eq!(RenderOrder::from_str("left-up"), Ok(RenderOrder::LeftUp));
    assert_eq!(RenderOrder::from_str("up"), Err(Error::ParsingError));
    assert_eq!(StaggerAxis::parse("x"), Ok(StaggerAxis::X));
    assert_eq!(StaggerIndex::parse("even"), Ok(StaggerIndex::Even));
    assert_eq!(FillMode::parse("preserve-aspect-fit"), Ok(FillMode::PreserveAspectFit));
    assert_eq!(ObjectAlignment::parse("bottomright"), Ok(ObjectAlignment::BottomRight));
    assert_eq!(ObjectAlignment::parse(""), Err(Error::ParsingError));
    assert_eq!(TileRenderSize::parse("grid"), Ok(TileRenderSize::Grid));
    assert_eq!(DrawOrder::parse("topdown"), Ok(DrawOrder::TopDown));
    assert_eq!(HAlign::parse("justify"), Ok(HAlign::Justify));
    assert_eq!(VAlign::parse("bottom"), Ok(VAlign::Bottom));
    assert_eq!(StaggerAxis::default(), StaggerAxis::Y);
    assert_eq!(StaggerIndex::default(), StaggerIndex::Odd);
}

#[test]
fn bool_flags() {
    assert_eq!(parse_bool("0"), Ok(false));
    assert_eq!(parse_bool("1"), Ok(true));
    assert_eq!(parse_bool("true"), Err(Error::InvalidLayerError));
}

#[test]
fn colors() {
    assert_eq!(Color::parse("#ff8000"), Ok(Color { r: 255, g: 128, b: 0, a: 255 }));
    assert_eq!(Color::parse("80112233"), Ok(Color { r: 0x11, g: 0x22, b: 0x33, a: 0x80 }));
    assert_eq!(Color::parse("#AbCdEf"), Ok(Color { r: 0xab, g: 0xcd, b: 0xef, a: 255 }));
    assert_eq!(Color::parse("#ff80"), Err(Error::ParsingError));
    assert_eq!(Color::parse("#gg0000"), Err(Error::ParsingError));
    assert_eq!(Color::parse(""), Err(Error::ParsingError));
    assert_eq!(Color::from_argb(0x01020304), Color { r: 2, g: 3, b: 4, a: 1 });
    assert_eq!(Color::from_rgb(0xff010203), Color { r: 1, g: 2, b: 3, a: 255 });
    assert_eq!(Color::default(), Color { r: 255, g: 255, b: 255, a: 255 });
}

#[test]
fn offsets_and_grids() {
    assert_eq!(TileOffset::parse(&node("tileoffset", &[("x", "-3"), ("y", "7")], vec![])), Ok(TileOffset { x: -3, y: 7 }));
    assert_eq!(TileOffset::parse(&node("tileoffset", &[], vec![])), Ok(TileOffset { x: 0, y: 0 }));
    assert_eq!(TileOffset::parse(&node("tileoffset", &[("x", "1.5")], vec![])), Err(Error::ParsingError));
    assert_eq!(
        Grid::parse(&node("grid", &[("orientation", "isometric"), ("width", "32"), ("height", "16")], vec![])),
        Ok(Grid { orientation: Orientation::Isometric, width: 32, height: 16 })
    );
    assert_eq!(Grid::parse(&node("grid", &[("orientation", "round")], vec![])), Err(Error::ParsingError));
}

#[test]
fn images() {
    let img = Image::parse(&node("image", &[("source", "images/pepe.png"), ("width", "64"), ("trans", "ff00ff")], vec![])).unwrap();
    assert_eq!(img.source(), "images/pepe.png");
    assert_eq!(img.format(), "");
    assert_eq!(img.trans(), Some("ff00ff"));
    assert_eq!(img.width(), Some(64));
    assert_eq!(img.height(), None);
    assert_eq!(Image::parse(&node("image", &[("height", "x")], vec![])), Err(Error::ParsingError));
}

#[test]
fn animations() {
    let anim = Animation::parse(&node(
        "animation",
        &[],
        vec![
            node("frame", &[("tileid", "144"), ("duration", "100")], vec![]),
            node("note", &[], vec![]),
            node("frame", &[("tileid", "145"), ("duration", "200")], vec![]),
        ],
    ))
    .unwrap();
    assert_eq!(anim.frames(), &[Frame { tile_id: 144, duration: 100 }, Frame { tile_id: 145, duration: 200 }]);
    let bad = node("animation", &[], vec![node("frame", &[("duration", "-1")], vec![])]);
    assert_eq!(Animation::parse(&bad), Err(Error::ParsingError));
}
