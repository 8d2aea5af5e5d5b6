//! Keyword attributes of maps, tilesets, objects and text, each read from its
//! exact keyword, plus colors, flags, tile offsets and grids.

use vstd::prelude::*;

use crate::error::Error;
use crate::text::text_is;
use crate::xml::{attr_i32, attr_u32, last_value, XmlNode};

verus! {

/// Orientation of a map or of a tileset's grid.
#[derive(Clone, Copy, Debug, PartialEq, Eq, Structural, Default, Hash)]
pub enum Orientation {
    #[default]
    Orthogonal,
    Isometric,
    Staggered,
    Hexagonal,
}

/// The Orientation named by a keyword.
pub open spec fn orientation_of(s: Seq<char>) -> Option<Orientation> {
    if s == "orthogonal"@ {
        Some(Orientation::Orthogonal)
    } else if s == "isometric"@ {
        Some(Orientation::Isometric)
    } else if s == "staggered"@ {
        Some(Orientation::Staggered)
    } else if s == "hexagonal"@ {
        Some(Orientation::Hexagonal)
    } else {
        None
    }
}

impl Orientation {
    /// Reads the keyword `value`; any other text is a parsing error.
    pub fn parse(value: &str) -> (r: Result<Orientation, Error>)
        ensures
            r == (match orientation_of(value@) {
                Some(v) => Ok(v),
                None => Err(Error::ParsingError),
            }),
    {
        if text_is(value, "orthogonal") {
            Ok(Orientation::Orthogonal)
        } else if text_is(value, "isometric") {
            Ok(Orientation::Isometric)
        } else if text_is(value, "staggered") {
            Ok(Orientation::Staggered)
        } else if text_is(value, "hexagonal") {
            Ok(Orientation::Hexagonal)
        } else {
            Err(Error::ParsingError)
        }
    }
}

/// The order in which tiles on tile layers are rendered.
#[derive(Clone, Copy, Debug, PartialEq, Eq, Structural, Default, Hash)]
pub enum RenderOrder {
    #[default]
    RightDown,
    RightUp,
    LeftDown,
    LeftUp,
}

/// The RenderOrder named by a keyword.
pub open spec fn render_order_of(s: Seq<char>) -> Option<RenderOrder> {
    if s == "right-down"@ {
        Some(RenderOrder::RightDown)
    } else if s == "right-up"@ {
        Some(RenderOrder::RightUp)
    } else if s == "left-down"@ {
        Some(RenderOrder::LeftDown)
    } else if s == "left-up"@ {
        Some(RenderOrder::LeftUp)
    } else {
        None
    }
}

impl RenderOrder {
    /// Reads the keyword `value`; any other text is a parsing error.
    pub fn from_str(value: &str) -> (r: Result<RenderOrder, Error>)
        ensures
            r == (match render_order_of(value@) {
                Some(v) => Ok(v),
                None => Err(Error::ParsingError),
            }),
    {
        if text_is(value, "right-down") {
            Ok(RenderOrder::RightDown)
        } else if text_is(value, "right-up") {
            Ok(RenderOrder::RightUp)
        } else if text_is(value, "left-down") {
            Ok(RenderOrder::LeftDown)
        } else if text_is(value, "left-up") {
            Ok(RenderOrder::LeftUp)
        } else {
            Err(Error::ParsingError)
        }
    }
}

/// For staggered and hexagonal maps, the axis (X or Y) that is staggered.
#[derive(Clone, Copy, Debug, PartialEq, Eq, Structural, Default, Hash)]
pub enum StaggerAxis {
    X,
    #[default]
    Y,
}

/// The StaggerAxis named by a keyword.
pub open spec fn stagger_axis_of(s: Seq<char>) -> Option<StaggerAxis> {
    if s == "x"@ {
        Some(StaggerAxis::X)
    } else if s == "y"@ {
        Some(StaggerAxis::Y)
    } else {
        None
    }
}

impl StaggerAxis {
    /// Reads the keyword `value`; any other text is a parsing error.
    pub fn parse(value: &str) -> (r: Result<StaggerAxis, Error>)
        ensures
            r == (match stagger_axis_of(value@) {
                Some(v) => Ok(v),
                None => Err(Error::ParsingError),
            }),
    {
        if text_is(value, "x") {
            Ok(StaggerAxis::X)
        } else if text_is(value, "y") {
            Ok(StaggerAxis::Y)
        } else {
            Err(Error::ParsingError)
        }
    }
}

/// For staggered and hexagonal maps, whether the even or the odd indexes along the staggered axis are shifted.
#[derive(Clone, Copy, Debug, PartialEq, Eq, Structural, Default, Hash)]
pub enum StaggerIndex {
    Even,
    #[default]
    Odd,
}

/// The StaggerIndex named by a keyword.
pub open spec fn stagger_index_of(s: Seq<char>) -> Option<StaggerIndex> {
    if s == "even"@ {
        Some(StaggerIndex::Even)
    } else if s == "odd"@ {
        Some(StaggerIndex::Odd)
    } else {
        None
    }
}

impl StaggerIndex {
    /// Reads the keyword `value`; any other text is a parsing error.
    pub fn parse(value: &str) -> (r: Result<StaggerIndex, Error>)
        ensures
            r == (match stagger_index_of(value@) {
                Some(v) => Ok(v),
                None => Err(Error::ParsingError),
            }),
    {
        if text_is(value, "even") {
            Ok(StaggerIndex::Even)
        } else if text_is(value, "odd") {
            Ok(StaggerIndex::Odd)
        } else {
            Err(Error::ParsingError)
        }
    }
}

/// The fill mode used when rendering tiles from a tileset.
#[derive(Clone, Copy, Debug, PartialEq, Eq, Structural, Default, Hash)]
pub enum FillMode {
    #[default]
    Stretch,
    PreserveAspectFit,
}

/// The FillMode named by a keyword.
pub open spec fn fill_mode_of(s: Seq<char>) -> Option<FillMode> {
    if s == "stretch"@ {
        Some(FillMode::Stretch)
    } else if s == "preserve-aspect-fit"@ {
        Some(FillMode::PreserveAspectFit)
    } else {
        None
    }
}

impl FillMode {
    /// Reads the keyword `value`; any other text is a parsing error.
    pub fn parse(value: &str) -> (r: Result<FillMode, Error>)
        ensures
            r == (match fill_mode_of(value@) {
                Some(v) => Ok(v),
                None => Err(Error::ParsingError),
            }),
    {
        if text_is(value, "stretch") {
            Ok(FillMode::Stretch)
        } else if text_is(value, "preserve-aspect-fit") {
            Ok(FillMode::PreserveAspectFit)
        } else {
            Err(Error::ParsingError)
        }
    }
}

/// Alignment of tile objects.
#[derive(Clone, Copy, Debug, PartialEq, Eq, Structural, Default, Hash)]
pub enum ObjectAlignment {
    #[default]
    Unspecified,
    TopLeft,
    Top,
    TopRight,
    Left,
    Center,
    Right,
    BottomLeft,
    Bottom,
    BottomRight,
}

/// The ObjectAlignment named by a keyword.
pub open spec fn object_alignment_of(s: Seq<char>) -> Option<ObjectAlignment> {
    if s == "unspecified"@ {
        Some(ObjectAlignment::Unspecified)
    } else if s == "topleft"@ {
        Some(ObjectAlignment::TopLeft)
    } else if s == "top"@ {
        Some(ObjectAlignment::Top)
    } else if s == "topright"@ {
        Some(ObjectAlignment::TopRight)
    } else if s == "left"@ {
        Some(ObjectAlignment::Left)
    } else if s == "center"@ {
        Some(ObjectAlignment::Center)
    } else if s == "right"@ {
        Some(ObjectAlignment::Right)
    } else if s == "bottomleft"@ {
        Some(ObjectAlignment::BottomLeft)
    } else if s == "bottom"@ {
        Some(ObjectAlignment::Bottom)
    } else if s == "bottomright"@ {
        Some(ObjectAlignment::BottomRight)
    } else {
        None
    }
}

impl ObjectAlignment {
    /// Reads the keyword `value`; any other text is a parsing error.
    pub fn parse(value: &str) -> (r: Result<ObjectAlignment, Error>)
        ensures
            r == (match object_alignment_of(value@) {
                Some(v) => Ok(v),
                None => Err(Error::ParsingError),
            }),
    {
        if text_is(value, "unspecified") {
            Ok(ObjectAlignment::Unspecified)
        } else if text_is(value, "topleft") {
            Ok(ObjectAlignment::TopLeft)
        } else if text_is(value, "top") {
            Ok(ObjectAlignment::Top)
        } else if text_is(value, "topright") {
            Ok(ObjectAlignment::TopRight)
        } else if text_is(value, "left") {
            Ok(ObjectAlignment::Left)
        } else if text_is(value, "center") {
            Ok(ObjectAlignment::Center)
        } else if text_is(value, "right") {
            Ok(ObjectAlignment::Right)
        } else if text_is(value, "bottomleft") {
            Ok(ObjectAlignment::BottomLeft)
        } else if text_is(value, "bottom") {
            Ok(ObjectAlignment::Bottom)
        } else if text_is(value, "bottomright") {
            Ok(ObjectAlignment::BottomRight)
        } else {
            Err(Error::ParsingError)
        }
    }
}

/// The size at which tiles of a tileset are drawn on a tile layer: their own size, or the map's grid size.
#[derive(Clone, Copy, Debug, PartialEq, Eq, Structural, Default, Hash)]
pub enum TileRenderSize {
    #[default]
    Tile,
    Grid,
}

/// The TileRenderSize named by a keyword.
pub open spec fn tile_render_size_of(s: Seq<char>) -> Option<TileRenderSize> {
    if s == "tile"@ {
        Some(TileRenderSize::Tile)
    } else if s == "grid"@ {
        Some(TileRenderSize::Grid)
    } else {
        None
    }
}

impl TileRenderSize {
    /// Reads the keyword `value`; any other text is a parsing error.
    pub fn parse(value: &str) -> (r: Result<TileRenderSize, Error>)
        ensures
            r == (match tile_render_size_of(value@) {
                Some(v) => Ok(v),
                None => Err(Error::ParsingError),
            }),
    {
        if text_is(value, "tile") {
            Ok(TileRenderSize::Tile)
        } else if text_is(value, "grid") {
            Ok(TileRenderSize::Grid)
        } else {
            Err(Error::ParsingError)
        }
    }
}

/// The draw order of objects in an object group.
#[derive(Clone, Copy, Debug, PartialEq, Eq, Structural, Default, Hash)]
pub enum DrawOrder {
    #[default]
    Index,
    TopDown,
}

/// The DrawOrder named by a keyword.
pub open spec fn draw_order_of(s: Seq<char>) -> Option<DrawOrder> {
    if s == "index"@ {
        Some(DrawOrder::Index)
    } else if s == "topdown"@ {
        Some(DrawOrder::TopDown)
    } else {
        None
    }
}

impl DrawOrder {
    /// Reads the keyword `value`; any other text is a parsing error.
    pub fn parse(value: &str) -> (r: Result<DrawOrder, Error>)
        ensures
            r == (match draw_order_of(value@) {
                Some(v) => Ok(v),
                None => Err(Error::ParsingError),
            }),
    {
        if text_is(value, "index") {
            Ok(DrawOrder::Index)
        } else if text_is(value, "topdown") {
            Ok(DrawOrder::TopDown)
        } else {
            Err(Error::ParsingError)
        }
    }
}

/// Horizontal alignment of text.
#[derive(Clone, Copy, Debug, PartialEq, Eq, Structural, Default, Hash)]
pub enum HAlign {
    #[default]
    Left,
    Center,
    Right,
    Justify,
}

/// The HAlign named by a keyword.
pub open spec fn h_align_of(s: Seq<char>) -> Option<HAlign> {
    if s == "left"@ {
        Some(HAlign::Left)
    } else if s == "center"@ {
        Some(HAlign::Center)
    } else if s == "right"@ {
        Some(HAlign::Right)
    } else if s == "justify"@ {
        Some(HAlign::Justify)
    } else {
        None
    }
}

impl HAlign {
    /// Reads the keyword `value`; any other text is a parsing error.
    pub fn parse(value: &str) -> (r: Result<HAlign, Error>)
        ensures
            r == (match h_align_of(value@) {
                Some(v) => Ok(v),
                None => Err(Error::ParsingError),
            }),
    {
        if text_is(value, "left") {
            Ok(HAlign::Left)
        } else if text_is(value, "center") {
            Ok(HAlign::Center)
        } else if text_is(value, "right") {
            Ok(HAlign::Right)
        } else if text_is(value, "justify") {
            Ok(HAlign::Justify)
        } else {
            Err(Error::ParsingError)
        }
    }
}

/// Vertical alignment of text.
#[derive(Clone, Copy, Debug, PartialEq, Eq, Structural, Default, Hash)]
pub enum VAlign {
    #[default]
    Top,
    Center,
    Bottom,
}

/// The VAlign named by a keyword.
pub open spec fn v_align_of(s: Seq<char>) -> Option<VAlign> {
    if s == "top"@ {
        Some(VAlign::Top)
    } else if s == "center"@ {
        Some(VAlign::Center)
    } else if s == "bottom"@ {
        Some(VAlign::Bottom)
    } else {
        None
    }
}

impl VAlign {
    /// Reads the keyword `value`; any other text is a parsing error.
    pub fn parse(value: &str) -> (r: Result<VAlign, Error>)
        ensures
            r == (match v_align_of(value@) {
                Some(v) => Ok(v),
                None => Err(Error::ParsingError),
            }),
    {
        if text_is(value, "top") {
            Ok(VAlign::Top)
        } else if text_is(value, "center") {
            Ok(VAlign::Center)
        } else if text_is(value, "bottom") {
            Ok(VAlign::Bottom)
        } else {
            Err(Error::ParsingError)
        }
    }
}

/// A `0` / `1` flag; anything else marks an invalid layer.
pub fn parse_bool(value: &str) -> (r: Result<bool, Error>)
    ensures
        r == (if value@ == "0"@ {
            Ok(false)
        } else if value@ == "1"@ {
            Ok(true)
        } else {
            Err(Error::InvalidLayerError)
        }),
{
    if text_is(value, "0") {
        Ok(false)
    } else if text_is(value, "1") {
        Ok(true)
    } else {
        Err(Error::InvalidLayerError)
    }
}

/// An RGBA color.
#[derive(Clone, Copy, Debug, PartialEq, Eq, Structural, Hash)]
pub struct Color {
    pub r: u8,
    pub g: u8,
    pub b: u8,
    pub a: u8,
}

pub open spec fn is_hex_digit(c: char) -> bool {
    ('0' <= c && c <= '9') || ('a' <= c && c <= 'f') || ('A' <= c && c <= 'F')
}

pub open spec fn hex_digit_value(c: char) -> int {
    if '0' <= c && c <= '9' {
        c as int - '0' as int
    } else if 'a' <= c && c <= 'f' {
        c as int - 'a' as int + 10
    } else {
        c as int - 'A' as int + 10
    }
}

/// The number that a string of hexadecimal digits denotes.
pub open spec fn hex_value(s: Seq<char>) -> int
    decreases s.len(),
{
    if s.len() == 0 {
        0
    } else {
        16 * hex_value(s.drop_last()) + hex_digit_value(s.last())
    }
}

/// Hexadecimal text of at most eight digits after an optional `+`.
pub open spec fn hex_u32_of(s: Seq<char>) -> Option<u32> {
    let d = if s.len() > 0 && s[0] == '+' {
        s.drop_first()
    } else {
        s
    };
    hex_digits_u32(d)
}

/// One to eight hexadecimal digits.
pub open spec fn hex_digits_u32(d: Seq<char>) -> Option<u32> {
    if 0 < d.len() <= 8 && forall|i: int| 0 <= i < d.len() ==> is_hex_digit(#[trigger] d[i]) {
        Some(hex_value(d) as u32)
    } else {
        None
    }
}

/// `v` read as `0xAARRGGBB`.
pub open spec fn argb(v: u32) -> Color {
    Color {
        r: ((v >> 16u32) & 0xffu32) as u8,
        g: ((v >> 8u32) & 0xffu32) as u8,
        b: (v & 0xffu32) as u8,
        a: ((v >> 24u32) & 0xffu32) as u8,
    }
}

/// `v` read as `0xRRGGBB`, fully opaque.
pub open spec fn rgb(v: u32) -> Color {
    Color { r: ((v >> 16u32) & 0xffu32) as u8, g: ((v >> 8u32) & 0xffu32) as u8, b: (v & 0xffu32) as u8, a: 255 }
}

/// The color written `#RRGGBB` or `#AARRGGBB` (the `#` optional).
pub open spec fn color_of(s: Seq<char>) -> Option<Color> {
    let t = if s.len() > 0 && s[0] == '#' {
        s.drop_first()
    } else {
        s
    };
    if t.len() == 6 {
        match hex_u32_of(t) {
            Some(v) => Some(rgb(v)),
            None => None,
        }
    } else if t.len() == 8 {
        match hex_u32_of(t) {
            Some(v) => Some(argb(v)),
            None => None,
        }
    } else {
        None
    }
}

pub open spec fn pow16(n: nat) -> int
    decreases n,
{
    if n == 0 {
        1
    } else {
        16 * pow16((n - 1) as nat)
    }
}

/// Value of the hexadecimal digits `c[lo..hi]`, when there are one to eight of them.
fn hex_in(c: &Vec<char>, lo: usize, hi: usize) -> (r: Option<u32>)
    requires
        lo <= hi <= c.len(),
    ensures
        r == (if 0 < hi - lo <= 8 && forall|i: int|
            lo <= i < hi ==> is_hex_digit(#[trigger] c@[i]) {
            Some(hex_value(c@.subrange(lo as int, hi as int)) as u32)
        } else {
            None::<u32>
        }),
{
    if lo == hi || hi - lo > 8 {
        return None;
    }
    let mut v: u64 = 0;
    let mut i = lo;
    assert(pow16(0) == 1);
    assert(c@.subrange(lo as int, lo as int) =~= Seq::<char>::empty());
    while i < hi
        invariant
            lo <= i <= hi <= c.len(),
            hi - lo <= 8,
            forall|j: int| lo <= j < i ==> is_hex_digit(#[trigger] c@[j]),
            v as int == hex_value(c@.subrange(lo as int, i as int)),
            v < pow16((i - lo) as nat),
            pow16((i - lo) as nat) <= 0x1_0000_0000,
        decreases hi - i,
    {
        let ch = c[i];
        let d: u64 = if '0' <= ch && ch <= '9' {
            (ch as u32 - '0' as u32) as u64
        } else if 'a' <= ch && ch <= 'f' {
            (ch as u32 - 'a' as u32 + 10) as u64
        } else if 'A' <= ch && ch <= 'F' {
            (ch as u32 - 'A' as u32 + 10) as u64
        } else {
            return None;
        };
        assert(c@.subrange(lo as int, i + 1).drop_last() =~= c@.subrange(lo as int, i as int));
        assert(pow16((i + 1 - lo) as nat) == 16 * pow16((i - lo) as nat));
        proof {
            lemma_pow16_le((i + 1 - lo) as nat);
        }
        v = v * 16 + d;
        i += 1;
    }
    Some(v as u32)
}

proof fn lemma_pow16_le(k: nat)
    requires
        k <= 8,
    ensures
        1 <= pow16(k) <= 0x1_0000_0000,
{
    reveal_with_fuel(pow16, 9);
    if k == 0 {
    } else if k == 1 {
    } else if k == 2 {
    } else if k == 3 {
    } else if k == 4 {
    } else if k == 5 {
    } else if k == 6 {
    } else if k == 7 {
    } else {
    }
}

impl Default for Color {
    /// Opaque white.
    fn default() -> (r: Color)
        ensures
            r == (Color { r: 255, g: 255, b: 255, a: 255 }),
    {
        Color { r: 255, g: 255, b: 255, a: 255 }
    }
}

impl Color {
    /// The color `0xAARRGGBB`.
    pub fn from_argb(value: u32) -> (r: Color)
        ensures
            r == argb(value),
    {
        let a = (value >> 24u32) & 0xffu32;
        let r = (value >> 16u32) & 0xffu32;
        let g = (value >> 8u32) & 0xffu32;
        let b = value & 0xffu32;
        Color { r: r as u8, g: g as u8, b: b as u8, a: a as u8 }
    }

    /// The opaque color `0xRRGGBB`.
    pub fn from_rgb(value: u32) -> (r: Color)
        ensures
            r == rgb(value),
    {
        let r = (value >> 16u32) & 0xffu32;
        let g = (value >> 8u32) & 0xffu32;
        let b = value & 0xffu32;
        Color { r: r as u8, g: g as u8, b: b as u8, a: 255 }
    }

    /// Reads `#RRGGBB` or `#AARRGGBB`, the `#` being optional.
    pub fn parse(s: &str) -> (r: Result<Color, Error>)
        ensures
            r == (match color_of(s@) {
                Some(c) => Ok(c),
                None => Err(Error::ParsingError),
            }),
    {
        let c = crate::text::chars_of(s);
        let ghost sv = s@;
        let start: usize = if c.len() > 0 && c[0] == '#' {
            1
        } else {
            0
        };
        let ghost t = c@.subrange(start as int, c@.len() as int);
        assert(t =~= (if sv.len() > 0 && sv[0] == '#' {
            sv.drop_first()
        } else {
            sv
        }));
        let n = c.len() - start;
        if n != 6 && n != 8 {
            return Err(Error::ParsingError);
        }
        let digits = if c[start] == '+' {
            start + 1
        } else {
            start
        };
        let ghost d = c@.subrange(digits as int, c@.len() as int);
        assert(d =~= (if t.len() > 0 && t[0] == '+' {
            t.drop_first()
        } else {
            t
        }));
        let v = match hex_in(&c, digits, c.len()) {
            None => {
                proof {
                    assert(d.len() == c@.len() - digits);
                    if 0 < d.len() <= 8 && forall|i: int|
                        0 <= i < d.len() ==> is_hex_digit(#[trigger] d[i]) {
                        assert forall|i: int| digits <= i < c@.len() implies is_hex_digit(
                            #[trigger] c@[i],
                        ) by {
                            assert(c@[i] == d[i - digits]);
                            assert(is_hex_digit(d[i - digits]));
                        }
                        assert(false);
                    }
                    assert(hex_u32_of(t) is None);
                }
                return Err(Error::ParsingError);
            },
            Some(v) => v,
        };
        assert forall|i: int| 0 <= i < d.len() implies is_hex_digit(#[trigger] d[i]) by {
            assert(d[i] == c@[i + digits]);
        }
        if n == 6 {
            Ok(Color::from_rgb(v))
        } else {
            Ok(Color::from_argb(v))
        }
    }
}

/// Offset applied to a tile when drawn from a tileset.
#[derive(Clone, Copy, Debug, PartialEq, Eq, Structural, Default, Hash)]
pub struct TileOffset {
    pub x: i32,
    pub y: i32,
}

pub open spec fn i32_or_zero(r: Option<i32>) -> i32 {
    match r {
        Some(v) => v,
        None => 0,
    }
}

pub open spec fn u32_or_zero(r: Option<u32>) -> u32 {
    match r {
        Some(v) => v,
        None => 0,
    }
}

impl TileOffset {
    /// Reads the `x` and `y` attributes of a `tileoffset` element (zero when absent).
    pub fn parse(node: &XmlNode) -> (r: Result<TileOffset, Error>)
        ensures
            r == (match (attr_i32(node.attributes@, "x"@), attr_i32(node.attributes@, "y"@)) {
                (Ok(x), Ok(y)) => Ok(TileOffset { x: i32_or_zero(x), y: i32_or_zero(y) }),
                _ => Err(Error::ParsingError),
            }),
    {
        let x = match node.attribute_i32("x") {
            Ok(v) => v,
            Err(e) => return Err(e),
        };
        let y = match node.attribute_i32("y") {
            Ok(v) => v,
            Err(e) => return Err(e),
        };
        Ok(
            TileOffset {
                x: match x {
                    Some(v) => v,
                    None => 0,
                },
                y: match y {
                    Some(v) => v,
                    None => 0,
                },
            },
        )
    }
}

/// The grid of a tileset: its orientation and cell size.
#[derive(Clone, Copy, Debug, PartialEq, Eq, Structural, Default, Hash)]
pub struct Grid {
    pub orientation: Orientation,
    pub width: u32,
    pub height: u32,
}

/// The grid that a `grid` element describes.
pub open spec fn grid_of(node: XmlNode) -> Result<Grid, Error> {
    let a = node.attributes@;
    let o = match last_value(a, "orientation"@) {
        None => Some(Orientation::Orthogonal),
        Some(v) => orientation_of(v),
    };
    match (o, attr_u32(a, "width"@), attr_u32(a, "height"@)) {
        (Some(o), Ok(w), Ok(h)) => Ok(Grid { orientation: o, width: u32_or_zero(w), height: u32_or_zero(h) }),
        _ => Err(Error::ParsingError),
    }
}

impl Grid {
    /// Reads the `orientation`, `width` and `height` attributes of a `grid` element.
    pub fn parse(node: &XmlNode) -> (r: Result<Grid, Error>)
        ensures
            r == grid_of(*node),
    {
        let orientation = match node.attribute("orientation") {
            None => Orientation::Orthogonal,
            Some(v) => match Orientation::parse(v) {
                Ok(o) => o,
                Err(e) => return Err(e),
            },
        };
        let width = match node.attribute_u32("width") {
            Ok(v) => v,
            Err(e) => return Err(e),
        };
        let height = match node.attribute_u32("height") {
            Ok(v) => v,
            Err(e) => return Err(e),
        };
        Ok(
            Grid {
                orientation,
                width: match width {
                    Some(v) => v,
                    None => 0,
                },
                height: match height {
                    Some(v) => v,
                    None => 0,
                },
            },
        )
    }
}

} // verus!
