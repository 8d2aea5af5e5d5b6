//! Decoding and querying of tile-map layers: payload decoding (CSV, base64, and
//! base64 with gzip, zlib or zstd), chunk compositing, global tile id resolution,
//! and the keyword, color and element parsers around them.

pub mod attributes;
pub mod codec;
pub mod error;
pub mod gid;
pub mod image;
pub mod layer;
pub mod text;
pub mod world;
pub mod xml;

pub use attributes::{
    parse_bool, Color, DrawOrder, FillMode, Grid, HAlign, ObjectAlignment, Orientation,
    RenderOrder, StaggerAxis, StaggerIndex, TileOffset, TileRenderSize, VAlign,
};
pub use codec::{parse_tile_gids, PayloadFormat};
pub use error::Error;
pub use gid::{Flip, Gid, ResolvedGid};
pub use image::{Animation, Frame, Image};
pub use layer::{Chunk, Gids, NonNullGids, TileLayer, TileLayerRegion};
pub use world::{MapRef, World};
pub use xml::{XmlAttribute, XmlNode};
