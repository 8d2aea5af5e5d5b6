//! Errors raised while reading map data.

use vstd::prelude::*;

verus! {

/// Any error that can occur during parsing.
#[derive(Clone, Copy, Debug, PartialEq, Eq, Structural)]
pub enum Error {
    /// A number, keyword or color failed to parse.
    ParsingError,
    /// Reading the input failed.
    IOError,
    /// A layer lacks a required element or text, or holds an invalid flag.
    InvalidLayerError,
    /// Tile data could not be decoded: bad base64, a corrupt compressed stream,
    /// or a byte count that is not a multiple of four.
    DecodeLayerError,
    /// The pair of `encoding` and `compression` attributes is not supported.
    UnsupportedEncodingError,
    /// A tile layer would exceed the size bound of a raster.
    SizeLimitError,
    /// The XML document is malformed.
    XmlParsingError,
    /// The JSON document is malformed.
    JsonParsingError,
}

} // verus!
