//! Image references and tile animations read from their elements.

use vstd::prelude::*;

use crate::codec::opt_text;
use crate::error::Error;
use crate::text::text_is;
use crate::xml::{attr_u32, last_value, XmlNode};

verus! {

/// An image of an image layer, a tileset or a tile.
#[derive(Clone, Debug, PartialEq, Eq, Default)]
pub struct Image {
    format: String,
    source: String,
    trans: Option<String>,
    width: Option<u32>,
    height: Option<u32>,
}

pub open spec fn or_empty(o: Option<Seq<char>>) -> Seq<char> {
    match o {
        Some(s) => s,
        None => Seq::empty(),
    }
}

pub open spec fn opt_string_view(o: Option<String>) -> Option<Seq<char>> {
    match o {
        Some(s) => Some(s@),
        None => None,
    }
}

fn owned(s: Option<&str>) -> (r: Option<String>)
    ensures
        opt_string_view(r) == opt_text(s),
{
    match s {
        Some(v) => Some(v.to_owned()),
        None => None,
    }
}

impl Image {
    pub closed spec fn format_view(&self) -> Seq<char> {
        self.format@
    }

    pub closed spec fn source_view(&self) -> Seq<char> {
        self.source@
    }

    pub closed spec fn trans_view(&self) -> Option<Seq<char>> {
        opt_string_view(self.trans)
    }

    pub closed spec fn width_view(&self) -> Option<u32> {
        self.width
    }

    pub closed spec fn height_view(&self) -> Option<u32> {
        self.height
    }

    pub fn format(&self) -> (r: &str)
        ensures
            r@ == self.format_view(),
    {
        self.format.as_str()
    }

    pub fn source(&self) -> (r: &str)
        ensures
            r@ == self.source_view(),
    {
        self.source.as_str()
    }

    /// The color treated as transparent, if any.
    pub fn trans(&self) -> (r: Option<&str>)
        ensures
            opt_text(r) == self.trans_view(),
    {
        match &self.trans {
            Some(t) => Some(t.as_str()),
            None => None,
        }
    }

    pub fn width(&self) -> (r: Option<u32>)
        ensures
            r == self.width_view(),
    {
        self.width
    }

    pub fn height(&self) -> (r: Option<u32>)
        ensures
            r == self.height_view(),
    {
        self.height
    }

    /// Reads an `image` element: `format`, `source` and `trans` as text, `width` and
    /// `height` as numbers.
    pub fn parse(node: &XmlNode) -> (r: Result<Image, Error>)
        ensures
            match (attr_u32(node.attributes@, "width"@), attr_u32(node.attributes@, "height"@)) {
                (Ok(w), Ok(h)) => r matches Ok(img) && img.format_view() == or_empty(
                    last_value(node.attributes@, "format"@),
                ) && img.source_view() == or_empty(last_value(node.attributes@, "source"@))
                    && img.trans_view() == last_value(node.attributes@, "trans"@)
                    && img.width_view() == w && img.height_view() == h,
                _ => r == Err::<Image, Error>(Error::ParsingError),
            },
    {
        let width = match node.attribute_u32("width") {
            Ok(v) => v,
            Err(e) => return Err(e),
        };
        let height = match node.attribute_u32("height") {
            Ok(v) => v,
            Err(e) => return Err(e),
        };
        let format = match node.attribute("format") {
            Some(v) => v.to_owned(),
            None => String::new(),
        };
        let source = match node.attribute("source") {
            Some(v) => v.to_owned(),
            None => String::new(),
        };
        let trans = owned(node.attribute("trans"));
        Ok(Image { format, source, trans, width, height })
    }
}

/// A frame of a tile animation: the local tile id shown and for how many milliseconds.
#[derive(Clone, Copy, Debug, PartialEq, Eq, Structural, Default, Hash)]
pub struct Frame {
    pub tile_id: u32,
    pub duration: u32,
}

/// The frames of an animated tile, in order.
#[derive(Clone, Debug, PartialEq, Eq, Default)]
pub struct Animation(Vec<Frame>);

/// The frame that a `frame` element describes.
pub open spec fn frame_of(node: XmlNode) -> Result<Frame, Error> {
    match (attr_u32(node.attributes@, "tileid"@), attr_u32(node.attributes@, "duration"@)) {
        (Ok(t), Ok(d)) => Ok(
            Frame {
                tile_id: match t {
                    Some(v) => v,
                    None => 0,
                },
                duration: match d {
                    Some(v) => v,
                    None => 0,
                },
            },
        ),
        _ => Err(Error::ParsingError),
    }
}

/// The frames among `nodes`: elements called `frame`, in order; the first one that
/// fails decides the error.
pub open spec fn frames_of(nodes: Seq<XmlNode>) -> Result<Seq<Frame>, Error>
    decreases nodes.len(),
{
    if nodes.len() == 0 {
        Ok(Seq::empty())
    } else {
        match frames_of(nodes.drop_last()) {
            Err(e) => Err(e),
            Ok(fs) => if nodes.last().name@ != "frame"@ {
                Ok(fs)
            } else {
                match frame_of(nodes.last()) {
                    Err(e) => Err(e),
                    Ok(f) => Ok(fs.push(f)),
                }
            },
        }
    }
}

proof fn lemma_frames_of_error(nodes: Seq<XmlNode>, k: int, e: Error)
    requires
        0 <= k <= nodes.len(),
        frames_of(nodes.take(k)) == Err::<Seq<Frame>, Error>(e),
    ensures
        frames_of(nodes) == Err::<Seq<Frame>, Error>(e),
    decreases nodes.len() - k,
{
    if k < nodes.len() {
        assert(nodes.take(k + 1).drop_last() =~= nodes.take(k));
        lemma_frames_of_error(nodes, k + 1, e);
    } else {
        assert(nodes.take(k) =~= nodes);
    }
}

impl Animation {
    pub closed spec fn frames_view(&self) -> Seq<Frame> {
        self.0@
    }

    pub fn frames(&self) -> (r: &[Frame])
        ensures
            r@ == self.frames_view(),
    {
        self.0.as_slice()
    }

    /// Reads the `frame` children of an `animation` element.
    pub fn parse(node: &XmlNode) -> (r: Result<Animation, Error>)
        ensures
            match r {
                Ok(a) => frames_of(node.children@) == Ok::<Seq<Frame>, Error>(a.frames_view()),
                Err(e) => frames_of(node.children@) == Err::<Seq<Frame>, Error>(e),
            },
    {
        let mut frames: Vec<Frame> = Vec::new();
        let mut i: usize = 0;
        assert(node.children@.take(0) =~= Seq::<XmlNode>::empty());
        while i < node.children.len()
            invariant
                i <= node.children@.len(),
                frames_of(node.children@.take(i as int)) == Ok::<Seq<Frame>, Error>(frames@),
            decreases node.children.len() - i,
        {
            assert(node.children@.take(i + 1).drop_last() =~= node.children@.take(i as int));
            let child = &node.children[i];
            if text_is(child.name.as_str(), "frame") {
                let tile_id = match child.attribute_u32("tileid") {
                    Ok(v) => v,
                    Err(e) => {
                        proof {
                            lemma_frames_of_error(node.children@, i + 1, e);
                        }
                        return Err(e);
                    },
                };
                let duration = match child.attribute_u32("duration") {
                    Ok(v) => v,
                    Err(e) => {
                        proof {
                            lemma_frames_of_error(node.children@, i + 1, e);
                        }
                        return Err(e);
                    },
                };
                frames.push(
                    Frame {
                        tile_id: match tile_id {
                            Some(v) => v,
                            None => 0,
                        },
                        duration: match duration {
                            Some(v) => v,
                            None => 0,
                        },
                    },
                );
            }
            i += 1;
        }
        assert(node.children@.take(i as int) =~= node.children@);
        Ok(Animation(frames))
    }
}

} // verus!
