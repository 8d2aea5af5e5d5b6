//! Tile layers: the dense raster of resolved ids, built from a finite layer's ids or
//! composited from the chunks of an infinite layer, with bounds-checked lookup and
//! row-major iteration in world coordinates.

use vstd::prelude::*;

use crate::codec::{decode_payload, format_of, ids_view, payload_ids, trim, PayloadFormat};
use crate::error::Error;
use crate::gid::{resolved, ResolvedGid};
use crate::text::{text_is, trimmed};
use crate::xml::{attr_i32, attr_u32, first_named, last_value, XmlNode};

verus! {

/// Upper bound on the number of cells of one raster; larger layers are refused
/// before anything is allocated.
pub const MAX_RASTER_CELLS: u64 = 0x400_0000;

/// A rectangle of tiles: origin `(x, y)` and extent `width` by `height`.
#[derive(Clone, Copy, Debug, PartialEq, Eq, Structural, Default)]
pub struct TileLayerRegion {
    pub x: i32,
    pub y: i32,
    pub width: u32,
    pub height: u32,
}

/// A raster whose origin and extent keep every cell's coordinates within `i32` and
/// whose cell count is within the size bound.
pub open spec fn region_fits(x: int, y: int, w: int, h: int) -> bool {
    &&& i32::MIN <= x && i32::MIN <= y
    &&& 0 <= w <= u32::MAX && 0 <= h <= u32::MAX
    &&& x + w <= 0x8000_0000 && y + h <= 0x8000_0000
    &&& w * h <= MAX_RASTER_CELLS
}

pub open spec fn in_region(r: TileLayerRegion, x: int, y: int) -> bool {
    r.x <= x < r.x + r.width && r.y <= y < r.y + r.height
}

/// Row-major position of the cell `(x, y)` inside the region.
pub open spec fn flat_index(r: TileLayerRegion, x: int, y: int) -> int {
    (y - r.y) * r.width + (x - r.x)
}

/// What a tile layer holds: its declared size, the region its raster covers and
/// the raster's cells in row-major order.
pub struct LayerModel {
    pub width: u32,
    pub height: u32,
    pub region: TileLayerRegion,
    pub cells: Seq<ResolvedGid>,
}

pub open spec fn model_wf(m: LayerModel) -> bool {
    &&& region_fits(m.region.x as int, m.region.y as int, m.region.width as int, m.region.height as int)
    &&& m.cells.len() == m.region.width * m.region.height
}

/// The id at world coordinates `(x, y)`: `Null` outside the raster.
pub open spec fn cell_at(m: LayerModel, x: int, y: int) -> ResolvedGid {
    if in_region(m.region, x, y) {
        m.cells[flat_index(m.region, x, y)]
    } else {
        ResolvedGid::Null
    }
}

pub proof fn lemma_flat_index_bounds(r: TileLayerRegion, x: int, y: int)
    requires
        in_region(r, x, y),
    ensures
        0 <= flat_index(r, x, y) < r.width * r.height,
{
    let lx = x - r.x;
    let ly = y - r.y;
    let w = r.width as int;
    let h = r.height as int;
    assert(0 <= ly * w + lx < h * w) by (nonlinear_arith)
        requires
            0 <= lx < w,
            0 <= ly < h,
    ;
    assert(h * w == r.width * r.height) by (nonlinear_arith)
        requires
            h == r.height,
            w == r.width,
    ;
}

pub proof fn lemma_flat_index_injective(r: TileLayerRegion, x1: int, y1: int, x2: int, y2: int)
    requires
        in_region(r, x1, y1),
        in_region(r, x2, y2),
        flat_index(r, x1, y1) == flat_index(r, x2, y2),
    ensures
        x1 == x2 && y1 == y2,
{
    let w = r.width as int;
    let a1 = x1 - r.x;
    let a2 = x2 - r.x;
    let b1 = y1 - r.y;
    let b2 = y2 - r.y;
    assert(b1 == b2) by (nonlinear_arith)
        requires
            0 <= a1 < w,
            0 <= a2 < w,
            b1 * w + a1 == b2 * w + a2,
    {
        if b1 < b2 {
            assert(b1 * w + w <= b2 * w);
        } else if b2 < b1 {
            assert(b2 * w + w <= b1 * w);
        }
    }
}

/// A decoded layer of tiles.
#[derive(Debug)]
pub struct TileLayer {
    width: u32,
    height: u32,
    region: TileLayerRegion,
    tile_gids: Vec<ResolvedGid>,
}

impl View for TileLayer {
    type V = LayerModel;

    closed spec fn view(&self) -> LayerModel {
        LayerModel {
            width: self.width,
            height: self.height,
            region: self.region,
            cells: self.tile_gids@,
        }
    }
}

/// The cells of a finite layer: raw id `k` resolved into cell `k`; cells past the
/// end of `ids` stay `Null` and ids past the last cell are ignored.
pub open spec fn finite_cells(width: u32, height: u32, ids: Seq<u32>, first_gids: Seq<u32>) -> Seq<
    ResolvedGid,
> {
    Seq::new(
        (width * height) as nat,
        |k: int|
            if k < ids.len() {
                resolved(ids[k], first_gids)
            } else {
                ResolvedGid::Null
            },
    )
}

/// The finite layer of the given size over the given raw ids.
pub open spec fn finite_model(width: u32, height: u32, ids: Seq<u32>, first_gids: Seq<u32>) -> LayerModel {
    LayerModel {
        width,
        height,
        region: TileLayerRegion { x: 0, y: 0, width, height },
        cells: finite_cells(width, height, ids, first_gids),
    }
}

impl TileLayer {
    pub open spec fn wf(&self) -> bool {
        model_wf(self@)
    }

    /// Declared width of the layer (meaningless for an infinite map).
    pub fn width(&self) -> (r: u32)
        ensures
            r == self@.width,
    {
        self.width
    }

    /// Declared height of the layer (meaningless for an infinite map).
    pub fn height(&self) -> (r: u32)
        ensures
            r == self@.height,
    {
        self.height
    }

    /// The rectangle that the raster covers.
    pub fn region(&self) -> (r: TileLayerRegion)
        ensures
            r == self@.region,
    {
        self.region
    }

    /// The id at world coordinates `(x, y)`; `Null` when out of bounds.
    pub fn gid_at(&self, x: i32, y: i32) -> (r: ResolvedGid)
        requires
            self.wf(),
        ensures
            r == cell_at(self@, x as int, y as int),
    {
        let lx: i64 = x as i64 - self.region.x as i64;
        let ly: i64 = y as i64 - self.region.y as i64;
        if lx < 0 || lx >= self.region.width as i64 || ly < 0 || ly >= self.region.height as i64 {
            return ResolvedGid::Null;
        }
        proof {
            lemma_flat_index_bounds(self.region, x as int, y as int);
        }
        let idx = ly as u64 * self.region.width as u64 + lx as u64;
        self.tile_gids[idx as usize]
    }

    /// Builds a finite layer of `width` by `height` cells from raw ids in row-major
    /// order, resolving each against `first_gids`. Cells without an id stay `Null`;
    /// extra ids are ignored. A raster beyond the size bound is refused.
    pub fn from_ids(width: u32, height: u32, ids: &[u32], first_gids: &[u32]) -> (r: Result<
        TileLayer,
        Error,
    >)
        ensures
            r is Ok <==> region_fits(0, 0, width as int, height as int),
            r matches Err(e) ==> e == Error::SizeLimitError,
            r matches Ok(l) ==> l.wf() && l@ == finite_model(width, height, ids@, first_gids@),
    {
        if width as u64 > 0x8000_0000 || height as u64 > 0x8000_0000 {
            return Err(Error::SizeLimitError);
        }
        assert(width as int * height as int <= 0x8000_0000 * 0x8000_0000) by (nonlinear_arith)
            requires
                width <= 0x8000_0000,
                height <= 0x8000_0000,
        ;
        let n: u64 = width as u64 * height as u64;
        if n > MAX_RASTER_CELLS {
            return Err(Error::SizeLimitError);
        }
        let n = n as usize;
        let mut cells: Vec<ResolvedGid> = Vec::new();
        let mut k: usize = 0;
        while k < n
            invariant
                k <= n,
                n == width * height,
                cells.len() == k,
                forall|j: int|
                    0 <= j < k ==> cells@[j] == finite_cells(width, height, ids@, first_gids@)[j],
            decreases n - k,
        {
            let g = if k < ids.len() {
                ResolvedGid::resolve(ids[k], first_gids)
            } else {
                ResolvedGid::Null
            };
            cells.push(g);
            k += 1;
        }
        let layer = TileLayer {
            width,
            height,
            region: TileLayerRegion { x: 0, y: 0, width, height },
            tile_gids: cells,
        };
        assert(layer@.cells =~= finite_cells(width, height, ids@, first_gids@));
        Ok(layer)
    }
}


/// One decoded chunk of an infinite layer: origin, extent and its ids in row-major order.
#[derive(Debug)]
pub struct Chunk {
    pub x: i32,
    pub y: i32,
    pub width: u32,
    pub height: u32,
    pub tile_gids: Vec<ResolvedGid>,
}

/// A chunk as a value: origin, extent and cells.
pub struct ChunkModel {
    pub x: i32,
    pub y: i32,
    pub width: u32,
    pub height: u32,
    pub cells: Seq<ResolvedGid>,
}

impl View for Chunk {
    type V = ChunkModel;

    open spec fn view(&self) -> ChunkModel {
        ChunkModel {
            x: self.x,
            y: self.y,
            width: self.width,
            height: self.height,
            cells: self.tile_gids@,
        }
    }
}

pub open spec fn chunk_models(cs: Seq<Chunk>) -> Seq<ChunkModel> {
    cs.map_values(|c: Chunk| c@)
}

/// The chunk's rectangle `[x, x + width) x [y, y + height)` holds `(x, y)`.
pub open spec fn covers(c: ChunkModel, x: int, y: int) -> bool {
    c.x <= x < c.x + c.width && c.y <= y < c.y + c.height
}

/// The chunk's id at world coordinates `(x, y)`; `Null` past the end of its ids.
pub open spec fn chunk_cell(c: ChunkModel, x: int, y: int) -> ResolvedGid {
    let k = (y - c.y) * c.width + (x - c.x);
    if 0 <= k < c.cells.len() {
        c.cells[k]
    } else {
        ResolvedGid::Null
    }
}

/// The id at `(x, y)` after writing the chunks in order: the last chunk that covers
/// the cell wins; a cell that no chunk covers is `Null`.
pub open spec fn composite_cell(cs: Seq<ChunkModel>, x: int, y: int) -> ResolvedGid
    decreases cs.len(),
{
    if cs.len() == 0 {
        ResolvedGid::Null
    } else if covers(cs.last(), x, y) {
        chunk_cell(cs.last(), x, y)
    } else {
        composite_cell(cs.drop_last(), x, y)
    }
}

/// The union bounding box `(min_x, min_y, max_x, max_y)` of the chunks' rectangles;
/// all zero when there are none.
pub open spec fn chunk_bounds(cs: Seq<ChunkModel>) -> (int, int, int, int)
    decreases cs.len(),
{
    if cs.len() == 0 {
        (0, 0, 0, 0)
    } else {
        let c = cs.last();
        let x2 = c.x + c.width;
        let y2 = c.y + c.height;
        if cs.len() == 1 {
            (c.x as int, c.y as int, x2, y2)
        } else {
            let b = chunk_bounds(cs.drop_last());
            (
                if b.0 <= c.x {
                    b.0
                } else {
                    c.x as int
                },
                if b.1 <= c.y {
                    b.1
                } else {
                    c.y as int
                },
                if b.2 >= x2 {
                    b.2
                } else {
                    x2
                },
                if b.3 >= y2 {
                    b.3
                } else {
                    y2
                },
            )
        }
    }
}

/// The region that the composite raster of `cs` covers.
pub open spec fn bounds_region(cs: Seq<ChunkModel>) -> TileLayerRegion {
    let b = chunk_bounds(cs);
    TileLayerRegion {
        x: b.0 as i32,
        y: b.1 as i32,
        width: (b.2 - b.0) as u32,
        height: (b.3 - b.1) as u32,
    }
}

pub open spec fn bounds_fit(cs: Seq<ChunkModel>) -> bool {
    let b = chunk_bounds(cs);
    region_fits(b.0, b.1, b.2 - b.0, b.3 - b.1)
}

/// `m` is the layer composited from `cs`, with declared size `width` by `height`.
pub open spec fn composited(m: LayerModel, width: u32, height: u32, cs: Seq<ChunkModel>) -> bool {
    &&& m.width == width
    &&& m.height == height
    &&& m.region == bounds_region(cs)
    &&& forall|x: int, y: int| #[trigger] cell_at(m, x, y) == composite_cell(cs, x, y)
}

/// Every chunk lies inside the bounding box, which is never inverted.
pub proof fn lemma_bounds_contain(cs: Seq<ChunkModel>)
    ensures
        chunk_bounds(cs).0 <= chunk_bounds(cs).2,
        chunk_bounds(cs).1 <= chunk_bounds(cs).3,
        cs.len() > 0 ==> i32::MIN <= chunk_bounds(cs).0 <= i32::MAX && i32::MIN <= chunk_bounds(
            cs,
        ).1 <= i32::MAX,
        forall|j: int|
            0 <= j < cs.len() ==> chunk_bounds(cs).0 <= (#[trigger] cs[j]).x && cs[j].x
                + cs[j].width <= chunk_bounds(cs).2 && chunk_bounds(cs).1 <= cs[j].y && cs[j].y
                + cs[j].height <= chunk_bounds(cs).3,
    decreases cs.len(),
{
    if cs.len() > 1 {
        let rest = cs.drop_last();
        lemma_bounds_contain(rest);
        assert(forall|j: int| 0 <= j < rest.len() ==> rest[j] == cs[j]);
    }
}

/// A cell outside the bounding box is covered by no chunk, so it is `Null`.
pub proof fn lemma_outside_bounds_null(cs: Seq<ChunkModel>, x: int, y: int)
    requires
        !(chunk_bounds(cs).0 <= x < chunk_bounds(cs).2 && chunk_bounds(cs).1 <= y < chunk_bounds(
            cs,
        ).3),
    ensures
        composite_cell(cs, x, y) == ResolvedGid::Null,
    decreases cs.len(),
{
    if cs.len() > 0 {
        lemma_bounds_contain(cs);
        let rest = cs.drop_last();
        lemma_bounds_contain(rest);
        assert(cs[cs.len() - 1] == cs.last());
        assert(!covers(cs.last(), x, y));
        if rest.len() == 0 {
            assert(composite_cell(rest, x, y) == ResolvedGid::Null);
        } else {
            let b = chunk_bounds(cs);
            let br = chunk_bounds(rest);
            assert(b.0 <= br.0 && br.2 <= b.2 && b.1 <= br.1 && br.3 <= b.3);
            lemma_outside_bounds_null(rest, x, y);
        }
    }
}

proof fn lemma_composite_step(cs: Seq<ChunkModel>, k: int, x: int, y: int)
    requires
        0 <= k < cs.len(),
    ensures
        composite_cell(cs.take(k + 1), x, y) == (if covers(cs[k], x, y) {
            chunk_cell(cs[k], x, y)
        } else {
            composite_cell(cs.take(k), x, y)
        }),
{
    assert(cs.take(k + 1).drop_last() =~= cs.take(k));
}

proof fn lemma_bounds_step(cs: Seq<ChunkModel>, k: int)
    requires
        0 <= k < cs.len(),
    ensures
        chunk_bounds(cs.take(k + 1)) == (if k == 0 {
            (
                cs[k].x as int,
                cs[k].y as int,
                cs[k].x + cs[k].width,
                cs[k].y + cs[k].height,
            )
        } else {
            let b = chunk_bounds(cs.take(k));
            let c = cs[k];
            (
                if b.0 <= c.x {
                    b.0
                } else {
                    c.x as int
                },
                if b.1 <= c.y {
                    b.1
                } else {
                    c.y as int
                },
                if b.2 >= c.x + c.width {
                    b.2
                } else {
                    c.x + c.width
                },
                if b.3 >= c.y + c.height {
                    b.3
                } else {
                    c.y + c.height
                },
            )
        }),
{
    assert(cs.take(k + 1).drop_last() =~= cs.take(k));
}

impl TileLayer {
    /// Composites decoded chunks into one raster covering their union bounding box.
    /// Chunks are written in order, so where two overlap the later one wins; cells
    /// that no chunk covers are `Null`. A box beyond the size bound is refused.
    pub fn from_chunks(width: u32, height: u32, chunks: &[Chunk]) -> (r: Result<TileLayer, Error>)
        ensures
            r is Ok <==> bounds_fit(chunk_models(chunks@)),
            r matches Err(e) ==> e == Error::SizeLimitError,
            r matches Ok(l) ==> l.wf() && composited(l@, width, height, chunk_models(chunks@)),
    {
        let ghost cs = chunk_models(chunks@);
        let mut min_x: i64 = 0;
        let mut min_y: i64 = 0;
        let mut max_x: i64 = 0;
        let mut max_y: i64 = 0;
        let mut k: usize = 0;
        while k < chunks.len()
            invariant
                k <= chunks@.len(),
                cs == chunk_models(chunks@),
                (min_x as int, min_y as int, max_x as int, max_y as int) == chunk_bounds(
                    cs.take(k as int),
                ),
                i32::MIN <= min_x <= i32::MAX,
                i32::MIN <= min_y <= i32::MAX,
                i32::MIN <= max_x <= i32::MAX + u32::MAX,
                i32::MIN <= max_y <= i32::MAX + u32::MAX,
            decreases chunks.len() - k,
        {
            proof {
                lemma_bounds_step(cs, k as int);
            }
            let c = &chunks[k];
            let x1 = c.x as i64;
            let y1 = c.y as i64;
            let x2 = c.x as i64 + c.width as i64;
            let y2 = c.y as i64 + c.height as i64;
            if k == 0 {
                min_x = x1;
                min_y = y1;
                max_x = x2;
                max_y = y2;
            } else {
                if x1 < min_x {
                    min_x = x1;
                }
                if y1 < min_y {
                    min_y = y1;
                }
                if x2 > max_x {
                    max_x = x2;
                }
                if y2 > max_y {
                    max_y = y2;
                }
            }
            k += 1;
        }
        proof {
            assert(cs.take(k as int) =~= cs);
            lemma_bounds_contain(cs);
        }
        let w = max_x - min_x;
        let h = max_y - min_y;
        if w > 0xffff_ffff || h > 0xffff_ffff || max_x > 0x8000_0000 || max_y > 0x8000_0000 {
            return Err(Error::SizeLimitError);
        }
        assert(w * h <= 0xffff_ffff * 0xffff_ffff) by (nonlinear_arith)
            requires
                0 <= w <= 0xffff_ffff,
                0 <= h <= 0xffff_ffff,
        ;
        let n128 = (w as u128) * (h as u128);
        if n128 > MAX_RASTER_CELLS as u128 {
            return Err(Error::SizeLimitError);
        }
        let n = n128 as usize;
        let ghost reg = TileLayerRegion {
            x: min_x as i32,
            y: min_y as i32,
            width: w as u32,
            height: h as u32,
        };
        let mut cells: Vec<ResolvedGid> = Vec::new();
        let mut i: usize = 0;
        while i < n
            invariant
                i <= n,
                cells.len() == i,
                forall|j: int| 0 <= j < i ==> cells@[j] == ResolvedGid::Null,
            decreases n - i,
        {
            cells.push(ResolvedGid::Null);
            i += 1;
        }
        assert(cs.take(0) =~= Seq::<ChunkModel>::empty());
        assert forall|x: int, y: int|
            #![trigger flat_index(reg, x, y)]
            in_region(reg, x, y) implies cells@[flat_index(reg, x, y)] == composite_cell(
                cs.take(0),
                x,
                y,
            ) by {
            lemma_flat_index_bounds(reg, x, y);
        }
        let mut k: usize = 0;
        while k < chunks.len()
            invariant
                k <= chunks@.len(),
                cs == chunk_models(chunks@),
                reg == bounds_region(cs),
                region_fits(reg.x as int, reg.y as int, reg.width as int, reg.height as int),
                min_x == reg.x,
                min_y == reg.y,
                w == reg.width,
                h == reg.height,
                n == w * h,
                cells.len() == n,
                forall|j: int|
                    0 <= j < cs.len() ==> reg.x <= (#[trigger] cs[j]).x && cs[j].x + cs[j].width
                        <= reg.x + reg.width && reg.y <= cs[j].y && cs[j].y + cs[j].height
                        <= reg.y + reg.height,
                forall|x: int, y: int|
                    #![trigger flat_index(reg, x, y)]
                    in_region(reg, x, y) ==> cells@[flat_index(reg, x, y)] == composite_cell(
                        cs.take(k as int),
                        x,
                        y,
                    ),
            decreases chunks.len() - k,
        {
            let c = &chunks[k];
            let ghost cm = cs[k as int];
            assert(cm == c@);
            let mut ly: u32 = 0;
            while ly < c.height
                invariant
                    k < chunks@.len(),
                    c == &chunks@[k as int],
                    cm == c@,
                    ly <= c.height,
                    reg.x <= c.x && c.x + c.width <= reg.x + reg.width && reg.y <= c.y && c.y
                        + c.height <= reg.y + reg.height,
                    region_fits(reg.x as int, reg.y as int, reg.width as int, reg.height as int),
                    min_x == reg.x,
                    min_y == reg.y,
                    w == reg.width,
                    h == reg.height,
                    n == w * h,
                    cells.len() == n,
                    forall|x: int, y: int|
                        #![trigger flat_index(reg, x, y)]
                        in_region(reg, x, y) ==> cells@[flat_index(reg, x, y)] == (if covers(
                            cm,
                            x,
                            y,
                        ) && y < c.y + ly {
                            chunk_cell(cm, x, y)
                        } else {
                            composite_cell(cs.take(k as int), x, y)
                        }),
                decreases c.height - ly,
            {
                let mut lx: u32 = 0;
                while lx < c.width
                    invariant
                        k < chunks@.len(),
                        c == &chunks@[k as int],
                        cm == c@,
                        ly < c.height,
                        lx <= c.width,
                        reg.x <= c.x && c.x + c.width <= reg.x + reg.width && reg.y <= c.y && c.y
                            + c.height <= reg.y + reg.height,
                        region_fits(
                            reg.x as int,
                            reg.y as int,
                            reg.width as int,
                            reg.height as int,
                        ),
                        min_x == reg.x,
                        min_y == reg.y,
                        w == reg.width,
                        h == reg.height,
                        n == w * h,
                        cells.len() == n,
                        forall|x: int, y: int|
                            #![trigger flat_index(reg, x, y)]
                            in_region(reg, x, y) ==> cells@[flat_index(reg, x, y)] == (if covers(
                                cm,
                                x,
                                y,
                            ) && (y < c.y + ly || (y == c.y + ly && x < c.x + lx)) {
                                chunk_cell(cm, x, y)
                            } else {
                                composite_cell(cs.take(k as int), x, y)
                            }),
                    decreases c.width - lx,
                {
                    let gx: i64 = c.x as i64 + lx as i64;
                    let gy: i64 = c.y as i64 + ly as i64;
                    proof {
                        lemma_flat_index_bounds(reg, gx as int, gy as int);
                    }
                    assert(ly as int * c.width as int <= 0xffff_ffff * 0xffff_ffff)
                        by (nonlinear_arith)
                        requires
                            ly <= 0xffff_ffff,
                            c.width <= 0xffff_ffff,
                    ;
                    let src: u64 = ly as u64 * c.width as u64 + lx as u64;
                    let v = if src < c.tile_gids.len() as u64 {
                        c.tile_gids[src as usize]
                    } else {
                        ResolvedGid::Null
                    };
                    assert(v == chunk_cell(cm, gx as int, gy as int));
                    let dst: u64 = (gy - min_y) as u64 * w as u64 + (gx - min_x) as u64;
                    assert(dst == flat_index(reg, gx as int, gy as int));
                    let ghost before = cells@;
                    cells.set(dst as usize, v);
                    assert(cells@ == before.update(dst as int, v));
                    assert forall|x: int, y: int|
                        #![trigger flat_index(reg, x, y)]
                        in_region(reg, x, y) implies cells@[flat_index(reg, x, y)] == (if covers(
                            cm,
                            x,
                            y,
                        ) && (y < c.y + ly || (y == c.y + ly && x < c.x + lx + 1)) {
                            chunk_cell(cm, x, y)
                        } else {
                            composite_cell(cs.take(k as int), x, y)
                        }) by {
                        lemma_flat_index_bounds(reg, x, y);
                        if x != gx || y != gy {
                            if flat_index(reg, x, y) == flat_index(reg, gx as int, gy as int) {
                                lemma_flat_index_injective(reg, x, y, gx as int, gy as int);
                            }
                            assert(cells@[flat_index(reg, x, y)] == before[flat_index(reg, x, y)]);
                        } else {
                            assert(covers(cm, x, y));
                            assert(cells@[flat_index(reg, x, y)] == v);
                        }
                    }
                    lx += 1;
                }
                ly += 1;
            }
            assert forall|x: int, y: int|
                #![trigger flat_index(reg, x, y)]
                in_region(reg, x, y) implies cells@[flat_index(reg, x, y)] == composite_cell(
                    cs.take(k + 1),
                    x,
                    y,
                ) by {
                lemma_composite_step(cs, k as int, x, y);
            }
            k += 1;
        }
        let region = TileLayerRegion {
            x: min_x as i32,
            y: min_y as i32,
            width: w as u32,
            height: h as u32,
        };
        assert(region == reg);
        let layer = TileLayer { width, height, region, tile_gids: cells };
        proof {
            assert(cs.take(k as int) =~= cs);
            assert forall|x: int, y: int|
                #[trigger] cell_at(layer@, x, y) == composite_cell(cs, x, y) by {
                if !in_region(reg, x, y) {
                    lemma_outside_bounds_null(cs, x, y);
                }
            }
        }
        Ok(layer)
    }
}


pub open spec fn or_zero_u32(o: Option<u32>) -> u32 {
    match o {
        Some(v) => v,
        None => 0,
    }
}

pub open spec fn or_zero_i32(o: Option<i32>) -> i32 {
    match o {
        Some(v) => v,
        None => 0,
    }
}

/// Raw ids resolved one by one against `first_gids`.
pub open spec fn resolved_all(ids: Seq<u32>, first_gids: Seq<u32>) -> Seq<ResolvedGid> {
    ids.map_values(|id: u32| resolved(id, first_gids))
}

/// The chunk that a `chunk` element describes: integer attributes `x`, `y`, `width`
/// and `height` (zero when absent) and its text decoded in the layer's format. A
/// chunk of positive area whose text holds no ids is a format error.
pub open spec fn chunk_of(node: XmlNode, format: PayloadFormat, first_gids: Seq<u32>) -> Result<
    ChunkModel,
    Error,
> {
    let a = node.attributes@;
    match (attr_i32(a, "x"@), attr_i32(a, "y"@), attr_u32(a, "width"@), attr_u32(a, "height"@)) {
        (Ok(x), Ok(y), Ok(w), Ok(h)) => match node.text {
            None => Err(Error::InvalidLayerError),
            Some(t) => match payload_ids(trimmed(t@), format) {
                Err(e) => Err(e),
                Ok(ids) => if ids.len() == 0 && or_zero_u32(w) as int * or_zero_u32(h) as int > 0 {
                    Err(Error::ParsingError)
                } else {
                    Ok(
                    ChunkModel {
                        x: or_zero_i32(x),
                        y: or_zero_i32(y),
                        width: or_zero_u32(w),
                        height: or_zero_u32(h),
                        cells: resolved_all(ids, first_gids),
                    },
                )
                },
            },
        },
        _ => Err(Error::ParsingError),
    }
}

/// The chunks among `nodes`, in order; elements not called `chunk` are skipped and
/// the first chunk that fails decides the error.
pub open spec fn chunks_of(nodes: Seq<XmlNode>, format: PayloadFormat, first_gids: Seq<u32>) -> Result<
    Seq<ChunkModel>,
    Error,
>
    decreases nodes.len(),
{
    if nodes.len() == 0 {
        Ok(Seq::empty())
    } else {
        match chunks_of(nodes.drop_last(), format, first_gids) {
            Err(e) => Err(e),
            Ok(cs) => if nodes.last().name@ != "chunk"@ {
                Ok(cs)
            } else {
                match chunk_of(nodes.last(), format, first_gids) {
                    Err(e) => Err(e),
                    Ok(c) => Ok(cs.push(c)),
                }
            },
        }
    }
}

/// The payload format named by a data element's `encoding` and `compression` attributes.
pub open spec fn data_format(data: XmlNode) -> Option<PayloadFormat> {
    format_of(last_value(data.attributes@, "encoding"@), last_value(data.attributes@, "compression"@))
}

/// The raw ids of a finite layer's data element.
pub open spec fn finite_ids_of(data: XmlNode) -> Result<Seq<u32>, Error> {
    match data_format(data) {
        None => Err(Error::UnsupportedEncodingError),
        Some(f) => match data.text {
            None => Err(Error::InvalidLayerError),
            Some(t) => payload_ids(trimmed(t@), f),
        },
    }
}

/// The decoded chunks of an infinite layer's data element.
pub open spec fn infinite_chunks_of(data: XmlNode, first_gids: Seq<u32>) -> Result<
    Seq<ChunkModel>,
    Error,
> {
    match data_format(data) {
        None => Err(Error::UnsupportedEncodingError),
        Some(f) => chunks_of(data.children@, f, first_gids),
    }
}

/// `r` is the finite layer of size `width` by `height` over `ids`, or the error that
/// stops it.
pub open spec fn finite_outcome(
    r: Result<TileLayer, Error>,
    width: u32,
    height: u32,
    ids: Result<Seq<u32>, Error>,
    first_gids: Seq<u32>,
) -> bool {
    match ids {
        Err(e) => r == Err::<TileLayer, Error>(e),
        Ok(ids) => if region_fits(0, 0, width as int, height as int) {
            r matches Ok(l) && l.wf() && l@ == finite_model(width, height, ids, first_gids)
        } else {
            r == Err::<TileLayer, Error>(Error::SizeLimitError)
        },
    }
}

/// `r` is the layer composited from `chunks`, or the error that stops it.
pub open spec fn composite_outcome(
    r: Result<TileLayer, Error>,
    width: u32,
    height: u32,
    chunks: Result<Seq<ChunkModel>, Error>,
) -> bool {
    match chunks {
        Err(e) => r == Err::<TileLayer, Error>(e),
        Ok(cs) => if bounds_fit(cs) {
            r matches Ok(l) && l.wf() && composited(l@, width, height, cs)
        } else {
            r == Err::<TileLayer, Error>(Error::SizeLimitError)
        },
    }
}

/// What parsing a `layer` element gives: its `width` and `height` attributes, then its
/// first `data` child decoded as a finite or an infinite layer.
pub open spec fn layer_outcome(
    r: Result<TileLayer, Error>,
    node: XmlNode,
    first_gids: Seq<u32>,
    infinite: bool,
) -> bool {
    match (attr_u32(node.attributes@, "width"@), attr_u32(node.attributes@, "height"@)) {
        (Ok(w), Ok(h)) => match first_named(node.children@, "data"@) {
            None => r == Err::<TileLayer, Error>(Error::InvalidLayerError),
            Some(i) => {
                let data = node.children@[i];
                if infinite {
                    composite_outcome(r, or_zero_u32(w), or_zero_u32(h), infinite_chunks_of(data, first_gids))
                } else {
                    finite_outcome(r, or_zero_u32(w), or_zero_u32(h), finite_ids_of(data), first_gids)
                }
            },
        },
        _ => r == Err::<TileLayer, Error>(Error::ParsingError),
    }
}

pub open spec fn chunk_view(r: Result<Chunk, Error>) -> Result<ChunkModel, Error> {
    match r {
        Ok(c) => Ok(c@),
        Err(e) => Err(e),
    }
}

/// Resolves every raw id against `first_gids`, keeping the order.
pub fn resolve_all(ids: &[u32], first_gids: &[u32]) -> (r: Vec<ResolvedGid>)
    ensures
        r@ == resolved_all(ids@, first_gids@),
{
    let mut r: Vec<ResolvedGid> = Vec::new();
    let mut i: usize = 0;
    while i < ids.len()
        invariant
            i <= ids@.len(),
            r@.len() == i,
            forall|j: int| 0 <= j < i ==> r@[j] == resolved(ids@[j], first_gids@),
        decreases ids.len() - i,
    {
        r.push(ResolvedGid::resolve(ids[i], first_gids));
        i += 1;
    }
    assert(r@ =~= resolved_all(ids@, first_gids@));
    r
}

/// Decodes one `chunk` element.
pub fn parse_chunk(node: &XmlNode, format: PayloadFormat, first_gids: &[u32]) -> (r: Result<
    Chunk,
    Error,
>)
    ensures
        chunk_view(r) == chunk_of(*node, format, first_gids@),
{
    let x = match node.attribute_i32("x") {
        Ok(v) => v,
        Err(e) => return Err(e),
    };
    let y = match node.attribute_i32("y") {
        Ok(v) => v,
        Err(e) => return Err(e),
    };
    let width = match node.attribute_u32("width") {
        Ok(v) => v,
        Err(e) => return Err(e),
    };
    let height = match node.attribute_u32("height") {
        Ok(v) => v,
        Err(e) => return Err(e),
    };
    let text = match &node.text {
        None => return Err(Error::InvalidLayerError),
        Some(t) => t.as_str(),
    };
    let ids = match decode_payload(trim(text), format) {
        Ok(ids) => ids,
        Err(e) => return Err(e),
    };
    if ids.len() == 0 {
        let w: u64 = match width {
            Some(v) => v as u64,
            None => 0,
        };
        let h: u64 = match height {
            Some(v) => v as u64,
            None => 0,
        };
        if w > 0 && h > 0 {
            assert(w as int * h as int > 0) by (nonlinear_arith)
                requires
                    w > 0,
                    h > 0,
            ;
            return Err(Error::ParsingError);
        }
        assert(w as int * h as int == 0) by (nonlinear_arith)
            requires
                w == 0 || h == 0,
        ;
    }
    let tile_gids = resolve_all(ids.as_slice(), first_gids);
    Ok(
        Chunk {
            x: match x {
                Some(v) => v,
                None => 0,
            },
            y: match y {
                Some(v) => v,
                None => 0,
            },
            width: match width {
                Some(v) => v,
                None => 0,
            },
            height: match height {
                Some(v) => v,
                None => 0,
            },
            tile_gids,
        },
    )
}

proof fn lemma_chunks_of_error(nodes: Seq<XmlNode>, format: PayloadFormat, first_gids: Seq<u32>, k: int, e: Error)
    requires
        0 <= k <= nodes.len(),
        chunks_of(nodes.take(k), format, first_gids) == Err::<Seq<ChunkModel>, Error>(e),
    ensures
        chunks_of(nodes, format, first_gids) == Err::<Seq<ChunkModel>, Error>(e),
    decreases nodes.len() - k,
{
    if k < nodes.len() {
        assert(nodes.take(k + 1).drop_last() =~= nodes.take(k));
        lemma_chunks_of_error(nodes, format, first_gids, k + 1, e);
    } else {
        assert(nodes.take(k) =~= nodes);
    }
}

/// Decodes the `chunk` children of a data element, in order.
pub fn parse_chunks(nodes: &Vec<XmlNode>, format: PayloadFormat, first_gids: &[u32]) -> (r: Result<
    Vec<Chunk>,
    Error,
>)
    ensures
        match r {
            Ok(cs) => chunks_of(nodes@, format, first_gids@) == Ok::<Seq<ChunkModel>, Error>(chunk_models(cs@)),
            Err(e) => chunks_of(nodes@, format, first_gids@) == Err::<Seq<ChunkModel>, Error>(e),
        },
{
    let mut chunks: Vec<Chunk> = Vec::new();
    let mut i: usize = 0;
    assert(nodes@.take(0) =~= Seq::<XmlNode>::empty());
    assert(chunk_models(chunks@) =~= Seq::<ChunkModel>::empty());
    while i < nodes.len()
        invariant
            i <= nodes@.len(),
            chunks_of(nodes@.take(i as int), format, first_gids@) == Ok::<Seq<ChunkModel>, Error>(chunk_models(chunks@)),
        decreases nodes.len() - i,
    {
        assert(nodes@.take(i + 1).drop_last() =~= nodes@.take(i as int));
        let node = &nodes[i];
        if text_is(node.name.as_str(), "chunk") {
            match parse_chunk(node, format, first_gids) {
                Err(e) => {
                    proof {
                        lemma_chunks_of_error(nodes@, format, first_gids@, i + 1, e);
                    }
                    return Err(e);
                },
                Ok(c) => {
                    let ghost before = chunks@;
                    chunks.push(c);
                    assert(chunk_models(chunks@) =~= chunk_models(before).push(c@));
                },
            }
        }
        i += 1;
    }
    assert(nodes@.take(i as int) =~= nodes@);
    Ok(chunks)
}

/// Decodes the data element of a finite layer of `width` by `height` tiles.
pub fn parse_finite_layer_data(width: u32, height: u32, data: &XmlNode, first_gids: &[u32]) -> (r:
    Result<TileLayer, Error>)
    ensures
        finite_outcome(r, width, height, finite_ids_of(*data), first_gids@),
{
    let format = match PayloadFormat::from_attributes(data.attribute("encoding"), data.attribute("compression")) {
        Ok(f) => f,
        Err(e) => return Err(e),
    };
    let text = match &data.text {
        None => return Err(Error::InvalidLayerError),
        Some(t) => t.as_str(),
    };
    let ids = match decode_payload(trim(text), format) {
        Ok(ids) => ids,
        Err(e) => return Err(e),
    };
    TileLayer::from_ids(width, height, ids.as_slice(), first_gids)
}

/// Decodes the data element of an infinite layer: its chunks, composited.
pub fn parse_infinite_layer_data(width: u32, height: u32, data: &XmlNode, first_gids: &[u32]) -> (r:
    Result<TileLayer, Error>)
    ensures
        composite_outcome(r, width, height, infinite_chunks_of(*data, first_gids@)),
{
    let format = match PayloadFormat::from_attributes(data.attribute("encoding"), data.attribute("compression")) {
        Ok(f) => f,
        Err(e) => return Err(e),
    };
    let chunks = match parse_chunks(&data.children, format, first_gids) {
        Ok(cs) => cs,
        Err(e) => return Err(e),
    };
    TileLayer::from_chunks(width, height, chunks.as_slice())
}

impl TileLayer {
    /// Parses a `layer` element: its `width` and `height`, then its `data` child as a
    /// finite layer or, when the map is infinite, as chunks. Raw ids are resolved
    /// against the map's tileset thresholds `first_gids`.
    pub fn parse(layer_node: &XmlNode, first_gids: &[u32], infinite: bool) -> (r: Result<TileLayer, Error>)
        ensures
            layer_outcome(r, *layer_node, first_gids@, infinite),
    {
        let w = match layer_node.attribute_u32("width") {
            Ok(v) => v,
            Err(e) => return Err(e),
        };
        let h = match layer_node.attribute_u32("height") {
            Ok(v) => v,
            Err(e) => return Err(e),
        };
        let width = match w {
            Some(v) => v,
            None => 0,
        };
        let height = match h {
            Some(v) => v,
            None => 0,
        };
        assert(width == or_zero_u32(w) && height == or_zero_u32(h));
        let i = match layer_node.child_index("data") {
            None => return Err(Error::InvalidLayerError),
            Some(i) => i,
        };
        let data = &layer_node.children[i];
        assert(*data == layer_node.children@[i as int]);
        let r = if infinite {
            parse_infinite_layer_data(width, height, data, first_gids)
        } else {
            parse_finite_layer_data(width, height, data, first_gids)
        };
        assert(attr_u32(layer_node.attributes@, "width"@) == Ok::<Option<u32>, Error>(w));
        assert(attr_u32(layer_node.attributes@, "height"@) == Ok::<Option<u32>, Error>(h));
        assert(first_named(layer_node.children@, "data"@) == Some(i as int));
        r
    }
}


/// Entry `i` of the raster in row-major order, with world coordinates.
pub open spec fn cell_entry(m: LayerModel, i: int) -> (i32, i32, ResolvedGid) {
    (
        (m.region.x + i % (m.region.width as int)) as i32,
        (m.region.y + i / (m.region.width as int)) as i32,
        m.cells[i],
    )
}

/// Every cell of the raster once, row by row, with its world coordinates.
pub open spec fn cells_in_order(m: LayerModel) -> Seq<(i32, i32, ResolvedGid)> {
    Seq::new(m.cells.len(), |i: int| cell_entry(m, i))
}

pub open spec fn is_tile(t: (i32, i32, ResolvedGid)) -> bool {
    t.2 != ResolvedGid::Null
}

/// Keeps the cells that hold a tile.
pub open spec fn holds_tile() -> spec_fn((i32, i32, ResolvedGid)) -> bool {
    |t: (i32, i32, ResolvedGid)| is_tile(t)
}

/// Cursor over every cell of a [`TileLayer`], `Null` ones included.
pub struct Gids<'a> {
    layer: &'a TileLayer,
    idx: usize,
}

/// Cursor over the cells of a [`TileLayer`] that hold a tile.
pub struct NonNullGids<'a>(Gids<'a>);

impl TileLayer {
    /// Iterates over all cells in row-major order, with world coordinates.
    pub fn gids(&self) -> (r: Gids<'_>)
        requires
            self.wf(),
        ensures
            r.wf(),
            r.remaining() == cells_in_order(self@),
    {
        let r = Gids { layer: self, idx: 0 };
        assert(cells_in_order(self@).skip(0) =~= cells_in_order(self@));
        r
    }
}

impl<'a> Gids<'a> {
    pub closed spec fn model(&self) -> LayerModel {
        self.layer@
    }

    pub closed spec fn position(&self) -> int {
        self.idx as int
    }

    pub open spec fn wf(&self) -> bool {
        model_wf(self.model()) && 0 <= self.position() <= self.model().cells.len()
    }

    /// The cells still to come.
    pub open spec fn remaining(&self) -> Seq<(i32, i32, ResolvedGid)> {
        cells_in_order(self.model()).skip(self.position())
    }

    /// The next cell, if any.
    pub fn next(&mut self) -> (r: Option<(i32, i32, ResolvedGid)>)
        requires
            old(self).wf(),
        ensures
            final(self).wf(),
            final(self).model() == old(self).model(),
            old(self).remaining().len() == 0 ==> r is None,
            old(self).remaining().len() == 0 ==> final(self).remaining() == old(self).remaining(),
            old(self).remaining().len() > 0 ==> r == Some(old(self).remaining()[0]),
            old(self).remaining().len() > 0 ==> final(self).remaining() == old(self).remaining().drop_first(),
    {
        let total = self.layer.tile_gids.len();
        if self.idx >= total {
            return None;
        }
        let i = self.idx;
        let w = self.layer.region.width;
        let h = self.layer.region.height;
        let ghost m = self.model();
        assert(w > 0) by (nonlinear_arith)
            requires
                i < total,
                total == w * h,
        ;
        let lx = i as u64 % w as u64;
        let ly = i as u64 / w as u64;
        assert(ly < h) by (nonlinear_arith)
            requires
                i < total,
                total == w * h,
                ly == i as int / w as int,
                w > 0,
        ;
        let x = (self.layer.region.x as i64 + lx as i64) as i32;
        let y = (self.layer.region.y as i64 + ly as i64) as i32;
        let g = self.layer.tile_gids[i];
        self.idx = i + 1;
        assert(cells_in_order(m).skip(i + 1) =~= cells_in_order(m).skip(i as int).drop_first());
        Some((x, y, g))
    }

    /// The same cells without the `Null` ones.
    pub fn non_null(self) -> (r: NonNullGids<'a>)
        requires
            self.wf(),
        ensures
            r.wf(),
            r.remaining() == self.remaining().filter(holds_tile()),
    {
        NonNullGids(self)
    }
}

impl<'a> NonNullGids<'a> {
    pub closed spec fn inner(&self) -> Gids<'a> {
        self.0
    }

    pub open spec fn wf(&self) -> bool {
        self.inner().wf()
    }

    /// The cells holding a tile that are still to come.
    pub open spec fn remaining(&self) -> Seq<(i32, i32, ResolvedGid)> {
        self.inner().remaining().filter(holds_tile())
    }

    /// The next cell that holds a tile, if any.
    pub fn next(&mut self) -> (r: Option<(i32, i32, ResolvedGid)>)
        requires
            old(self).wf(),
        ensures
            final(self).wf(),
            old(self).remaining().len() == 0 ==> r is None,
            old(self).remaining().len() == 0 ==> final(self).remaining() == old(self).remaining(),
            old(self).remaining().len() > 0 ==> r == Some(old(self).remaining()[0]),
            old(self).remaining().len() > 0 ==> final(self).remaining() == old(self).remaining().drop_first(),
    {
        let ghost goal = old(self).remaining();
        loop
            invariant
                self.wf(),
                self.remaining() == goal,
                goal == old(self).remaining(),
            decreases self.0.remaining().len(),
        {
            let ghost s = self.0.remaining();
            proof {
                lemma_filter_first(s);
            }
            match self.0.next() {
                None => {
                    return None;
                },
                Some(t) => {
                    if !t.2.is_null() {
                        return Some(t);
                    }
                },
            }
        }
    }
}

proof fn lemma_filter_first(s: Seq<(i32, i32, ResolvedGid)>)
    ensures
        s.len() == 0 ==> s.filter(holds_tile()) == Seq::<(i32, i32, ResolvedGid)>::empty(),
        s.len() > 0 ==> s.filter(holds_tile()) == (if is_tile(s[0]) {
            seq![s[0]] + s.drop_first().filter(holds_tile())
        } else {
            s.drop_first().filter(holds_tile())
        }),
{
    let p = holds_tile();
    if s.len() > 0 {
        assert(s =~= seq![s[0]] + s.drop_first());
        s.drop_first().lemma_filter_prepend(s[0], p);
        if !is_tile(s[0]) {
            assert(Seq::<(i32, i32, ResolvedGid)>::empty() + s.drop_first().filter(p) =~= s.drop_first().filter(p));
        }
    } else {
        s.lemma_filter_len(p);
        assert(s.filter(p) =~= Seq::<(i32, i32, ResolvedGid)>::empty());
    }
}

/// A finite layer of `width` by `height` has origin `(0, 0)` and extent
/// `(width, height)`, and its cell `(x, y)` inside that extent is the id at flat
/// index `y * width + x`, resolved (`Null` when the ids run short).
pub proof fn lemma_finite_layer_cells(
    width: u32,
    height: u32,
    ids: Seq<u32>,
    first_gids: Seq<u32>,
    x: int,
    y: int,
)
    requires
        0 <= x < width,
        0 <= y < height,
    ensures
        finite_model(width, height, ids, first_gids).region == (TileLayerRegion {
            x: 0,
            y: 0,
            width,
            height,
        }),
        cell_at(finite_model(width, height, ids, first_gids), x, y) == (if y * width + x
            < ids.len() {
            resolved(ids[y * width + x], first_gids)
        } else {
            ResolvedGid::Null
        }),
{
    let m = finite_model(width, height, ids, first_gids);
    lemma_flat_index_bounds(m.region, x, y);
    assert(flat_index(m.region, x, y) == y * width + x);
}

/// Decoding a finite layer whose ids are `ids` succeeds whenever its raster fits the
/// size bound, and gives origin `(0, 0)`, extent `(width, height)` and, at `(x, y)`
/// inside it, the id at flat index `y * width + x`, resolved.
pub proof fn lemma_finite_layer_decoded(
    r: Result<TileLayer, Error>,
    width: u32,
    height: u32,
    ids: Seq<u32>,
    first_gids: Seq<u32>,
    x: int,
    y: int,
)
    requires
        finite_outcome(r, width, height, Ok(ids), first_gids),
        region_fits(0, 0, width as int, height as int),
        0 <= x < width,
        0 <= y < height,
    ensures
        r matches Ok(l) && l@.region == (TileLayerRegion { x: 0, y: 0, width, height })
            && cell_at(l@, x, y) == (if y * width + x < ids.len() {
            resolved(ids[y * width + x], first_gids)
        } else {
            ResolvedGid::Null
        }),
{
    lemma_finite_layer_cells(width, height, ids, first_gids, x, y);
}

/// Looking up a cell outside `[origin, origin + extent)` in either direction gives
/// `Null`; for a layer at origin `(0, 0)` this covers every negative coordinate.
pub proof fn lemma_outside_region_is_null(m: LayerModel, x: int, y: int)
    requires
        x < m.region.x || x >= m.region.x + m.region.width || y < m.region.y || y
            >= m.region.y + m.region.height,
    ensures
        cell_at(m, x, y) == ResolvedGid::Null,
{
}

/// A composited layer covers the union bounding box of its chunks, and a cell that
/// no chunk covers (for instance one lying between two chunks) is `Null`.
pub proof fn lemma_uncovered_cell_is_null(m: LayerModel, width: u32, height: u32, cs: Seq<ChunkModel>, x: int, y: int)
    requires
        composited(m, width, height, cs),
        forall|j: int| 0 <= j < cs.len() ==> !covers(#[trigger] cs[j], x, y),
    ensures
        m.region == bounds_region(cs),
        cell_at(m, x, y) == ResolvedGid::Null,
{
    lemma_no_cover_null(cs, x, y);
    assert(cell_at(m, x, y) == composite_cell(cs, x, y));
}

proof fn lemma_no_cover_null(cs: Seq<ChunkModel>, x: int, y: int)
    requires
        forall|j: int| 0 <= j < cs.len() ==> !covers(#[trigger] cs[j], x, y),
    ensures
        composite_cell(cs, x, y) == ResolvedGid::Null,
    decreases cs.len(),
{
    if cs.len() > 0 {
        let rest = cs.drop_last();
        assert(!covers(cs[cs.len() - 1], x, y));
        assert forall|j: int| 0 <= j < rest.len() implies !covers(#[trigger] rest[j], x, y) by {
            assert(rest[j] == cs[j]);
        }
        lemma_no_cover_null(rest, x, y);
    }
}

/// Entry `i` of the row-major iteration holds cell `i` of the raster, at world
/// coordinates that lie in the region and whose lookup gives that same cell.
pub proof fn lemma_iteration_matches_lookup(m: LayerModel, i: int)
    requires
        model_wf(m),
        0 <= i < m.cells.len(),
    ensures
        in_region(m.region, cell_entry(m, i).0 as int, cell_entry(m, i).1 as int),
        cell_at(m, cell_entry(m, i).0 as int, cell_entry(m, i).1 as int) == m.cells[i],
        cell_entry(m, i).2 == m.cells[i],
{
    let w = m.region.width as int;
    let h = m.region.height as int;
    assert(w > 0) by (nonlinear_arith)
        requires
            0 <= i < w * h,
            h >= 0,
    ;
    vstd::arithmetic::div_mod::lemma_fundamental_div_mod(i, w);
    let q = i / w;
    let r = i % w;
    assert(0 <= r < w);
    assert(0 <= q < h) by (nonlinear_arith)
        requires
            i == w * q + r,
            0 <= r < w,
            0 <= i < w * h,
    ;
    assert(flat_index(m.region, m.region.x + r, m.region.y + q) == i) by (nonlinear_arith)
        requires
            i == w * q + r,
            w == m.region.width,
    ;
}

/// A data section whose `encoding` / `compression` pair is not supported fails with
/// the unsupported-encoding error before any raster exists, finite or infinite.
pub proof fn lemma_unsupported_format_fails(data: XmlNode, first_gids: Seq<u32>)
    requires
        data_format(data) is None,
    ensures
        finite_ids_of(data) == Err::<Seq<u32>, Error>(Error::UnsupportedEncodingError),
        infinite_chunks_of(data, first_gids) == Err::<Seq<ChunkModel>, Error>(Error::UnsupportedEncodingError),
        forall|r: Result<TileLayer, Error>, w: u32, h: u32|
            #[trigger] finite_outcome(r, w, h, finite_ids_of(data), first_gids) ==> r == Err::<TileLayer, Error>(Error::UnsupportedEncodingError),
        forall|r: Result<TileLayer, Error>, w: u32, h: u32|
            #[trigger] composite_outcome(r, w, h, infinite_chunks_of(data, first_gids)) ==> r == Err::<TileLayer, Error>(Error::UnsupportedEncodingError),
{
}

} // verus!
