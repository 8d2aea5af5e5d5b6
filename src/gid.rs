//! Global tile ids: flag extraction and resolution against the ordered list of
//! tileset thresholds (`first_gid` values) of a map.

use vstd::prelude::*;

verus! {

/// Mask of the 28 low bits of a global id that name a tile.
pub const FLIP_MASK: u32 = 0x0fff_ffff;

/// Bit 31: the tile is flipped horizontally.
pub const FLIPPED_HORIZONTALLY_FLAG: u32 = 0x8000_0000;

/// Bit 30: the tile is flipped vertically.
pub const FLIPPED_VERTICALLY_FLAG: u32 = 0x4000_0000;

/// Bit 29: the tile is flipped diagonally.
pub const FLIPPED_DIAGONALLY_FLAG: u32 = 0x2000_0000;

/// Bit 28: the hexagonal tile is rotated by 120 degrees.
pub const ROTATED_HEXAGONAL_120_FLAG: u32 = 0x1000_0000;

/// The id without its four flag bits.
pub open spec fn stripped(raw: u32) -> u32 {
    raw & 0x0fff_ffff
}

/// The four orientation flags held in the top bits of a raw id.
pub open spec fn flip_of(raw: u32) -> Flip {
    Flip {
        horizontal: raw & 0x8000_0000 != 0,
        vertical: raw & 0x4000_0000 != 0,
        diagonal: raw & 0x2000_0000 != 0,
        rotated_hex_120: raw & 0x1000_0000 != 0,
    }
}

/// Global id of a tile as written in a map file, flag bits included.
#[derive(Clone, Copy, Debug, PartialEq, Eq, Structural, Hash)]
pub struct Gid(pub u32);

impl Gid {
    /// The id with the flip and rotation bits stripped out.
    pub fn value(self) -> (r: u32)
        ensures
            r == stripped(self.0),
    {
        self.0 & FLIP_MASK
    }

    pub fn is_flipped_horizontally(self) -> (r: bool)
        ensures
            r == flip_of(self.0).horizontal,
    {
        self.0 & FLIPPED_HORIZONTALLY_FLAG != 0
    }

    pub fn is_flipped_vertically(self) -> (r: bool)
        ensures
            r == flip_of(self.0).vertical,
    {
        self.0 & FLIPPED_VERTICALLY_FLAG != 0
    }

    pub fn is_flipped_diagonally(self) -> (r: bool)
        ensures
            r == flip_of(self.0).diagonal,
    {
        self.0 & FLIPPED_DIAGONALLY_FLAG != 0
    }

    pub fn is_rotated_hex_120(self) -> (r: bool)
        ensures
            r == flip_of(self.0).rotated_hex_120,
    {
        self.0 & ROTATED_HEXAGONAL_120_FLAG != 0
    }

    /// All four orientation flags.
    pub fn flip(self) -> (r: Flip)
        ensures
            r == flip_of(self.0),
    {
        Flip {
            horizontal: self.is_flipped_horizontally(),
            vertical: self.is_flipped_vertically(),
            diagonal: self.is_flipped_diagonally(),
            rotated_hex_120: self.is_rotated_hex_120(),
        }
    }
}

/// Orientation flags of a placed tile.
#[derive(Clone, Copy, Debug, PartialEq, Eq, Structural, Default)]
pub struct Flip {
    pub horizontal: bool,
    pub vertical: bool,
    pub diagonal: bool,
    pub rotated_hex_120: bool,
}

/// A global id resolved against the tilesets of a map.
#[derive(Clone, Copy, Debug, PartialEq, Eq, Structural)]
pub enum ResolvedGid {
    /// No tile.
    Null,
    /// Tile `tile_id` of the tileset at `tileset_index`, placed with `flip`.
    Value { tileset_index: usize, tile_id: u32, flip: Flip },
}

/// Index of the entry whose threshold is the last one, in list order, at most `id`.
pub open spec fn matching_entry(first_gids: Seq<u32>, id: u32) -> Option<int>
    decreases first_gids.len(),
{
    if first_gids.len() == 0 {
        None
    } else if first_gids.last() <= id {
        Some(first_gids.len() - 1)
    } else {
        matching_entry(first_gids.drop_last(), id)
    }
}

/// What a raw id resolves to against the thresholds `first_gids`.
pub open spec fn resolved(raw: u32, first_gids: Seq<u32>) -> ResolvedGid {
    let id = stripped(raw);
    if id == 0 {
        ResolvedGid::Null
    } else {
        match matching_entry(first_gids, id) {
            None => ResolvedGid::Null,
            Some(i) => ResolvedGid::Value {
                tileset_index: i as usize,
                tile_id: (id - first_gids[i]) as u32,
                flip: flip_of(raw),
            },
        }
    }
}

/// Thresholds listed in non-decreasing order, as map files list their tilesets.
pub open spec fn ascending(first_gids: Seq<u32>) -> bool {
    forall|i: int, j: int| 0 <= i <= j < first_gids.len() ==> first_gids[i] <= first_gids[j]
}

proof fn lemma_matching_entry_bounds(first_gids: Seq<u32>, id: u32)
    ensures
        matching_entry(first_gids, id) matches Some(i) ==> 0 <= i < first_gids.len()
            && first_gids[i] <= id && forall|j: int|
            i < j < first_gids.len() ==> first_gids[j] > id,
        matching_entry(first_gids, id) is None ==> forall|j: int|
            0 <= j < first_gids.len() ==> first_gids[j] > id,
    decreases first_gids.len(),
{
    if first_gids.len() > 0 {
        let rest = first_gids.drop_last();
        lemma_matching_entry_bounds(rest, id);
        assert(forall|j: int| 0 <= j < rest.len() ==> rest[j] == first_gids[j]);
    }
}

/// With ascending thresholds, the matching entry holds the greatest threshold at most
/// `id`, and there is none exactly when every threshold exceeds `id`.
pub proof fn lemma_match_is_greatest_threshold(first_gids: Seq<u32>, id: u32)
    requires
        ascending(first_gids),
    ensures
        matching_entry(first_gids, id) matches Some(i) ==> 0 <= i < first_gids.len()
            && first_gids[i] <= id && forall|j: int|
            0 <= j < first_gids.len() && #[trigger] first_gids[j] <= id ==> first_gids[j]
                <= first_gids[i],
        matching_entry(first_gids, id) is None <==> forall|j: int|
            0 <= j < first_gids.len() ==> #[trigger] first_gids[j] > id,
{
    lemma_matching_entry_bounds(first_gids, id);
}

/// Index of the entry matching `id`, scanning from the last entry to the first.
pub fn matching_entry_index(first_gids: &[u32], id: u32) -> (r: Option<usize>)
    ensures
        r == (match matching_entry(first_gids@, id) {
            Some(i) => Some(i as usize),
            None => None::<usize>,
        }),
{
    let mut i = first_gids.len();
    assert(first_gids@.take(i as int) =~= first_gids@);
    while i > 0
        invariant
            i <= first_gids@.len(),
            matching_entry(first_gids@, id) == matching_entry(first_gids@.take(i as int), id),
        decreases i,
    {
        assert(first_gids@.take(i as int).drop_last() =~= first_gids@.take(i - 1));
        if first_gids[i - 1] <= id {
            return Some(i - 1);
        }
        i -= 1;
    }
    None
}

impl ResolvedGid {
    /// Resolves `raw` against the thresholds `first_gids`: strips the flag bits, picks the
    /// entry found by a scan from the last one back, and makes the id local to it.
    pub fn resolve(raw: u32, first_gids: &[u32]) -> (r: ResolvedGid)
        ensures
            r == resolved(raw, first_gids@),
    {
        let gid = Gid(raw);
        let id = gid.value();
        if id == 0 {
            return ResolvedGid::Null;
        }
        proof {
            lemma_matching_entry_bounds(first_gids@, id);
        }
        match matching_entry_index(first_gids, id) {
            None => ResolvedGid::Null,
            Some(i) => ResolvedGid::Value {
                tileset_index: i,
                tile_id: id - first_gids[i],
                flip: gid.flip(),
            },
        }
    }

    pub fn is_null(&self) -> (r: bool)
        ensures
            r == (*self is Null),
    {
        match self {
            ResolvedGid::Null => true,
            ResolvedGid::Value { .. } => false,
        }
    }
}

/// Index of the tileset that owns `gid` and the tile's id local to it; `None` for the
/// empty-cell id 0 (flags aside) and for an id below every threshold.
pub fn tile_location(first_gids: &[u32], gid: Gid) -> (r: Option<(usize, u32)>)
    ensures
        stripped(gid.0) == 0 ==> r is None,
        r == (if stripped(gid.0) == 0 {
            None::<(usize, u32)>
        } else {
            match matching_entry(first_gids@, stripped(gid.0)) {
                Some(i) => Some((i as usize, (stripped(gid.0) - first_gids@[i]) as u32)),
                None => None::<(usize, u32)>,
            }
        }),
{
    let id = gid.value();
    if id == 0 {
        return None;
    }
    proof {
        lemma_matching_entry_bounds(first_gids@, id);
    }
    match matching_entry_index(first_gids, id) {
        None => None,
        Some(i) => Some((i, id - first_gids[i])),
    }
}

} // verus!
