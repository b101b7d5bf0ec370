//! The sprite lookup table: which atlas slot, and which source size, answers
//! for each tile id once the packed atlas is built.
//!
//! Tile ids are positions in the deterministic order of the source images:
//! `landscapeTiles_000.png`, `landscapeTiles_001.png`, and so on.
use vstd::prelude::*;
use vstd::string::StringSliceAdditionalSpecFns;

verus! {

/// Directory that holds the map's source images.
pub const MAP_TEXTURES_PATH: &'static str = "assets/textures/map";

/// File name of every source image, before its three-digit number.
pub const MAP_TEXTURE_FILE_NAME_PREFIX: &'static str = "landscapeTiles_";

/// Extension of every source image.
pub const MAP_TEXTURE_FILE_NAME_SUFFIX: &'static str = ".png";

/// How many source images three-digit numbers can name.
pub const MAX_MAP_TEXTURES: usize = 1000;

/// Pixel size of a source image.
#[derive(Clone, Copy, Debug, PartialEq, Eq, Structural)]
pub struct SpriteSize {
    pub width: u32,
    pub height: u32,
}

/// Where a source image went in the atlas, and its pixel size as loaded.
#[derive(Clone, Copy, Debug, PartialEq, Eq, Structural)]
pub struct SpriteEntry {
    pub slot: u32,
    pub size: SpriteSize,
}

/// Why an atlas could not be indexed.
#[derive(Clone, Copy, Debug, PartialEq, Eq, Structural)]
pub enum AtlasError {
    /// The source image with this tile id could not be resolved.
    AtlasResolutionFailure { index: usize },
}

/// The ASCII digit of `d`, for `d < 10`.
pub open spec fn digit_byte(d: int) -> u8 {
    (48 + d) as u8
}

/// Bytes of the path of the source image for tile id `i`, with `i` written
/// in three digits.
pub open spec fn texture_path_spec(i: int) -> Seq<u8> {
    MAP_TEXTURES_PATH.spec_bytes() + seq![47u8] + MAP_TEXTURE_FILE_NAME_PREFIX.spec_bytes()
        + seq![digit_byte(i / 100), digit_byte((i % 100) / 10), digit_byte(i % 10)]
        + MAP_TEXTURE_FILE_NAME_SUFFIX.spec_bytes()
}

/// Whether the atlas reports a slot and size for the source image with tile id `i`.
pub open spec fn resolved(images: Seq<Option<SpriteEntry>>, i: int) -> bool {
    i < MAX_MAP_TEXTURES && i < images.len() && images[i] is Some
}

/// Whether every one of the first `n` source images is resolved.
pub open spec fn all_resolved(images: Seq<Option<SpriteEntry>>, n: int) -> bool {
    forall|i: int| 0 <= i < n ==> #[trigger] resolved(images, i)
}

/// The lookup table built from the first `n` resolved source images.
pub open spec fn table_of(images: Seq<Option<SpriteEntry>>, n: int) -> Seq<SpriteEntry> {
    Seq::new(n as nat, |i: int| images[i]->Some_0)
}

fn push_bytes(v: &mut Vec<u8>, s: &[u8])
    ensures
        final(v)@ == old(v)@ + s@,
{
    let mut i: usize = 0;
    while i < s.len()
        invariant
            i <= s@.len(),
            v@ == old(v)@ + s@.subrange(0, i as int),
        decreases s@.len() - i,
    {
        v.push(s[i]);
        i = i + 1;
        proof {
            assert(s@.subrange(0, i as int) == s@.subrange(0, i - 1) + seq![s@[i - 1]]);
        }
    }
    assert(s@.subrange(0, s@.len() as int) == s@);
}

/// The path of the source image for tile id `i`, as bytes.
pub fn texture_path(i: usize) -> (r: Vec<u8>)
    requires
        i < MAX_MAP_TEXTURES,
    ensures
        r@ == texture_path_spec(i as int),
{
    let mut p: Vec<u8> = Vec::new();
    push_bytes(&mut p, MAP_TEXTURES_PATH.as_bytes());
    p.push(47u8);
    push_bytes(&mut p, MAP_TEXTURE_FILE_NAME_PREFIX.as_bytes());
    p.push((48 + i / 100) as u8);
    p.push((48 + (i % 100) / 10) as u8);
    p.push((48 + i % 10) as u8);
    push_bytes(&mut p, MAP_TEXTURE_FILE_NAME_SUFFIX.as_bytes());
    assert(p@ == texture_path_spec(i as int));
    p
}

/// Source images waiting to be packed, then the lookup table built from them.
pub struct MapSprites {
    handles: Option<Vec<u128>>,
    sprite_lookup_table: Vec<SpriteEntry>,
}

impl MapSprites {
    /// Whether the atlas has been built and indexed.
    pub closed spec fn spec_ready(&self) -> bool {
        self.handles is None
    }

    /// The handles of the source images still waiting, in tile id order.
    pub closed spec fn spec_pending(&self) -> Seq<u128> {
        match self.handles {
            Some(h) => h@,
            None => Seq::empty(),
        }
    }

    /// The lookup table, indexed by tile id.
    pub closed spec fn spec_table(&self) -> Seq<SpriteEntry> {
        self.sprite_lookup_table@
    }

    /// A builder waiting for the given source images, in tile id order.
    pub fn new(handles: Vec<u128>) -> (r: Self)
        ensures
            !r.spec_ready(),
            r.spec_pending() == handles@,
            r.spec_table() == Seq::<SpriteEntry>::empty(),
    {
        MapSprites { handles: Some(handles), sprite_lookup_table: Vec::new() }
    }

    #[inline]
    pub fn is_ready(&self) -> (r: bool)
        ensures
            r == self.spec_ready(),
    {
        self.handles.is_none()
    }

    /// The handles still waiting to load; empty once the atlas is ready.
    pub fn pending_handles(&self) -> (r: Vec<u128>)
        ensures
            r@ == self.spec_pending(),
    {
        match &self.handles {
            Some(h) => h.clone(),
            None => Vec::new(),
        }
    }

    /// How many tile ids the lookup table answers for.
    pub fn tile_count(&self) -> (r: usize)
        ensures
            r == self.spec_table().len(),
    {
        self.sprite_lookup_table.len()
    }

    /// The atlas slot of the sprite for a tile id.
    #[inline]
    pub fn tile_sprite_index(&self, index: usize) -> (r: u32)
        requires
            index < self.spec_table().len(),
        ensures
            r == self.spec_table()[index as int].slot,
    {
        self.sprite_lookup_table[index].slot
    }

    /// The source pixel size of the sprite for a tile id.
    #[inline]
    pub fn tile_sprite_height(&self, index: usize) -> (r: SpriteSize)
        requires
            index < self.spec_table().len(),
        ensures
            r == self.spec_table()[index as int].size,
    {
        self.sprite_lookup_table[index].size
    }

    /// The paths that the waiting source images must have, in tile id order;
    /// as many as there are waiting images, up to `MAX_MAP_TEXTURES`.
    pub fn expected_texture_paths(&self) -> (r: Vec<Vec<u8>>)
        ensures
            r@.len() == if self.spec_pending().len() < MAX_MAP_TEXTURES {
                self.spec_pending().len() as int
            } else {
                MAX_MAP_TEXTURES as int
            },
            forall|i: int| 0 <= i < r@.len() ==> #[trigger] r@[i]@ == texture_path_spec(i),
    {
        let n: usize = match &self.handles {
            Some(h) => h.len(),
            None => 0,
        };
        let m: usize = if n < MAX_MAP_TEXTURES { n } else { MAX_MAP_TEXTURES };
        let mut paths: Vec<Vec<u8>> = Vec::new();
        let mut i: usize = 0;
        while i < m
            invariant
                i <= m <= MAX_MAP_TEXTURES,
                paths@.len() == i,
                forall|j: int| 0 <= j < i ==> #[trigger] paths@[j]@ == texture_path_spec(j),
            decreases m - i,
        {
            paths.push(texture_path(i));
            i = i + 1;
        }
        paths
    }

    /// One tick of the atlas build. Nothing happens while the atlas is ready
    /// or not every source image has loaded (`Ok(false)`). Otherwise
    /// `images[i]` is what the packed atlas reports for the image with tile id
    /// `i`: the table is built from them and the builder becomes ready
    /// (`Ok(true)`), unless one of the waiting images is unresolved, which
    /// fails with the first such tile id and leaves the builder unchanged.
    pub fn load_map_sprites(&mut self, all_loaded: bool, images: &Vec<Option<SpriteEntry>>) -> (r:
        Result<bool, AtlasError>)
        ensures
            old(self).spec_ready() || !all_loaded ==> {
                &&& r == Ok::<bool, AtlasError>(false)
                &&& *final(self) == *old(self)
            },
            !old(self).spec_ready() && all_loaded && all_resolved(images@, old(self).spec_pending().len() as int) ==> {
                &&& r == Ok::<bool, AtlasError>(true)
                &&& final(self).spec_ready()
                &&& final(self).spec_table() == table_of(images@, old(self).spec_pending().len() as int)
            },
            r is Err ==> *final(self) == *old(self),
            !old(self).spec_ready() && all_loaded && !all_resolved(images@, old(self).spec_pending().len() as int) ==> exists|k: int| {
                &&& 0 <= k < old(self).spec_pending().len()
                &&& !resolved(images@, k)
                &&& all_resolved(images@, k)
                &&& r == Err::<bool, AtlasError>(AtlasError::AtlasResolutionFailure { index: k as usize })
            },
    {
        if !all_loaded {
            return Ok(false);
        }
        let n: usize = match &self.handles {
            None => {
                return Ok(false);
            },
            Some(h) => h.len(),
        };
        let mut table: Vec<SpriteEntry> = Vec::new();
        let mut i: usize = 0;
        while i < n
            invariant
                i <= n,
                all_loaded,
                !old(self).spec_ready(),
                n == old(self).spec_pending().len(),
                *self == *old(self),
                table@.len() == i,
                all_resolved(images@, i as int),
                table@ == table_of(images@, i as int),
            decreases n - i,
        {
            if i >= MAX_MAP_TEXTURES || i >= images.len() {
                assert(!resolved(images@, i as int));
                return Err(AtlasError::AtlasResolutionFailure { index: i });
            }
            match images[i] {
                None => {
                    assert(!resolved(images@, i as int));
                    return Err(AtlasError::AtlasResolutionFailure { index: i });
                },
                Some(e) => {
                    table.push(e);
                },
            }
            i = i + 1;
            assert(table@ == table_of(images@, i as int));
        }
        self.sprite_lookup_table = table;
        self.handles = None;
        Ok(true)
    }
}

/// The lookup table answers each tile id with the slot and size that the
/// atlas reported for that image; so when the atlas reports pairwise distinct
/// slots below its slot count, the tile ids get pairwise distinct slots below
/// that count.
pub proof fn lemma_table_slots(images: Seq<Option<SpriteEntry>>, n: int, slot_count: u32)
    requires
        0 <= n,
        all_resolved(images, n),
        forall|i: int| 0 <= i < n ==> (#[trigger] images[i])->Some_0.slot < slot_count,
        forall|i: int, j: int|
            0 <= i < j < n ==> (#[trigger] images[i])->Some_0.slot != (#[trigger] images[j])->Some_0.slot,
    ensures
        table_of(images, n).len() == n,
        forall|i: int| 0 <= i < n ==> #[trigger] table_of(images, n)[i] == images[i]->Some_0,
        forall|i: int| 0 <= i < n ==> (#[trigger] table_of(images, n)[i]).slot < slot_count,
        forall|i: int, j: int|
            0 <= i < j < n ==> (#[trigger] table_of(images, n)[i]).slot != (#[trigger] table_of(images, n)[j]).slot,
{
}

} // verus!
