use vstd::prelude::*;
use std::collections::HashMap;
use fastnbt::Value;
use crate::conversion::ConversionMap;

verus! {

/// A block of the 1.4.7 format: a numeric id (low byte in `Blocks`, high nibble in `Add`)
/// and an optional 4-bit data value.
#[derive(PartialEq, Eq, Structural, Hash, Clone, Copy, Debug)]
pub struct Block {
    pub id: i32,
    pub data: Option<i8>,
}

/// Low byte of an id, as the `Blocks` array stores it.
pub open spec fn low_byte(id: i32) -> i8 {
    (id & 255) as i8
}

/// The byte above the low byte of an id, truncated to a signed byte.
pub open spec fn high_byte(id: i32) -> i8 {
    (id >> 8) as i8
}

/// The unsigned value of a stored byte: 0 to 255.
pub open spec fn unsigned_byte(b: i8) -> i32 {
    (b as u8) as i32
}

impl Block {
    pub fn new(id: i32, data: Option<i8>) -> (r: Self)
        ensures
            r.id == id,
            r.data == data,
    {
        Self { id, data }
    }

    pub fn to_i8(&self) -> (r: i8)
        ensures
            r == low_byte(self.id),
    {
        #[verifier::truncate]
        ((self.id & 255) as i8)
    }

    pub fn add_to_i8(&self) -> (r: i8)
        ensures
            r == high_byte(self.id),
    {
        let id = self.id;
        let low = id & 0b11111111;
        assert(i32::MIN <= id - low <= i32::MAX && ((id - low) as i32) >> 8 == id >> 8)
            by (bit_vector)
            requires low == id & 0b11111111;
        #[verifier::truncate]
        (((id - low) >> 8) as i8)
    }

    pub fn from_i8(block: i8) -> (r: Self)
        ensures
            r.id == unsigned_byte(block),
            r.data is None,
    {
        let mut id = 0i32;

        id |= (block & 0b01111111) as i32;
        id |= (((block >> 7) as i32) & 0b1) << 7;
        assert(((0i32 | (block & 0b01111111) as i32) | (((block >> 7) as i32) & 0b1) << 7)
            == (block as u8) as i32) by (bit_vector);
        Self { id, data: None }
    }

    pub fn has_data(&self) -> (r: bool)
        ensures
            r == self.data is Some,
    {
        self.data.is_some()
    }

    pub fn id(&self) -> (r: i32)
        ensures
            r == self.id,
    {
        self.id
    }

    pub fn data(&self) -> (r: Option<i8>)
        ensures
            r == self.data,
    {
        self.data
    }
}


/// A 1.4.7 chunk as it is stored in a region file: everything sits under `Level`.
#[derive(Clone, Debug)]
pub struct Chunk {
    pub level: Level,
}

impl Chunk {
    pub fn level(&self) -> (r: &Level)
        ensures
            *r == self.level,
    {
        &self.level
    }

    pub fn mut_level(&mut self) -> (r: &mut Level)
        ensures
            *r == old(self).level,
            final(self).level == *final(r),
    {
        &mut self.level
    }
}

/// The `Level` compound of a 1.4.7 chunk. The byte and int arrays of NBT are held as plain
/// vectors; tags that the conversion never reads are kept, untouched, in `other`.
#[derive(Clone, Debug)]
pub struct Level {
    pub biomes: Option<Vec<i8>>,
    pub tile_entities: Vec<TileEntity>,
    pub height_map: Vec<i32>,
    pub sections: Vec<Section>,
    pub last_update: i64,
    pub x_pos: i32,
    pub z_pos: i32,
    pub other: HashMap<String, Value>,
}

impl Level {
    pub fn last_update(&self) -> (r: i64)
        ensures
            r == self.last_update,
    {
        self.last_update
    }

    pub fn biomes(&self) -> (r: Option<&Vec<i8>>)
        ensures
            r is Some == self.biomes is Some,
            r matches Some(v) ==> *v == self.biomes->0,
    {
        self.biomes.as_ref()
    }

    pub fn mut_tile_entities(&mut self) -> (r: &mut Vec<TileEntity>)
        ensures
            *r == old(self).tile_entities,
            *final(self) == (Level { tile_entities: *final(r), ..*old(self) }),
    {
        &mut self.tile_entities
    }

    pub fn set_tile_entities(&mut self, tile_entities: Vec<TileEntity>)
        ensures
            *final(self) == (Level { tile_entities: tile_entities, ..*old(self) }),
    {
        self.tile_entities = tile_entities;
    }

    pub fn tile_entities(&self) -> (r: &Vec<TileEntity>)
        ensures
            *r == self.tile_entities,
    {
        &self.tile_entities
    }

    pub fn height_map(&self) -> (r: &Vec<i32>)
        ensures
            *r == self.height_map,
    {
        &self.height_map
    }

    pub fn sections(&self) -> (r: &Vec<Section>)
        ensures
            *r == self.sections,
    {
        &self.sections
    }

    pub fn mut_sections(&mut self) -> (r: &mut Vec<Section>)
        ensures
            *r == old(self).sections,
            *final(self) == (Level { sections: *final(r), ..*old(self) }),
    {
        &mut self.sections
    }

    pub fn x_pos(&self) -> (r: i32)
        ensures
            r == self.x_pos,
    {
        self.x_pos
    }

    pub fn z_pos(&self) -> (r: i32)
        ensures
            r == self.z_pos,
    {
        self.z_pos
    }

    pub fn other(&self) -> (r: &HashMap<String, Value>)
        ensures
            *r == self.other,
    {
        &self.other
    }
}

/// A tile entity of the 1.4.7 format, with the tags that the known kinds of tile entity use.
/// The piston's `progress` is a float in NBT; it is held here as its IEEE-754 bit pattern.
#[derive(Clone, Debug)]
pub struct TileEntity {
    pub id: String,
    pub x: i32,
    pub y: i32,
    pub z: i32,
    pub custom_name: Option<String>,
    pub levels: Option<i32>,
    pub primary: Option<i32>,
    pub secondary: Option<i32>,
    pub items: Option<Vec<Value>>,
    pub brew_time: Option<i32>,
    pub command: Option<String>,
    pub burn_time: Option<i16>,
    pub cook_time: Option<i16>,
    pub entity_id: Option<String>,
    pub spawn_count: Option<i16>,
    pub spawn_range: Option<i16>,
    pub spawn_data: Option<Value>,
    pub spawn_potentials: Option<Vec<Value>>,
    pub delay: Option<i16>,
    pub min_spawn_delay: Option<i16>,
    pub max_spawn_delay: Option<i16>,
    pub max_nearby_entities: Option<i16>,
    pub required_player_range: Option<i16>,
    pub max_experience: Option<i32>,
    pub remaining_experience: Option<i32>,
    pub experience_regen_tick: Option<i32>,
    pub experience_regen_rate: Option<i32>,
    pub experience_regen_amount: Option<i32>,
    pub note: Option<i8>,
    pub block_id: Option<i32>,
    pub block_data: Option<i32>,
    pub facing: Option<i32>,
    pub progress_bits: Option<u32>,
    pub extending: Option<i8>,
    pub record: Option<i32>,
    pub record_item: Option<Value>,
    pub text1: Option<String>,
    pub text2: Option<String>,
    pub text3: Option<String>,
    pub text4: Option<String>,
    pub skull_type: Option<i8>,
    pub extra_type: Option<String>,
    pub rot: Option<i8>,
    pub other: HashMap<String, Value>,
}

impl TileEntity {
    pub fn id(&self) -> (r: &String)
        ensures
            *r == self.id,
    {
        &self.id
    }

    pub fn other(&self) -> (r: &HashMap<String, Value>)
        ensures
            *r == self.other,
    {
        &self.other
    }
}


/// The three arrays of a section that locate and describe its blocks.
pub struct BlockArrays {
    pub blocks: Seq<i8>,
    pub add: Option<Seq<i8>>,
    pub data: Option<Seq<i8>>,
}

/// The view of an optional byte array.
pub open spec fn bytes_of(a: Option<Vec<i8>>) -> Option<Seq<i8>> {
    match a {
        Some(v) => Some(v@),
        None => None,
    }
}

/// The 4-bit value at position `idx` of a nibble array: the low nibble of byte `idx / 2` for
/// an even `idx`, the high nibble for an odd one.
pub open spec fn nibble(arr: Seq<i8>, idx: int) -> i8 {
    if idx % 2 == 0 {
        arr[idx / 2] & 15i8
    } else {
        (arr[idx / 2] >> 4u8) & 15i8
    }
}

/// The nibble at `idx`, or 0 where the array is absent.
pub open spec fn nibble_or_zero(arr: Option<Seq<i8>>, idx: int) -> i8 {
    match arr {
        Some(a) => nibble(a, idx),
        None => 0,
    }
}

/// The byte that `replace_block` computes when it writes `v` into the nibble of `byte` that
/// belongs to position `idx`: the other nibble kept, and `v` shifted into place and added.
/// (Only the low 4 bits of `v` stay in place; for an even `idx` the rest carries into the
/// high nibble.)
pub open spec fn put_nibble(byte: i8, idx: int, v: i8) -> int {
    if idx % 2 == 0 {
        (byte & -16i8) + v
    } else {
        (byte & 15i8) + (v << 4u8)
    }
}

/// `put_nibble` stays within a signed byte, so that its arithmetic does not overflow.
pub open spec fn nibble_fits(byte: i8, idx: int, v: i8) -> bool {
    i8::MIN <= put_nibble(byte, idx, v) <= i8::MAX
}

/// Linear position of the block at `(x, y, z)` in a section.
pub open spec fn block_pos(x: i32, y: i32, z: i32) -> int {
    y * 256 + z * 16 + x
}

/// `y * 16 * 16 + z * 16 + x` evaluates without overflow in `i32` and is a valid index into
/// an array of `len` entries.
pub open spec fn block_pos_ok(x: i32, y: i32, z: i32, len: int) -> bool {
    &&& i32::MIN <= y * 256 <= i32::MAX
    &&& i32::MIN <= z * 16 <= i32::MAX
    &&& i32::MIN <= y * 256 + z * 16 <= i32::MAX
    &&& 0 <= block_pos(x, y, z) < len
    &&& block_pos(x, y, z) <= i32::MAX
}

impl BlockArrays {
    /// Every array that holds position `idx` is long enough for it.
    pub open spec fn holds(self, idx: int) -> bool {
        &&& 0 <= idx < self.blocks.len()
        &&& (self.add matches Some(a) ==> idx / 2 < a.len())
        &&& (self.data matches Some(d) ==> idx / 2 < d.len())
    }

    /// The block that `Section::block` reads at position `pos`: the signed byte of `Blocks`
    /// plus, where `Add` is present, its byte `pos / 2` (shifted right by 4 for an odd `pos`)
    /// times 256; the data value is the `Data` nibble where `Data` is present.
    pub open spec fn block_at(self, pos: int) -> Block {
        let add_part: int = match self.add {
            Some(a) => if pos % 2 == 0 {
                a[pos / 2] as int
            } else {
                (a[pos / 2] >> 4u8) as int
            },
            None => 0,
        };
        Block {
            id: (self.blocks[pos] as int + add_part * 256) as i32,
            data: match self.data {
                Some(d) => Some(nibble(d, pos)),
                None => None,
            },
        }
    }

    /// `replace_block(idx, new)` can run without a panic.
    pub open spec fn can_replace(self, idx: int, new: Block) -> bool {
        &&& 0 <= idx < self.blocks.len()
        &&& (new.data is Some && self.data is Some ==> idx / 2 < self.data->0.len()
            && nibble_fits(self.data->0[idx / 2], idx, new.data->0))
        &&& (self.add matches Some(a) ==> idx / 2 < a.len() && nibble_fits(
            a[idx / 2],
            idx,
            high_byte(new.id),
        ))
    }

    /// The arrays after `replace_block(idx, new)`: the low byte of the id goes to `Blocks`;
    /// the data value goes to `Data` when the new block has one and the section has `Data`;
    /// the high byte of the id goes to `Add` when the section has `Add`.
    pub open spec fn with_block(self, idx: int, new: Block) -> BlockArrays {
        BlockArrays {
            blocks: self.blocks.update(idx, low_byte(new.id)),
            add: match self.add {
                Some(a) => Some(a.update(idx / 2, put_nibble(a[idx / 2], idx, high_byte(new.id)) as i8)),
                None => None,
            },
            data: match (new.data, self.data) {
                (Some(v), Some(d)) => Some(d.update(idx / 2, put_nibble(d[idx / 2], idx, v) as i8)),
                _ => self.data,
            },
        }
    }

    /// `replace_all(old, _)` selects position `i`: its byte equals the low byte of `old`'s id,
    /// `old` has no data value or the same one as the position, and either `old`'s id is below
    /// 256 and the position has no `Add` nibble, or the id made of the unsigned byte and the
    /// `Add` nibble equals `old`'s id.
    pub open spec fn selects(self, i: int, old: Block) -> bool {
        let d = nibble_or_zero(self.add, i);
        &&& self.blocks[i] == low_byte(old.id)
        &&& (old.data matches Some(v) ==> v == nibble_or_zero(self.data, i))
        &&& ((old.id < 256 && d == 0) || unsigned_byte(self.blocks[i]) + d * 256 == old.id)
    }

    /// The arrays after positions `0 .. k` were visited in increasing order, each position `i`
    /// with a target `targets(i)` being replaced by it with `replace_block`.
    pub open spec fn apply_upto(self, targets: spec_fn(int) -> Option<Block>, k: int) -> BlockArrays
        decreases k,
    {
        if k <= 0 {
            self
        } else {
            let prev = self.apply_upto(targets, k - 1);
            match targets(k - 1) {
                Some(t) => prev.with_block(k - 1, t),
                None => prev,
            }
        }
    }

    /// The targets of `replace_all(old, new)`: `new` at each position it selects.
    pub open spec fn replace_targets(self, old: Block, new: Block) -> spec_fn(int) -> Option<Block> {
        |i: int|
            if self.selects(i, old) {
                Some(new)
            } else {
                None
            }
    }

    /// The arrays after the first `k` positions were visited by `replace_all(old, new)`, where
    /// the selection is made on the arrays as they were before the call (`self`).
    pub open spec fn replaced_upto(self, old: Block, new: Block, k: int) -> BlockArrays {
        self.apply_upto(self.replace_targets(old, new), k)
    }

    /// Every position that has a target has its nibbles, and the replacement at each even
    /// position with a target keeps its bytes within range.
    pub open spec fn can_apply(self, targets: spec_fn(int) -> Option<Block>) -> bool {
        &&& forall|i: int| 0 <= i < self.blocks.len() && #[trigger] targets(i) is Some ==> self.holds(i)
        &&& forall|i: int|
            0 <= i < self.blocks.len() && i % 2 == 0 && #[trigger] targets(i) is Some
                ==> self.can_replace(i, targets(i)->0)
    }

    /// The block that `replace_all_blocks` looks up at position `i`: the unsigned byte of
    /// `Blocks` plus the `Add` nibble (or 0) times 256, with the `Data` nibble as data value
    /// where `Data` is present.
    pub open spec fn lookup_block(self, i: int) -> Block {
        Block {
            id: (unsigned_byte(self.blocks[i]) + nibble_or_zero(self.add, i) * 256) as i32,
            data: match self.data {
                Some(d) => Some(nibble(d, i)),
                None => None,
            },
        }
    }

    /// The targets of `replace_all_blocks(map)`: at each position, what `map` gives for the
    /// block looked up there, or, failing that, for the same id without a data value.
    pub open spec fn conversion_targets(self, map: Map<Block, Block>) -> spec_fn(int) -> Option<Block> {
        |i: int|
            {
                let b = self.lookup_block(i);
                let plain = Block { id: b.id, data: None };
                if map.contains_key(b) {
                    Some(map[b])
                } else if map.contains_key(plain) {
                    Some(map[plain])
                } else {
                    None
                }
            }
    }

    /// `replace_all_blocks(map)` can run without a panic: every position has its nibbles,
    /// and each replacement at an even position keeps its bytes within range.
    pub open spec fn can_convert_all(self, map: Map<Block, Block>) -> bool {
        &&& forall|i: int| 0 <= i < self.blocks.len() ==> #[trigger] self.holds(i)
        &&& self.can_apply(self.conversion_targets(map))
    }

    /// `replace_all(old, new)` can run without a panic: every position whose byte equals the
    /// low byte of `old`'s id has its nibbles, and each replacement at an even position keeps
    /// its bytes within range.
    pub open spec fn can_replace_all(self, old: Block, new: Block) -> bool {
        &&& forall|i: int|
            0 <= i < self.blocks.len() && #[trigger] self.blocks[i] == low_byte(old.id)
                ==> self.holds(i)
        &&& forall|i: int|
            0 <= i < self.blocks.len() && i % 2 == 0 && #[trigger] self.selects(i, old)
                ==> self.can_replace(i, new)
    }
}

/// What `apply_upto` keeps: the lengths of the arrays, and every byte of `Blocks` and of the
/// nibble arrays at or past the positions visited so far.
proof fn lemma_apply_upto_frame(orig: BlockArrays, targets: spec_fn(int) -> Option<Block>, k: int)
    requires
        0 <= k <= orig.blocks.len(),
        forall|i: int| 0 <= i < orig.blocks.len() && #[trigger] targets(i) is Some ==> orig.holds(i),
    ensures
        ({
            let r = orig.apply_upto(targets, k);
            &&& r.blocks.len() == orig.blocks.len()
            &&& (r.add is Some <==> orig.add is Some)
            &&& (r.data is Some <==> orig.data is Some)
            &&& (r.add matches Some(a) ==> a.len() == orig.add->0.len() && forall|b: int|
                k <= 2 * b && b < a.len() ==> #[trigger] a[b] == orig.add->0[b])
            &&& (r.data matches Some(d) ==> d.len() == orig.data->0.len() && forall|b: int|
                k <= 2 * b && b < d.len() ==> #[trigger] d[b] == orig.data->0[b])
            &&& forall|j: int| k <= j < orig.blocks.len() ==> #[trigger] r.blocks[j] == orig.blocks[j]
        }),
    decreases k,
{
    if k > 0 {
        lemma_apply_upto_frame(orig, targets, k - 1);
        if targets(k - 1) is Some {
            assert(orig.holds(k - 1));
        }
    }
}

/// Which byte `apply_upto` leaves in `Blocks`: the target's low byte at the positions with a
/// target among the first `k`, the starting byte everywhere else.
proof fn lemma_apply_upto_blocks(orig: BlockArrays, targets: spec_fn(int) -> Option<Block>, k: int)
    requires
        0 <= k <= orig.blocks.len(),
        forall|i: int| 0 <= i < orig.blocks.len() && #[trigger] targets(i) is Some ==> orig.holds(i),
    ensures
        forall|i: int|
            0 <= i < orig.blocks.len() ==> #[trigger] orig.apply_upto(targets, k).blocks[i] == (
            if i < k && targets(i) is Some {
                low_byte(targets(i)->0.id)
            } else {
                orig.blocks[i]
            }),
    decreases k,
{
    if k > 0 {
        lemma_apply_upto_blocks(orig, targets, k - 1);
        lemma_apply_upto_frame(orig, targets, k - 1);
    }
}

/// At an odd position every replacement keeps its bytes within range, and at an even one
/// the bytes it touches are still those of the starting arrays: so the replacement that
/// `can_apply` allows on the starting arrays can run on the arrays reached so far.
proof fn lemma_apply_step(orig: BlockArrays, targets: spec_fn(int) -> Option<Block>, k: int)
    requires
        0 <= k < orig.blocks.len(),
        orig.can_apply(targets),
        targets(k) is Some,
    ensures
        orig.apply_upto(targets, k).can_replace(k, targets(k)->0),
{
    let cur = orig.apply_upto(targets, k);
    let t = targets(k)->0;
    lemma_apply_upto_frame(orig, targets, k);
    assert(orig.holds(k));
    if k % 2 == 1 {
        if let (Some(v), Some(dd)) = (t.data, cur.data) {
            lemma_odd_nibble_fits(dd[k / 2], v);
        }
        if let Some(aa) = cur.add {
            lemma_odd_nibble_fits(aa[k / 2], high_byte(t.id));
        }
    } else {
        assert(orig.can_replace(k, t));
        if let (Some(v), Some(dd)) = (t.data, cur.data) {
            assert(dd[k / 2] == orig.data->0[k / 2]);
        }
        if let Some(aa) = cur.add {
            assert(aa[k / 2] == orig.add->0[k / 2]);
        }
    }
}

/// What `replace_all` demands gives what the replacements it makes need.
proof fn lemma_can_replace_all(orig: BlockArrays, old: Block, new: Block)
    requires
        orig.can_replace_all(old, new),
    ensures
        orig.can_apply(orig.replace_targets(old, new)),
{
    let f = orig.replace_targets(old, new);
    assert forall|i: int| 0 <= i < orig.blocks.len() && #[trigger] f(i) is Some implies orig.holds(
        i,
    ) by {
        assert(orig.blocks[i] == low_byte(old.id));
    }
    assert forall|i: int|
        0 <= i < orig.blocks.len() && i % 2 == 0 && #[trigger] f(i) is Some implies orig.can_replace(
        i,
        f(i)->0,
    ) by {
        assert(orig.selects(i, old));
    }
}

/// Law: `replace_all(old, new)` puts the low byte of `new`'s id at exactly the positions it
/// selects on the section as it was before the call, and leaves every other byte of
/// `Blocks` as it was.
pub proof fn lemma_replace_all_blocks(orig: BlockArrays, old: Block, new: Block)
    requires
        orig.can_replace_all(old, new),
    ensures
        ({
            let r = orig.replaced_upto(old, new, orig.blocks.len() as int);
            &&& r.blocks.len() == orig.blocks.len()
            &&& forall|i: int|
                0 <= i < orig.blocks.len() ==> #[trigger] r.blocks[i] == (if orig.selects(i, old) {
                    low_byte(new.id)
                } else {
                    orig.blocks[i]
                })
        }),
{
    let f = orig.replace_targets(old, new);
    lemma_can_replace_all(orig, old, new);
    lemma_apply_upto_blocks(orig, f, orig.blocks.len() as int);
    lemma_apply_upto_frame(orig, f, orig.blocks.len() as int);
}

/// Law: a stored byte read back as an id and stored again is the same byte
/// (`Block::from_i8(b).to_i8() == b`).
pub proof fn lemma_byte_roundtrip(b: i8)
    ensures
        low_byte(unsigned_byte(b)) == b,
{
    assert((((b as u8) as i32) & 255) as i8 == b) by (bit_vector);
}

/// Law: an id from 0 to 65535 is its low byte, read unsigned, plus its high byte, read
/// unsigned, times 256 (`to_i8` and `add_to_i8` lose nothing of such an id).
pub proof fn lemma_id_split(id: i32)
    requires
        0 <= id < 65536,
    ensures
        id == unsigned_byte(low_byte(id)) + (high_byte(id) as u8) as int * 256,
{
    assert(id == (((id & 255) as i8) as u8) as i32 + (((id >> 8) as i8) as u8) as i32 * 256)
        by (bit_vector)
        requires
            0 <= id < 65536,
    ;
}

proof fn lemma_put_then_nibble(byte: i8, idx: int, v: i8)
    requires
        0 <= v < 16,
        idx >= 0,
    ensures
        nibble_fits(byte, idx, v),
        ({
            let b = put_nibble(byte, idx, v) as i8;
            &&& idx % 2 == 0 ==> b & 15i8 == v
            &&& idx % 2 == 1 ==> (b >> 4u8) & 15i8 == v
        }),
{
    if idx % 2 == 0 {
        assert(i8::MIN <= (byte & -16i8) + v <= i8::MAX && (((byte & -16i8) + v) as i8) & 15i8 == v)
            by (bit_vector)
            requires
                0 <= v < 16,
        ;
    } else {
        assert(i8::MIN <= (byte & 15i8) + (v << 4u8) <= i8::MAX && ((((byte & 15i8) + (v << 4u8))
            as i8) >> 4u8) & 15i8 == v) by (bit_vector)
            requires
                0 <= v < 16,
        ;
    }
}

/// Law (a read gives back a write): after `replace_block(idx, new)` with a storable `new`
/// (id from 0 to 4095, data value none or from 0 to 15), the block that `replace_all_blocks`
/// looks up at `idx` has `new`'s id where the section has `Add` (its low byte alone where it
/// has none), and `new`'s data value where the section has `Data` and `new` has one (the data
/// value stored before where `new` has none; none at all where there is no `Data`).
pub proof fn lemma_replace_block_read_back(m: BlockArrays, idx: int, new: Block)
    requires
        m.holds(idx),
        storable(new),
    ensures
        m.can_replace(idx, new),
        m.with_block(idx, new).lookup_block(idx).id == (if m.add is Some {
            new.id as int
        } else {
            new.id as int % 256
        }),
        m.with_block(idx, new).lookup_block(idx).data == (match (m.data, new.data) {
            (None, _) => None,
            (Some(_), Some(d)) => Some(d),
            (Some(d), None) => Some(nibble(d, idx)),
        }),
{
    let id = new.id;
    let h = high_byte(id);
    lemma_high_byte_nibble(id);
    assert((h as u8) as int == h as int);
    if let Some(a) = m.add {
        lemma_put_then_nibble(a[idx / 2], idx, h);
    }
    if let (Some(d), Some(v)) = (m.data, new.data) {
        lemma_put_then_nibble(d[idx / 2], idx, v);
    }
    lemma_id_split(id);
    let r = m.with_block(idx, new);
    assert(r.blocks[idx] == low_byte(id));
    assert(unsigned_byte(low_byte(id)) == id % 256) by (bit_vector)
        requires
            0 <= id < 4096,
    ;
    if let Some(a) = m.add {
        assert(nibble(r.add->0, idx) == h);
    }
    if let (Some(d), Some(v)) = (m.data, new.data) {
        assert(nibble(r.data->0, idx) == v);
    }
}

/// Every array of the section holds every position of `Blocks`.
pub open spec fn covers(m: BlockArrays) -> bool {
    forall|i: int| 0 <= i < m.blocks.len() ==> #[trigger] m.holds(i)
}

/// A block that the arrays can store exactly: an id from 0 to 4095 (low byte and `Add`
/// nibble) and no data value or one from 0 to 15.
pub open spec fn storable(b: Block) -> bool {
    &&& 0 <= b.id < 4096
    &&& (b.data matches Some(d) ==> 0 <= d < 16)
}

/// Position `i` holds `b` in every array that is there: its low byte in `Blocks`, its high
/// nibble in `Add`, and its data value (when it has one) in `Data`.
pub open spec fn shows(m: BlockArrays, i: int, b: Block) -> bool {
    &&& m.blocks[i] == low_byte(b.id)
    &&& (m.add is Some ==> nibble_or_zero(m.add, i) == high_byte(b.id))
    &&& (b.data is Some && m.data is Some ==> nibble_or_zero(m.data, i) == b.data->0)
}

/// Position `i` reads the same in `m` and in `n`: the same byte of `Blocks` and the same
/// nibbles (or 0 for an absent array).
pub open spec fn same_at(m: BlockArrays, n: BlockArrays, i: int) -> bool {
    &&& m.blocks[i] == n.blocks[i]
    &&& nibble_or_zero(m.add, i) == nibble_or_zero(n.add, i)
    &&& nibble_or_zero(m.data, i) == nibble_or_zero(n.data, i)
}

/// `m` and `n` have the same arrays, of the same lengths.
pub open spec fn same_shape(m: BlockArrays, n: BlockArrays) -> bool {
    &&& m.blocks.len() == n.blocks.len()
    &&& (m.add is Some <==> n.add is Some)
    &&& (m.data is Some <==> n.data is Some)
    &&& (m.add is Some ==> m.add->0.len() == n.add->0.len())
    &&& (m.data is Some ==> m.data->0.len() == n.data->0.len())
}

/// Writing a nibble back into the byte it came from gives the byte.
proof fn lemma_put_same_nibble(byte: i8, idx: int)
    requires
        idx >= 0,
    ensures
        put_nibble(byte, idx, if idx % 2 == 0 { byte & 15i8 } else { (byte >> 4u8) & 15i8 }) == byte,
{
    assert((byte & -16i8) + (byte & 15i8) == byte) by (bit_vector);
    assert((byte & 15i8) + ((((byte >> 4u8) & 15i8) << 4u8)) == byte) by (bit_vector);
}

/// Writing a nibble leaves the other nibble of the byte as it was.
proof fn lemma_put_other_nibble(byte: i8, idx: int, v: i8)
    requires
        idx >= 0,
        0 <= v < 16,
    ensures
        idx % 2 == 0 ==> ((put_nibble(byte, idx, v) as i8) >> 4u8) & 15i8 == (byte >> 4u8) & 15i8,
        idx % 2 == 1 ==> (put_nibble(byte, idx, v) as i8) & 15i8 == byte & 15i8,
{
    assert(((((byte & -16i8) + v) as i8) >> 4u8) & 15i8 == (byte >> 4u8) & 15i8) by (bit_vector)
        requires
            0 <= v < 16,
    ;
    assert((((byte & 15i8) + (v << 4u8)) as i8) & 15i8 == byte & 15i8) by (bit_vector);
}

/// The high byte of a storable id fits in a nibble.
proof fn lemma_high_byte_nibble(id: i32)
    requires
        0 <= id < 4096,
    ensures
        0 <= high_byte(id) < 16,
{
    assert(0 <= ((id >> 8) as i8) < 16) by (bit_vector)
        requires
            0 <= id < 4096,
    ;
}

/// Writing nibble `v` at position `j` of `a`: position `j` then reads `v`, every other position
/// reads as before, and the length is kept.
proof fn lemma_write_nibble(a: Seq<i8>, j: int, v: i8)
    requires
        0 <= j,
        j / 2 < a.len(),
        0 <= v < 16,
    ensures
        ({
            let r = a.update(j / 2, put_nibble(a[j / 2], j, v) as i8);
            &&& r.len() == a.len()
            &&& nibble(r, j) == v
            &&& forall|i: int| 0 <= i && i / 2 < a.len() && i != j ==> #[trigger] nibble(r, i) == nibble(a, i)
        }),
{
    let r = a.update(j / 2, put_nibble(a[j / 2], j, v) as i8);
    lemma_put_then_nibble(a[j / 2], j, v);
    lemma_put_other_nibble(a[j / 2], j, v);
    assert forall|i: int| 0 <= i && i / 2 < a.len() && i != j implies #[trigger] nibble(r, i) == nibble(a, i) by {
        if i / 2 == j / 2 {
            assert(i % 2 != j % 2);
        }
    }
}

/// `replace_block(j, b)` with a storable `b` on arrays that hold position `j`: `j` then shows
/// `b`, every other position reads as before, and the arrays keep their shape.
proof fn lemma_with_block_point(m: BlockArrays, j: int, b: Block)
    requires
        m.holds(j),
        storable(b),
    ensures
        same_shape(m.with_block(j, b), m),
        shows(m.with_block(j, b), j, b),
        forall|i: int| 0 <= i < m.blocks.len() && m.holds(i) && i != j ==> #[trigger] same_at(
            m.with_block(j, b),
            m,
            i,
        ),
{
    let r = m.with_block(j, b);
    lemma_high_byte_nibble(b.id);
    if let Some(a) = m.add {
        lemma_write_nibble(a, j, high_byte(b.id));
    }
    if let (Some(v), Some(d)) = (b.data, m.data) {
        lemma_write_nibble(d, j, v);
    }
    assert forall|i: int| 0 <= i < m.blocks.len() && m.holds(i) && i != j implies #[trigger] same_at(
        r,
        m,
        i,
    ) by {
        if let Some(a) = m.add {
            assert(nibble(r.add->0, i) == nibble(a, i));
        }
        if let (Some(v), Some(d)) = (b.data, m.data) {
            assert(nibble(r.data->0, i) == nibble(d, i));
        }
    }
}

/// `replace_block(i, b)` where position `i` already shows `b` changes nothing.
proof fn lemma_with_block_same(m: BlockArrays, i: int, b: Block)
    requires
        m.holds(i),
        storable(b),
        shows(m, i, b),
    ensures
        m.with_block(i, b) == m,
{
    let r = m.with_block(i, b);
    assert(r.blocks =~= m.blocks);
    if let Some(a) = m.add {
        lemma_put_same_nibble(a[i / 2], i);
        assert(r.add->0 =~= a);
    }
    if let (Some(v), Some(d)) = (b.data, m.data) {
        lemma_put_same_nibble(d[i / 2], i);
        assert(r.data->0 =~= d);
    }
}

/// A position that `replace_all(b, _)` selects shows `b`, for a storable `b`.
proof fn lemma_selects_shows(m: BlockArrays, i: int, b: Block)
    requires
        m.holds(i),
        storable(b),
        m.selects(i, b),
    ensures
        shows(m, i, b),
{
    if let Some(a) = m.add {
        let d = nibble(a, i);
        lemma_nibble_bounds(a[i / 2]);
        let byte = m.blocks[i];
        let u = unsigned_byte(byte);
        let id = b.id;
        assert(0 <= u < 256) by (bit_vector)
            requires
                u == ((byte as u8) as i32),
        ;
        if id < 256 && d == 0 {
            assert(((id >> 8) as i8) == 0) by (bit_vector)
                requires
                    0 <= id < 256,
            ;
        } else {
            assert(((id >> 8) as i8) == d) by (bit_vector)
                requires
                    0 <= u < 256,
                    0 <= d < 16,
                    id == u + d as i32 * 256,
            ;
        }
    }
}

/// Whether a position is selected depends only on what it reads.
proof fn lemma_same_at_selects(m: BlockArrays, n: BlockArrays, i: int, b: Block)
    requires
        same_at(m, n, i),
    ensures
        m.selects(i, b) == n.selects(i, b),
{
}

/// On arrays that hold every position, a storable block can replace any position.
proof fn lemma_can_replace_storable(m: BlockArrays, i: int, b: Block)
    requires
        covers(m),
        0 <= i < m.blocks.len(),
        storable(b),
    ensures
        m.can_replace(i, b),
{
    assert(m.holds(i));
    lemma_high_byte_nibble(b.id);
    if let Some(a) = m.add {
        lemma_put_then_nibble(a[i / 2], i, high_byte(b.id));
    }
    if let (Some(v), Some(d)) = (b.data, m.data) {
        lemma_put_then_nibble(d[i / 2], i, v);
    }
}

/// What `apply_upto` leaves, position by position, when every target is storable: the
/// positions with a target among the first `k` show it, the others read as before.
proof fn lemma_apply_upto_shows(m: BlockArrays, targets: spec_fn(int) -> Option<Block>, k: int)
    requires
        covers(m),
        0 <= k <= m.blocks.len(),
        forall|i: int| 0 <= i < m.blocks.len() && #[trigger] targets(i) is Some ==> storable(targets(i)->0),
    ensures
        same_shape(m.apply_upto(targets, k), m),
        covers(m.apply_upto(targets, k)),
        forall|i: int|
            0 <= i < m.blocks.len() && i < k && targets(i) is Some ==> #[trigger] shows(
                m.apply_upto(targets, k),
                i,
                targets(i)->0,
            ),
        forall|i: int|
            0 <= i < m.blocks.len() && !(i < k && targets(i) is Some) ==> #[trigger] same_at(
                m.apply_upto(targets, k),
                m,
                i,
            ),
    decreases k,
{
    if k > 0 {
        lemma_apply_upto_shows(m, targets, k - 1);
        let prev = m.apply_upto(targets, k - 1);
        let r = m.apply_upto(targets, k);
        if let Some(t) = targets(k - 1) {
            assert(prev.holds(k - 1));
            lemma_with_block_point(prev, k - 1, t);
            assert forall|i: int| 0 <= i < m.blocks.len() implies #[trigger] r.holds(i) by {
                assert(prev.holds(i));
            }
            assert forall|i: int| 0 <= i < m.blocks.len() && i < k && targets(i) is Some implies #[trigger] shows(
                r,
                i,
                targets(i)->0,
            ) by {
                if i != k - 1 {
                    assert(prev.holds(i));
                    assert(same_at(r, prev, i));
                    assert(shows(prev, i, targets(i)->0));
                }
            }
            assert forall|i: int| 0 <= i < m.blocks.len() && !(i < k && targets(i) is Some) implies #[trigger] same_at(
                r,
                m,
                i,
            ) by {
                assert(prev.holds(i));
                assert(same_at(r, prev, i));
                assert(same_at(prev, m, i));
            }
        } else {
            assert forall|i: int| 0 <= i < m.blocks.len() && i < k && targets(i) is Some implies #[trigger] shows(
                r,
                i,
                targets(i)->0,
            ) by {
                assert(shows(prev, i, targets(i)->0));
            }
            assert forall|i: int| 0 <= i < m.blocks.len() && !(i < k && targets(i) is Some) implies #[trigger] same_at(
                r,
                m,
                i,
            ) by {
                assert(same_at(prev, m, i));
            }
        }
    }
}

/// Law: replacing a storable block by itself, on a section whose arrays hold every position,
/// can run and leaves the section as it was.
pub proof fn lemma_replace_all_identity(m: BlockArrays, b: Block)
    requires
        covers(m),
        storable(b),
    ensures
        m.can_replace_all(b, b),
        m.replaced_upto(b, b, m.blocks.len() as int) == m,
{
    assert forall|i: int| 0 <= i < m.blocks.len() && i % 2 == 0 && #[trigger] m.selects(i, b)
        implies m.can_replace(i, b) by {
        lemma_can_replace_storable(m, i, b);
    }
    lemma_apply_identity(m, m.replace_targets(b, b), m.blocks.len() as int);
}

/// `apply_upto` changes nothing when each position with a target already shows it.
proof fn lemma_apply_identity(m: BlockArrays, targets: spec_fn(int) -> Option<Block>, k: int)
    requires
        covers(m),
        0 <= k <= m.blocks.len(),
        forall|i: int|
            0 <= i < m.blocks.len() && #[trigger] targets(i) is Some ==> storable(targets(i)->0) && shows(
                m,
                i,
                targets(i)->0,
            ) || (targets(i) is Some && m.selects(i, targets(i)->0) && storable(targets(i)->0)),
    ensures
        m.apply_upto(targets, k) == m,
    decreases k,
{
    if k > 0 {
        lemma_apply_identity(m, targets, k - 1);
        if let Some(t) = targets(k - 1) {
            assert(m.holds(k - 1));
            if !shows(m, k - 1, t) {
                lemma_selects_shows(m, k - 1, t);
            }
            lemma_with_block_same(m, k - 1, t);
        }
    }
}

/// Law: `replace_all(old, new)` with a storable `new`, on a section whose arrays hold every
/// position, is idempotent: a second call can run and changes nothing.
pub proof fn lemma_replace_all_idempotent(m: BlockArrays, old: Block, new: Block)
    requires
        covers(m),
        storable(new),
    ensures
        m.can_replace_all(old, new),
        m.replaced_upto(old, new, m.blocks.len() as int).can_replace_all(old, new),
        m.replaced_upto(old, new, m.blocks.len() as int).replaced_upto(
            old,
            new,
            m.blocks.len() as int,
        ) == m.replaced_upto(old, new, m.blocks.len() as int),
{
    let n = m.blocks.len() as int;
    let f = m.replace_targets(old, new);
    assert forall|i: int| 0 <= i < n && i % 2 == 0 && #[trigger] m.selects(i, old) implies m.can_replace(
        i,
        new,
    ) by {
        lemma_can_replace_storable(m, i, new);
    }
    lemma_apply_upto_shows(m, f, n);
    let s1 = m.apply_upto(f, n);
    assert forall|i: int| 0 <= i < n && i % 2 == 0 && #[trigger] s1.selects(i, old) implies s1.can_replace(
        i,
        new,
    ) by {
        lemma_can_replace_storable(s1, i, new);
    }
    let g = s1.replace_targets(old, new);
    assert forall|i: int| 0 <= i < s1.blocks.len() && #[trigger] g(i) is Some implies storable(g(i)->0)
        && shows(s1, i, g(i)->0) || (g(i) is Some && s1.selects(i, g(i)->0) && storable(g(i)->0)) by {
        if !m.selects(i, old) {
            assert(same_at(s1, m, i));
            lemma_same_at_selects(s1, m, i, old);
        } else {
            assert(f(i) is Some);
            assert(shows(s1, i, f(i)->0));
        }
    }
    lemma_apply_identity(s1, g, n);
}

/// Law (a read gives back a write, through `Section::block`): on a section without `Add`,
/// after `replace_block(idx, new)` with an id from 0 to 127 (one that the signed byte of
/// `Blocks` holds as it is) and a data value none or from 0 to 15, the block that
/// `Section::block` reads at `idx` has `new`'s id, and `new`'s data value where the section has
/// `Data` and `new` has one (the data value stored before where `new` has none; none at all
/// where there is no `Data`).
pub proof fn lemma_replace_block_block_at(m: BlockArrays, idx: int, new: Block)
    requires
        m.holds(idx),
        m.add is None,
        0 <= new.id < 128,
        new.data matches Some(d) ==> 0 <= d < 16,
    ensures
        m.can_replace(idx, new),
        m.with_block(idx, new).block_at(idx) == (Block {
            id: new.id,
            data: match (m.data, new.data) {
                (None, _) => None,
                (Some(_), Some(d)) => Some(d),
                (Some(d), None) => Some(nibble(d, idx)),
            },
        }),
{
    let id = new.id;
    assert(((id & 255) as i8) as int == id) by (bit_vector)
        requires
            0 <= id < 128,
    ;
    if let (Some(d), Some(v)) = (m.data, new.data) {
        lemma_put_then_nibble(d[idx / 2], idx, v);
        assert(nibble(m.with_block(idx, new).data->0, idx) == v);
    }
}

/// Which positions `replace_all(old, _)` selects, for an id that is not negative: exactly those
/// whose id (the unsigned byte of `Blocks` plus the `Add` nibble times 256) is `old`'s, and whose
/// `Data` nibble (0 where there is no `Data`) is `old`'s data value when it has one.
proof fn lemma_selects_iff(m: BlockArrays, i: int, old: Block)
    requires
        m.holds(i),
        0 <= old.id,
    ensures
        m.selects(i, old) <==> (unsigned_byte(m.blocks[i]) + nibble_or_zero(m.add, i) * 256 == old.id
            && (old.data matches Some(v) ==> nibble_or_zero(m.data, i) == v)),
{
    let byte = m.blocks[i];
    let u = unsigned_byte(byte);
    let d = nibble_or_zero(m.add, i);
    let id = old.id;
    if let Some(a) = m.add {
        lemma_nibble_bounds(a[i / 2]);
    }
    assert(0 <= d < 16);
    assert(0 <= u < 256) by (bit_vector)
        requires
            u == ((byte as u8) as i32),
    ;
    if id < 256 && d == 0 && byte == low_byte(id) {
        assert(((byte as u8) as i32) == id) by (bit_vector)
            requires
                0 <= id < 256,
                byte == ((id & 255) as i8),
        ;
    }
    if u + d * 256 == id {
        assert(((id & 255) as i8) == byte) by (bit_vector)
            requires
                u == ((byte as u8) as i32),
                0 <= d < 16,
                id == u + d as i32 * 256,
        ;
    }
}

/// Law (what `replace_all` does at each position): on a section whose arrays hold every position,
/// with `old`'s id not negative and `new` storable, `replace_all(old, new)` leaves, at each
/// position whose block is `old` (its id, the unsigned byte of `Blocks` plus the `Add` nibble
/// times 256, is `old`'s, and its `Data` nibble, 0 without `Data`, is `old`'s data value when it
/// has one), `new`'s low byte in `Blocks`, `new`'s high nibble in `Add` and, when `new` has a
/// data value and the section has `Data`, that value in `Data`, whatever the low bytes of `old`
/// and `new`; every other position reads exactly as before.
pub proof fn lemma_replace_all_positions(m: BlockArrays, old: Block, new: Block)
    requires
        forall|i: int| 0 <= i < m.blocks.len() ==> #[trigger] m.holds(i),
        0 <= old.id,
        0 <= new.id < 4096,
        new.data matches Some(d) ==> 0 <= d < 16,
    ensures
        ({
            let r = m.replaced_upto(old, new, m.blocks.len() as int);
            &&& r.blocks.len() == m.blocks.len()
            &&& (r.add is Some <==> m.add is Some)
            &&& (r.data is Some <==> m.data is Some)
            &&& forall|i: int|
                #![trigger m.blocks[i]]
                0 <= i < m.blocks.len() ==> (if unsigned_byte(m.blocks[i]) + nibble_or_zero(m.add, i)
                    * 256 == old.id && (old.data matches Some(v) ==> nibble_or_zero(m.data, i) == v) {
                    &&& r.blocks[i] == ((new.id & 255) as i8)
                    &&& (m.add is Some ==> nibble_or_zero(r.add, i) == ((new.id >> 8) as i8))
                    &&& (new.data is Some && m.data is Some ==> nibble_or_zero(r.data, i) == new.data->0)
                } else {
                    &&& r.blocks[i] == m.blocks[i]
                    &&& nibble_or_zero(r.add, i) == nibble_or_zero(m.add, i)
                    &&& nibble_or_zero(r.data, i) == nibble_or_zero(m.data, i)
                })
        }),
{
    let n = m.blocks.len() as int;
    let f = m.replace_targets(old, new);
    lemma_apply_upto_shows(m, f, n);
    let r = m.replaced_upto(old, new, n);
    assert forall|i: int| #![trigger m.blocks[i]] 0 <= i < n implies (if unsigned_byte(m.blocks[i]) + nibble_or_zero(m.add, i)
        * 256 == old.id && (old.data matches Some(v) ==> nibble_or_zero(m.data, i) == v) {
        &&& r.blocks[i] == ((new.id & 255) as i8)
        &&& (m.add is Some ==> nibble_or_zero(r.add, i) == ((new.id >> 8) as i8))
        &&& (new.data is Some && m.data is Some ==> nibble_or_zero(r.data, i) == new.data->0)
    } else {
        &&& r.blocks[i] == m.blocks[i]
        &&& nibble_or_zero(r.add, i) == nibble_or_zero(m.add, i)
        &&& nibble_or_zero(r.data, i) == nibble_or_zero(m.data, i)
    }) by {
        lemma_selects_iff(m, i, old);
        if m.selects(i, old) {
            assert(f(i) == Some(new));
            assert(f(i) is Some);
            assert(shows(m.apply_upto(f, n), i, f(i)->0));
            assert(shows(r, i, new));
        } else {
            assert(f(i) is None);
            assert(same_at(r, m, i));
        }
    }
}

/// Law (what `replace_all_blocks` does at each position): on a section whose arrays hold every
/// position, with a table whose every value is storable, `replace_all_blocks(map)` leaves at each
/// position, where `b` is the block there (id: the unsigned byte of `Blocks` plus the `Add`
/// nibble times 256; data value: the `Data` nibble, none without `Data`): `map[b]` when `b` is a
/// key of the table; otherwise `map` of `b`'s id without data value when that is a key; and
/// otherwise the position as it was. "Leaves `t`" means `t`'s low byte in `Blocks`, its high
/// nibble in `Add` (when present) and its data value in `Data` (when both are present). A
/// position counts as converted (for the result of `replace_all_blocks`) exactly when one of
/// the two keys is in the table.
pub proof fn lemma_replace_all_blocks_positions(m: BlockArrays, map: Map<Block, Block>)
    requires
        forall|i: int| 0 <= i < m.blocks.len() ==> #[trigger] m.holds(i),
        forall|k: Block| #[trigger] map.contains_key(k) ==> 0 <= map[k].id < 4096 && (map[k].data matches Some(
            d,
        ) ==> 0 <= d < 16),
    ensures
        ({
            let r = m.apply_upto(m.conversion_targets(map), m.blocks.len() as int);
            &&& r.blocks.len() == m.blocks.len()
            &&& (r.add is Some <==> m.add is Some)
            &&& (r.data is Some <==> m.data is Some)
            &&& forall|i: int|
                #![trigger m.blocks[i]]
                0 <= i < m.blocks.len() ==> {
                    let b = Block {
                        id: (unsigned_byte(m.blocks[i]) + nibble_or_zero(m.add, i) * 256) as i32,
                        data: match m.data {
                            Some(d) => Some(nibble(d, i)),
                            None => None,
                        },
                    };
                    let p = Block { id: b.id, data: None };
                    &&& (m.conversion_targets(map)(i) is Some <==> map.contains_key(b) || map.contains_key(p))
                    &&& if map.contains_key(b) || map.contains_key(p) {
                        let t = if map.contains_key(b) {
                            map[b]
                        } else {
                            map[p]
                        };
                        &&& r.blocks[i] == ((t.id & 255) as i8)
                        &&& (m.add is Some ==> nibble_or_zero(r.add, i) == ((t.id >> 8) as i8))
                        &&& (t.data is Some && m.data is Some ==> nibble_or_zero(r.data, i) == t.data->0)
                    } else {
                        &&& r.blocks[i] == m.blocks[i]
                        &&& nibble_or_zero(r.add, i) == nibble_or_zero(m.add, i)
                        &&& nibble_or_zero(r.data, i) == nibble_or_zero(m.data, i)
                    }
                }
        }),
{
    let n = m.blocks.len() as int;
    let f = m.conversion_targets(map);
    assert forall|i: int| 0 <= i < n && #[trigger] f(i) is Some implies storable(f(i)->0) by {
        let b = m.lookup_block(i);
        let p = Block { id: b.id, data: None };
        if map.contains_key(b) {
        } else {
            assert(map.contains_key(p));
        }
    }
    lemma_apply_upto_shows(m, f, n);
    let r = m.apply_upto(f, n);
    assert forall|i: int| #![trigger m.blocks[i]] 0 <= i < n implies {
        let b = Block {
            id: (unsigned_byte(m.blocks[i]) + nibble_or_zero(m.add, i) * 256) as i32,
            data: match m.data {
                Some(d) => Some(nibble(d, i)),
                None => None,
            },
        };
        let p = Block { id: b.id, data: None };
        &&& (m.conversion_targets(map)(i) is Some <==> map.contains_key(b) || map.contains_key(p))
        &&& if map.contains_key(b) || map.contains_key(p) {
            let t = if map.contains_key(b) {
                map[b]
            } else {
                map[p]
            };
            &&& r.blocks[i] == ((t.id & 255) as i8)
            &&& (m.add is Some ==> nibble_or_zero(r.add, i) == ((t.id >> 8) as i8))
            &&& (t.data is Some && m.data is Some ==> nibble_or_zero(r.data, i) == t.data->0)
        } else {
            &&& r.blocks[i] == m.blocks[i]
            &&& nibble_or_zero(r.add, i) == nibble_or_zero(m.add, i)
            &&& nibble_or_zero(r.data, i) == nibble_or_zero(m.data, i)
        }
    } by {
        assert(m.lookup_block(i).id == (unsigned_byte(m.blocks[i]) + nibble_or_zero(m.add, i) * 256) as i32);
        if f(i) is Some {
            assert(shows(m.apply_upto(f, n), i, f(i)->0));
        } else {
            assert(same_at(r, m, i));
        }
    }
}

/// A 16x16x16 section of a 1.4.7 chunk: `Blocks` holds the low byte of each id, `Add` (when
/// present) the high nibble, `Data` (when present) the 4-bit data value.
#[derive(Clone, Debug)]
pub struct Section {
    pub blocks: Vec<i8>,
    pub add: Option<Vec<i8>>,
    pub y: i8,
    pub data: Option<Vec<i8>>,
    pub other: HashMap<String, Value>,
}

impl View for Section {
    type V = BlockArrays;

    open spec fn view(&self) -> BlockArrays {
        BlockArrays { blocks: self.blocks@, add: bytes_of(self.add), data: bytes_of(self.data) }
    }
}

proof fn lemma_nibble_bounds(b: i8)
    ensures
        0 <= b & 15i8 < 16,
        0 <= (b >> 4u8) & 15i8 < 16,
{
    assert(0 <= b & 15i8 < 16) by (bit_vector);
    assert(0 <= (b >> 4u8) & 15i8 < 16) by (bit_vector);
}

/// Writing into the high nibble never leaves the range of a signed byte.
proof fn lemma_odd_nibble_fits(b: i8, v: i8)
    ensures
        i8::MIN <= (b & 15i8) + (v << 4u8) <= i8::MAX,
{
    assert(0 <= (b & 15i8) < 16) by (bit_vector);
    assert(-128 <= (v << 4u8) <= 112 && (v << 4u8) % 16 == 0) by (bit_vector);
}

/// Computes the byte `put_nibble` describes in two in-place steps: subtract the old
/// nibble, then add the new value.
fn put_nibble_exec(byte: i8, idx: usize, v: i8) -> (r: i8)
    requires
        nibble_fits(byte, idx as int, v),
    ensures
        r == put_nibble(byte, idx as int, v),
{
    if idx % 2 == 0 {
        let d = byte & 0x0F;
        assert(byte - (byte & 15i8) == byte & -16i8) by (bit_vector);
        let cleared = byte - d;
        cleared + v
    } else {
        let d = (byte >> 4) & 0x0F;
        assert(byte - ((((byte >> 4u8) & 15i8) << 4u8) as i8) == (byte & 15i8)
            && i8::MIN <= byte - ((((byte >> 4u8) & 15i8) << 4u8) as i8) <= i8::MAX)
            by (bit_vector);
        let cleared = byte - (d << 4);
        proof {
            lemma_odd_nibble_fits(byte, v);
        }
        cleared + (v << 4)
    }
}

/// Whether `put_nibble(byte, idx, v)` stays within a signed byte.
fn nibble_fits_exec(byte: i8, idx: usize, v: i8) -> (r: bool)
    ensures
        r == nibble_fits(byte, idx as int, v),
{
    let sum: i16 = if idx % 2 == 0 {
        (byte & -16i8) as i16 + v as i16
    } else {
        (byte & 15i8) as i16 + (v << 4) as i16
    };
    -128 <= sum && sum <= 127
}

fn copy_bytes(v: &Vec<i8>) -> (r: Vec<i8>)
    ensures
        r@ == v@,
{
    let mut r: Vec<i8> = Vec::new();
    let mut i: usize = 0;
    while i < v.len()
        invariant
            i <= v.len(),
            r@ == v@.take(i as int),
        decreases v.len() - i,
    {
        r.push(v[i]);
        i = i + 1;
        assert(r@ =~= v@.take(i as int));
    }
    assert(v@.take(i as int) =~= v@);
    r
}

fn copy_opt_bytes(v: &Option<Vec<i8>>) -> (r: Option<Vec<i8>>)
    ensures
        bytes_of(r) == bytes_of(*v),
{
    match v {
        Some(a) => Some(copy_bytes(a)),
        None => None,
    }
}

impl Section {
    pub fn y(&self) -> (r: i8)
        ensures
            r == self.y,
    {
        self.y
    }

    pub fn blocks(&self) -> (r: &Vec<i8>)
        ensures
            *r == self.blocks,
    {
        &self.blocks
    }

    pub fn add(&self) -> (r: Option<&Vec<i8>>)
        ensures
            r is Some == self.add is Some,
            r matches Some(v) ==> *v == self.add->0,
    {
        self.add.as_ref()
    }

    pub fn other(&self) -> (r: &HashMap<String, Value>)
        ensures
            *r == self.other,
    {
        &self.other
    }

    /// The block at `(x, y, z)`.
    pub fn block(&self, x: i32, y: i32, z: i32) -> (r: Block)
        requires
            block_pos_ok(x, y, z, self.blocks.len() as int),
            self@.holds(block_pos(x, y, z)),
        ensures
            r == self@.block_at(block_pos(x, y, z)),
    {
        let block_pos = (y * 16 * 16 + z * 16 + x) as usize;
        let mut block = self.blocks[block_pos] as i32;
        if let Some(added) = &self.add {
            let a = added[block_pos / 2];
            let sh: u32 = if block_pos % 2 == 0 { 0 } else { 4 };
            let part = (a as i32) >> sh;
            assert(-128 <= part <= 127) by (bit_vector)
                requires part == (a as i32) >> sh, sh == 0 || sh == 4;
            assert(part == (if block_pos % 2 == 0 { a as int } else { (a >> 4u8) as int }))
                by (bit_vector)
                requires part == (a as i32) >> sh, (sh == 0) == (block_pos % 2 == 0), sh == 0 || sh == 4;
            assert((part << 8u32) == part * 256) by (bit_vector)
                requires -128 <= part <= 127;
            block += part << 8;
        }
        let mut data = None;
        if let Some(data_arr) = &self.data {
            let d = if block_pos % 2 == 0 {
                data_arr[block_pos / 2] & 0x0F
            } else {
                (data_arr[block_pos / 2] >> 4) & 0x0F
            };
            data = Some(d);
        }
        Block { id: block, data }
    }

    /// The nibble at `idx` of `arr`, or 0 where there is no array.
    fn get_data(idx: usize, arr: Option<&Vec<i8>>) -> (r: i8)
        requires
            arr matches Some(a) ==> idx / 2 < a.len(),
        ensures
            r == nibble_or_zero(
                match arr {
                    Some(a) => Some(a@),
                    None => None,
                },
                idx as int,
            ),
            0 <= r < 16,
    {
        if let Some(data) = arr {
            proof {
                lemma_nibble_bounds(data@[(idx / 2) as int]);
            }
            if idx % 2 == 0 {
                data[idx / 2] & 0x0F
            } else {
                (data[idx / 2] >> 4) & 0x0F
            }
        } else {
            0
        }
    }

    /// Puts `new_block` at position `idx`.
    pub fn replace_block(&mut self, idx: usize, new_block: &Block)
        requires
            old(self)@.can_replace(idx as int, *new_block),
        ensures
            final(self)@ == old(self)@.with_block(idx as int, *new_block),
            final(self).y == old(self).y,
            final(self).other == old(self).other,
    {
        if let Some(new_data) = new_block.data {
            if let Some(data_arr) = &mut self.data {
                let byte = data_arr[idx / 2];
                let nb = put_nibble_exec(byte, idx, new_data);
                data_arr.set(idx / 2, nb);
            }
        }
        if let Some(added) = &mut self.add {
            let byte = added[idx / 2];
            let nb = put_nibble_exec(byte, idx, new_block.add_to_i8());
            added.set(idx / 2, nb);
        }
        self.blocks.set(idx, new_block.to_i8());
        assert(self@.blocks =~= old(self)@.with_block(idx as int, *new_block).blocks);
    }

    /// Replaces every block that `old` stands for by `new`: the selection (see
    /// `BlockArrays::selects`) is made on the section as it was when the call began, and the
    /// selected positions are then replaced in increasing order with `replace_block`.
    pub fn replace_all(&mut self, old_block: &Block, new_block: &Block)
        requires
            old(self)@.can_replace_all(*old_block, *new_block),
        ensures
            final(self)@ == old(self)@.replaced_upto(*old_block, *new_block, old(self).blocks.len() as int),
            final(self).y == old(self).y,
            final(self).other == old(self).other,
    {
        let blocks = copy_bytes(&self.blocks);
        let data = copy_opt_bytes(&self.data);
        let add = copy_opt_bytes(&self.add);
        let ghost orig = self@;
        let target = old_block.to_i8();
        let len = blocks.len();
        let mut idx: usize = 0;
        while idx < len
            invariant
                len == blocks.len(),
                blocks@ == orig.blocks,
                bytes_of(data) == orig.data,
                bytes_of(add) == orig.add,
                target == low_byte(old_block.id),
                orig.can_replace_all(*old_block, *new_block),
                idx <= len,
                self@ == orig.replaced_upto(*old_block, *new_block, idx as int),
                self.y == old(self).y,
                self.other == old(self).other,
            decreases len - idx,
        {
            proof {
                lemma_can_replace_all(orig, *old_block, *new_block);
                lemma_apply_upto_frame(orig, orig.replace_targets(*old_block, *new_block), idx as int);
            }
            let ghost before = self@;
            let block = blocks[idx];
            let mut selected = false;
            if block == target {
                assert(orig.holds(idx as int));
                let data_nibble = Self::get_data(idx, data.as_ref());
                let d = Self::get_data(idx, add.as_ref());
                if old_block.data.is_none() || old_block.data.unwrap() == data_nibble {
                    if old_block.id < 256 && d == 0 {
                        selected = true;
                    } else {
                        let b = Block::from_i8(block);
                        assert(((d as i32) << 8u32) == d * 256) by (bit_vector)
                            requires 0 <= d < 16;
                        let id = b.id + ((d as i32) << 8);
                        if id == old_block.id {
                            selected = true;
                        }
                    }
                }
            }
            assert(selected == orig.selects(idx as int, *old_block));
            if selected {
                proof {
                    lemma_apply_step(orig, orig.replace_targets(*old_block, *new_block), idx as int);
                }
                self.replace_block(idx, new_block);
            }
            idx = idx + 1;
        }
    }

    /// Converts every block that `conversion_map` knows: each position is looked up with its
    /// id and data value and, failing that, with its id alone; the lookups are made on the
    /// section as it was when the call began, and the positions found are then replaced in
    /// increasing order with `replace_block`. Tells whether any block was converted.
    pub fn replace_all_blocks(&mut self, conversion_map: &ConversionMap<Block>) -> (r: bool)
        requires
            old(self)@.can_convert_all(conversion_map@),
        ensures
            final(self)@ == old(self)@.apply_upto(
                old(self)@.conversion_targets(conversion_map@),
                old(self).blocks.len() as int,
            ),
            r == exists|i: int|
                0 <= i < old(self).blocks.len() && #[trigger] old(self)@.conversion_targets(
                    conversion_map@,
                )(i) is Some,
            final(self).y == old(self).y,
            final(self).other == old(self).other,
    {
        let blocks = copy_bytes(&self.blocks);
        let data = copy_opt_bytes(&self.data);
        let add = copy_opt_bytes(&self.add);
        let ghost orig = self@;
        let ghost targets = orig.conversion_targets(conversion_map@);
        let len = blocks.len();
        let mut converted = false;
        let mut idx: usize = 0;
        while idx < len
            invariant
                len == blocks.len(),
                blocks@ == orig.blocks,
                bytes_of(data) == orig.data,
                bytes_of(add) == orig.add,
                targets == orig.conversion_targets(conversion_map@),
                orig.can_convert_all(conversion_map@),
                idx <= len,
                self@ == orig.apply_upto(targets, idx as int),
                converted == exists|i: int| 0 <= i < idx && #[trigger] targets(i) is Some,
                self.y == old(self).y,
                self.other == old(self).other,
            decreases len - idx,
        {
            proof {
                lemma_apply_upto_frame(orig, targets, idx as int);
            }
            assert(orig.holds(idx as int));
            let mut b = Block::from_i8(blocks[idx]);
            let d = Self::get_data(idx, add.as_ref());
            assert(((d as i32) << 8u32) == d * 256) by (bit_vector)
                requires 0 <= d < 16;
            b.id = b.id + ((d as i32) << 8);
            if data.is_some() {
                b.data = Some(Self::get_data(idx, data.as_ref()));
            }
            assert(b == orig.lookup_block(idx as int));
            let target = match conversion_map.get(&b) {
                Some(nb) => Some(*nb),
                None => {
                    b.data = None;
                    match conversion_map.get(&b) {
                        Some(nb) => Some(*nb),
                        None => None,
                    }
                },
            };
            assert(target == targets(idx as int));
            if let Some(t) = target {
                converted = true;
                proof {
                    lemma_apply_step(orig, targets, idx as int);
                }
                self.replace_block(idx, &t);
            }
            idx = idx + 1;
        }
        converted
    }

    /// Whether the arrays hold position `idx` (see `BlockArrays::holds`).
    fn holds_exec(&self, idx: usize) -> (r: bool)
        ensures
            r == self@.holds(idx as int),
    {
        if idx >= self.blocks.len() {
            return false;
        }
        if let Some(a) = &self.add {
            if idx / 2 >= a.len() {
                return false;
            }
        }
        if let Some(d) = &self.data {
            if idx / 2 >= d.len() {
                return false;
            }
        }
        true
    }

    /// Whether `replace_block(idx, new_block)` can run (see `BlockArrays::can_replace`).
    pub fn can_replace(&self, idx: usize, new_block: &Block) -> (r: bool)
        ensures
            r == self@.can_replace(idx as int, *new_block),
    {
        if idx >= self.blocks.len() {
            return false;
        }
        if let (Some(v), Some(d)) = (new_block.data, &self.data) {
            if idx / 2 >= d.len() || !nibble_fits_exec(d[idx / 2], idx, v) {
                return false;
            }
        }
        if let Some(a) = &self.add {
            if idx / 2 >= a.len() || !nibble_fits_exec(a[idx / 2], idx, new_block.add_to_i8()) {
                return false;
            }
        }
        true
    }

    /// Whether `replace_all(old_block, new_block)` can run (see
    /// `BlockArrays::can_replace_all`).
    pub fn can_replace_all(&self, old_block: &Block, new_block: &Block) -> (r: bool)
        ensures
            r == self@.can_replace_all(*old_block, *new_block),
    {
        let target = old_block.to_i8();
        let len = self.blocks.len();
        let mut i: usize = 0;
        while i < len
            invariant
                len == self.blocks.len(),
                i <= len,
                target == low_byte(old_block.id),
                forall|k: int|
                    0 <= k < i && #[trigger] self@.blocks[k] == low_byte(old_block.id) ==> self@.holds(k),
                forall|k: int|
                    0 <= k < i && k % 2 == 0 && #[trigger] self@.selects(k, *old_block)
                        ==> self@.can_replace(k, *new_block),
            decreases len - i,
        {
            if self.blocks[i] == target {
                if !self.holds_exec(i) {
                    return false;
                }
                let data_nibble = Self::get_data(i, self.data.as_ref());
                let d = Self::get_data(i, self.add.as_ref());
                let id = Block::from_i8(self.blocks[i]).id + (d as i32) * 256;
                let selected = (old_block.data.is_none() || old_block.data.unwrap() == data_nibble)
                    && ((old_block.id < 256 && d == 0) || id == old_block.id);
                assert(selected == self@.selects(i as int, *old_block));
                if selected && i % 2 == 0 && !self.can_replace(i, new_block) {
                    return false;
                }
            } else {
                assert(!self@.selects(i as int, *old_block));
            }
            i = i + 1;
        }
        true
    }

    /// Whether `replace_all_blocks(conversion_map)` can run (see
    /// `BlockArrays::can_convert_all`).
    pub fn can_convert_all(&self, conversion_map: &ConversionMap<Block>) -> (r: bool)
        ensures
            r == self@.can_convert_all(conversion_map@),
    {
        let ghost targets = self@.conversion_targets(conversion_map@);
        let len = self.blocks.len();
        let mut i: usize = 0;
        while i < len
            invariant
                len == self.blocks.len(),
                i <= len,
                targets == self@.conversion_targets(conversion_map@),
                forall|k: int| 0 <= k < i ==> #[trigger] self@.holds(k),
                forall|k: int|
                    0 <= k < i && k % 2 == 0 && #[trigger] targets(k) is Some ==> self@.can_replace(
                        k,
                        targets(k)->0,
                    ),
            decreases len - i,
        {
            if !self.holds_exec(i) {
                return false;
            }
            let mut b = Block::from_i8(self.blocks[i]);
            let d = Self::get_data(i, self.add.as_ref());
            b.id = b.id + (d as i32) * 256;
            if self.data.is_some() {
                b.data = Some(Self::get_data(i, self.data.as_ref()));
            }
            assert(b == self@.lookup_block(i as int));
            let target = match conversion_map.get(&b) {
                Some(nb) => Some(*nb),
                None => {
                    b.data = None;
                    match conversion_map.get(&b) {
                        Some(nb) => Some(*nb),
                        None => None,
                    }
                },
            };
            assert(target == targets(i as int));
            if let Some(t) = target {
                if i % 2 == 0 && !self.can_replace(i, &t) {
                    return false;
                }
            }
            i = i + 1;
        }
        assert(forall|k: int| 0 <= k < self.blocks.len() ==> #[trigger] self@.holds(k));
        true
    }
}

} // verus!
