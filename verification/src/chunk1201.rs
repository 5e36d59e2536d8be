//! The chunk layout of Minecraft 1.20.1, and the conversion of 1.4.7 chunks into it.

use vstd::prelude::*;
use std::collections::HashMap;
use fastnbt::Value;
use crate::chunk147;
use crate::conversion::ConversionMap;
use crate::nbt::{nbt_value_clone, nbt_value_eq};
use crate::packing::{
    bit_len, bits_for, entry, get_bits, lemma_bit_len_leading_zeros, lemma_entry_frame, lemma_entry_roundtrip,
    lemma_index_fits, lemma_layout, long_of, padded, set_bits, start_of, with_entry,
};

verus! {

/// What the library knows of a 1.20.1 block: its name, and whether it carries properties
/// (their content is an NBT value that the library does not look into).
pub struct BlockKind {
    pub name: Seq<char>,
    pub has_properties: bool,
}

/// A block state of the 1.20.1 format: a namespaced name such as `minecraft:stone`, and
/// optional properties.
#[derive(Debug, PartialEq)]
pub struct Block {
    pub name: String,
    pub properties: Option<Value>,
}

impl View for Block {
    type V = BlockKind;

    open spec fn view(&self) -> BlockKind {
        BlockKind { name: self.name@, has_properties: self.properties is Some }
    }
}

impl Clone for Block {
    fn clone(&self) -> (r: Self)
        ensures
            r@ == self@,
    {
        Block {
            name: self.name.clone(),
            properties: match &self.properties {
                Some(v) => Some(nbt_value_clone(v)),
                None => None,
            },
        }
    }
}

impl Block {
    pub fn new(name: String, properties: Option<Value>) -> (r: Self)
        ensures
            r.name == name,
            r.properties == properties,
    {
        Self { name, properties }
    }

    pub fn name(&self) -> (r: &String)
        ensures
            *r == self.name,
    {
        &self.name
    }
}

/// Compares two blocks as their derived `PartialEq` does: the names, then the properties.
/// Blocks without properties compare exactly by name; for two blocks with properties only
/// the comparison of the NBT values, which the library cannot see, decides.
fn same_block(a: &Block, b: &Block) -> (r: bool)
    ensures
        r ==> a@ == b@,
        a.properties is None || b.properties is None ==> (r == (a@ == b@)),
{
    if a.name != b.name {
        return false;
    }
    match (&a.properties, &b.properties) {
        (None, None) => true,
        (Some(x), Some(y)) => nbt_value_eq(x, y),
        _ => false,
    }
}

/// The views of a palette's blocks.
pub open spec fn kinds(palette: Seq<Block>) -> Seq<BlockKind> {
    palette.map_values(|b: Block| b@)
}

/// `r` is where `palette_contains` finds `b` in `s` when `b` has no properties: the first
/// position holding it, or -1 when none does.
pub open spec fn is_first_index(s: Seq<BlockKind>, b: BlockKind, r: int) -> bool {
    &&& (r == -1 ==> forall|j: int| 0 <= j < s.len() ==> s[j] != b)
    &&& (r >= 0 ==> 0 <= r < s.len() && s[r] == b && forall|j: int| 0 <= j < r ==> s[j] != b)
}

/// The palette and packed indices of a 1.20.1 section.
pub struct BlockStatesView {
    pub palette: Seq<BlockKind>,
    pub data: Option<Seq<i64>>,
}

/// `w` is a palette index that `set_block` may write for `b`: a position of the palette
/// holding `b`, or the end of the palette (where `b` is then added); for a block without
/// properties it is the first position holding `b`, or the end when none does.
pub open spec fn valid_write(old: BlockStatesView, b: BlockKind, w: int) -> bool {
    &&& (w == old.palette.len() || (0 <= w < old.palette.len() && old.palette[w] == b))
    &&& (!b.has_properties ==> (w == old.palette.len() ==> forall|j: int|
        0 <= j < old.palette.len() ==> old.palette[j] != b))
    &&& (!b.has_properties ==> (w < old.palette.len() ==> forall|j: int|
        0 <= j < w ==> old.palette[j] != b))
}

impl BlockStatesView {
    /// What `set_block` leaves after writing palette index `w` for `b` at position `pos`: the
    /// palette, extended with `b` when `w` is its end; and, where there is a packed array, the
    /// array extended with zero words up to the word of `pos` and index `w` stored at `pos`,
    /// with the width that the new palette length calls for.
    pub open spec fn with_block(self, b: BlockKind, pos: int, w: int) -> BlockStatesView {
        let palette = if w == self.palette.len() {
            self.palette.push(b)
        } else {
            self.palette
        };
        let bits = bits_for(palette.len() as int);
        BlockStatesView {
            palette,
            data: match self.data {
                Some(d) => Some(with_entry(padded(d, long_of(pos, bits) + 1), pos, bits, w as u64)),
                None => None,
            },
        }
    }

    /// The palette index read at `pos`: the first entry where there is no packed array.
    pub open spec fn index_at(self, pos: int) -> int {
        match self.data {
            Some(d) => entry(d, pos, bits_for(self.palette.len() as int)) as int,
            None => 0,
        }
    }
}

/// Law (a read gives back a write): after `set_block` wrote palette index `w` for `b` at
/// position `pos` of a section with a packed array, the index read at `pos` is `w`, and the
/// palette holds `b` there.
pub proof fn lemma_set_block_read_back(bs: BlockStatesView, b: BlockKind, pos: int, w: int)
    requires
        valid_write(bs, b, w),
        pos >= 0,
        bs.palette.len() < isize::MAX,
        bs.data is Some,
    ensures
        ({
            let r = bs.with_block(b, pos, w);
            &&& r.palette.len() >= 1
            &&& long_of(pos, bits_for(r.palette.len() as int)) < r.data->0.len()
            &&& r.index_at(pos) == w
            &&& 0 <= w < r.palette.len()
            &&& r.palette[w] == b
        }),
{
    let r = bs.with_block(b, pos, w);
    let bits = bits_for(r.palette.len() as int);
    let len = r.palette.len();
    lemma_bit_len_leading_zeros((len - 1) as u64);
    lemma_layout(pos, bits);
    let d = padded(bs.data->0, long_of(pos, bits) + 1);
    let s = start_of(pos, bits);
    lemma_index_fits(w as u64, len as u64, s as u64);
    lemma_entry_roundtrip(d, pos, bits, w as u64);
}

/// Law (a write leaves other positions alone): when the palette already holds the block (or,
/// more generally, when the palette's width does not change), `set_block` at `pos` leaves the
/// index read at every other position `q` of the packed array, and the palette entry it names,
/// as they were; with `BlockStates::block`, whose result is the palette entry at `index_at`,
/// every other position reads the same block as before.
pub proof fn lemma_set_block_frame(bs: BlockStatesView, b: BlockKind, pos: int, w: int, q: int)
    requires
        valid_write(bs, b, w),
        pos >= 0,
        q >= 0,
        q != pos,
        bs.palette.len() >= 1,
        bs.palette.len() < isize::MAX,
        bs.data is Some,
        w < bs.palette.len() || bits_for(bs.with_block(b, pos, w).palette.len() as int) == bits_for(
            bs.palette.len() as int,
        ),
        long_of(q, bits_for(bs.palette.len() as int)) < bs.data->0.len(),
    ensures
        ({
            let r = bs.with_block(b, pos, w);
            &&& r.index_at(q) == bs.index_at(q)
            &&& (0 <= bs.index_at(q) < bs.palette.len() ==> r.palette[bs.index_at(q)]
                == bs.palette[bs.index_at(q)])
        }),
{
    let r = bs.with_block(b, pos, w);
    let bits = bits_for(r.palette.len() as int);
    let len = r.palette.len();
    lemma_bit_len_leading_zeros((len - 1) as u64);
    lemma_layout(pos, bits);
    lemma_layout(q, bits);
    let d0 = bs.data->0;
    let d = padded(d0, long_of(pos, bits) + 1);
    let s = start_of(pos, bits);
    lemma_index_fits(w as u64, len as u64, s as u64);
    assert(entry(d, q, bits) == entry(d0, q, bits));
    lemma_entry_frame(d, pos, bits, w as u64, q);
}

/// The palette of block states of a 1.20.1 section and, when the palette has more than one
/// entry, the packed array of palette indices for its 4096 positions.
#[derive(Debug)]
pub struct BlockStates {
    pub palette: Vec<Block>,
    pub data: Option<Vec<i64>>,
}

impl View for BlockStates {
    type V = BlockStatesView;

    open spec fn view(&self) -> BlockStatesView {
        BlockStatesView {
            palette: kinds(self.palette@),
            data: match self.data {
                Some(d) => Some(d@),
                None => None,
            },
        }
    }
}

/// The width of a palette index for a palette of `len` entries, computed from the leading
/// zeros of `len - 1`.
fn bits_per_index(len: usize) -> (r: usize)
    requires
        len >= 1,
    ensures
        r == bits_for(len as int),
        4 <= r <= 64,
{
    let lz = ((len - 1) as u64).leading_zeros();
    proof {
        lemma_bit_len_leading_zeros((len - 1) as u64);
    }
    let b = 64 - lz as usize;
    if b < 4 {
        4
    } else {
        b
    }
}

/// Linear position of the block at `(x, y, z)` in a section.
pub open spec fn block_pos(x: i32, y: i32, z: i32) -> int {
    chunk147::block_pos(x, y, z)
}

/// `y * 16 * 16 + z * 16 + x` evaluates without overflow in `i32` and is not negative.
pub open spec fn block_pos_fits(x: i32, y: i32, z: i32) -> bool {
    &&& i32::MIN <= y * 256 <= i32::MAX
    &&& i32::MIN <= z * 16 <= i32::MAX
    &&& i32::MIN <= y * 256 + z * 16 <= i32::MAX
    &&& 0 <= block_pos(x, y, z) <= i32::MAX
}

impl BlockStates {
    /// A palette with, when it has more than one entry, a zeroed packed array with room for
    /// 4096 positions.
    pub fn new(palette: Vec<Block>) -> (r: Self)
        requires
            palette.len() >= 1,
        ensures
            r.palette == palette,
            palette.len() == 1 ==> r.data is None,
            palette.len() > 1 ==> (r.data matches Some(d) && d@ == Seq::new(
                (4095int / (64int / bits_for(palette.len() as int)) + 1) as nat,
                |i: int| 0i64,
            )),
    {
        if palette.len() == 1 {
            return Self { palette, data: None };
        }
        let bits = bits_per_index(palette.len());
        proof {
            lemma_layout(0, bits as int);
        }
        let values_per_64bits = 64 / bits;
        let max = (15 * 16 * 16 + 15 * 16 + 15) / values_per_64bits;
        assert(max <= 4095) by (nonlinear_arith)
            requires
                max == 4095usize / values_per_64bits,
                values_per_64bits >= 1,
        ;
        let mut data: Vec<i64> = Vec::new();
        let mut i: usize = 0;
        while i < max + 1
            invariant
                max <= 4095,
                i <= max + 1,
                max == 4095int / (64int / bits_for(palette.len() as int)),
                data@ == Seq::new(i as nat, |j: int| 0i64),
            decreases max + 1 - i,
        {
            data.push(0);
            i = i + 1;
            assert(data@ =~= Seq::new(i as nat, |j: int| 0i64));
        }
        Self { palette, data: Some(data) }
    }

    pub fn palette(&self) -> (r: &Vec<Block>)
        ensures
            *r == self.palette,
    {
        &self.palette
    }

    pub fn data(&self) -> (r: Option<&Vec<i64>>)
        ensures
            r is Some == self.data is Some,
            r matches Some(v) ==> *v == self.data->0,
    {
        self.data.as_ref()
    }

    /// The block at `(x, y, z)`: the palette entry whose index is stored there, or the first
    /// entry when there is no packed array.
    pub fn block(&self, x: i32, y: i32, z: i32) -> (r: &Block)
        requires
            self.palette.len() >= 1,
            self.data is Some ==> block_pos_fits(x, y, z) && long_of(
                block_pos(x, y, z),
                bits_for(self.palette.len() as int),
            ) < self.data->0.len() && self@.index_at(block_pos(x, y, z)) < self.palette.len(),
        ensures
            *r == self.palette@[self@.index_at(block_pos(x, y, z))],
    {
        if self.data.is_none() {
            &self.palette[0]
        } else {
            let data = self.data.as_ref().unwrap();
            let block_pos = (y * 16 * 16 + z * 16 + x) as usize;
            let bits = bits_per_index(self.palette.len());
            let values_per_64bits = 64 / bits;
            proof {
                lemma_layout(block_pos as int, bits as int);
            }
            let long_index = block_pos / values_per_64bits;
            let inter_index = block_pos % values_per_64bits;
            assert((inter_index + 1) * bits == inter_index * bits + bits) by (nonlinear_arith);
            #[verifier::truncate]
            let long = data[long_index] as u64;
            let palette_index = get_bits(long, inter_index * bits, (inter_index + 1) * bits);
            &self.palette[palette_index as usize]
        }
    }

    /// Where `block` is in the palette, or -1. A block without properties is found at the
    /// first entry with its name and no properties.
    pub fn palette_contains(&self, block: &Block) -> (r: isize)
        requires
            self.palette.len() <= isize::MAX,
        ensures
            -1 <= r < self.palette.len(),
            r >= 0 ==> self.palette@[r as int]@ == block@,
            block.properties is None ==> is_first_index(kinds(self.palette@), block@, r as int),
    {
        let mut idx: usize = 0;
        while idx < self.palette.len()
            invariant
                idx <= self.palette.len(),
                self.palette.len() <= isize::MAX,
                block.properties is None ==> forall|j: int|
                    0 <= j < idx ==> kinds(self.palette@)[j] != block@,
            decreases self.palette.len() - idx,
        {
            if same_block(&self.palette[idx], block) {
                return idx as isize;
            }
            idx = idx + 1;
        }
        -1
    }

    /// Appends `block` to the palette and returns its index.
    pub fn add_to_palette(&mut self, block: Block) -> (r: isize)
        ensures
            final(self).palette@ == old(self).palette@.push(block),
            final(self).data == old(self).data,
            r == (old(self).palette.len()) as isize,
    {
        self.palette.push(block);
        (self.palette.len() - 1) as isize
    }

    /// Stores `block` at `(x, y, z)`: finds it in the palette or appends it there, extends the
    /// packed array (if any) with zero words up to the word of the position, and writes the
    /// palette index there with the width that the palette's length now calls for. (Indices
    /// already stored are not re-packed when that width grows.)
    pub fn set_block(&mut self, block: &Block, x: i32, y: i32, z: i32)
        requires
            old(self).palette.len() < isize::MAX,
            block_pos_fits(x, y, z),
        ensures
            exists|w: int|
                valid_write(old(self)@, block@, w) && final(self)@ == old(self)@.with_block(
                    block@,
                    block_pos(x, y, z),
                    w,
                ),
    {
        let ghost before = self@;
        let mut idx = self.palette_contains(block);
        if idx == -1 {
            idx = self.add_to_palette(block.clone());
            assert(kinds(self.palette@) =~= before.palette.push(block@));
        }
        let ghost w = idx as int;
        assert(valid_write(before, block@, w));
        let block_pos = (y * 16 * 16 + z * 16 + x) as usize;
        let bits = bits_per_index(self.palette.len());
        proof {
            lemma_layout(block_pos as int, bits as int);
        }
        let values_per_64bits = 64 / bits;
        let long_index = block_pos / values_per_64bits;
        let inter_index = block_pos % values_per_64bits;
        assert((inter_index + 1) * bits == inter_index * bits + bits) by (nonlinear_arith);
        let start = inter_index * bits;
        let end = (inter_index + 1) * bits;
        let mut data_opt: Option<Vec<i64>> = None;
        std::mem::swap(&mut data_opt, &mut self.data);
        if let Some(mut data) = data_opt {
            let ghost d0 = data@;
            while data.len() <= long_index
                invariant
                    d0.len() <= data.len(),
                    d0.len() <= long_index ==> data.len() <= long_index + 1,
                    data@ == (if d0.len() > long_index {
                        d0
                    } else {
                        padded(d0, data.len() as int)
                    }),
                decreases long_index + 1 - data.len(),
            {
                data.push(0);
                assert(data@ =~= padded(d0, data.len() as int));
            }
            assert(data@ =~= padded(d0, long_index + 1));
            #[verifier::truncate]
            let mut long = data[long_index] as u64;
            proof {
                lemma_index_fits(idx as u64, self.palette.len() as u64, start as u64);
            }
            set_bits(&mut long, start, end, idx as u64);
            #[verifier::truncate]
            let stored = long as i64;
            data.set(long_index, stored);
            self.data = Some(data);
        }
        assert(self@ == before.with_block(block@, block_pos as int, w));
    }
}

/// The name a 1.4.7 block converts to: what the table gives for it, or `minecraft:air`.
pub open spec fn converted_name(map: Map<chunk147::Block, String>, b: chunk147::Block) -> Seq<char> {
    if map.contains_key(b) {
        map[b]@
    } else {
        "minecraft:air"@
    }
}

/// A block with the given name and no properties.
pub open spec fn plain(name: Seq<char>) -> BlockKind {
    BlockKind { name, has_properties: false }
}

/// The first position of `s` holding `b`, or the length of `s` when none does.
pub open spec fn find_kind(s: Seq<BlockKind>, b: BlockKind) -> int
    decreases s.len(),
{
    if s.len() == 0 {
        0
    } else if s[0] == b {
        0
    } else {
        1 + find_kind(s.drop_first(), b)
    }
}

/// The palette that `Section::convert_old` starts from: `minecraft:air`, then, when the old
/// section has an `Add` array, the converted name of each of its first `k` positions (looked
/// up by id alone), each added when not there yet.
pub open spec fn initial_palette(
    m: chunk147::BlockArrays,
    map: Map<chunk147::Block, String>,
    k: int,
) -> Seq<BlockKind>
    decreases k,
{
    if k <= 0 {
        seq![plain("minecraft:air"@)]
    } else {
        let prev = initial_palette(m, map, k - 1);
        if m.add is Some {
            let n = plain(converted_name(map, chunk147::Block { id: m.block_at(k - 1).id, data: None }));
            if prev.contains(n) {
                prev
            } else {
                prev.push(n)
            }
        } else {
            prev
        }
    }
}

/// What `BlockStates::new` makes of a palette.
pub open spec fn initial_states(palette: Seq<BlockKind>) -> BlockStatesView {
    BlockStatesView {
        palette,
        data: if palette.len() == 1 {
            None
        } else {
            Some(Seq::new((4095int / (64int / bits_for(palette.len() as int)) + 1) as nat, |i: int| 0i64))
        },
    }
}

/// `set_block` of a block without properties, whose palette index is determined.
pub open spec fn set_plain(bs: BlockStatesView, n: BlockKind, pos: int) -> BlockStatesView {
    bs.with_block(n, pos, find_kind(bs.palette, n))
}

/// The block states after the first `k` positions of the old section were stored, each under
/// its converted name.
pub open spec fn converted_states(
    init: BlockStatesView,
    m: chunk147::BlockArrays,
    map: Map<chunk147::Block, String>,
    k: int,
) -> BlockStatesView
    decreases k,
{
    if k <= 0 {
        init
    } else {
        set_plain(
            converted_states(init, m, map, k - 1),
            plain(converted_name(map, m.block_at(k - 1))),
            k - 1,
        )
    }
}

/// The block states that `Section::convert_old` makes of an old section.
pub open spec fn converted_section(
    m: chunk147::BlockArrays,
    map: Map<chunk147::Block, String>,
) -> BlockStatesView {
    converted_states(initial_states(initial_palette(m, map, m.blocks.len() as int)), m, map, 4096)
}

proof fn lemma_find_kind(s: Seq<BlockKind>, b: BlockKind)
    ensures
        0 <= find_kind(s, b) <= s.len(),
        find_kind(s, b) < s.len() ==> s[find_kind(s, b)] == b,
        forall|j: int| 0 <= j < find_kind(s, b) ==> s[j] != b,
    decreases s.len(),
{
    if s.len() > 0 && s[0] != b {
        lemma_find_kind(s.drop_first(), b);
        assert forall|j: int| 0 <= j < find_kind(s, b) implies s[j] != b by {
            if j > 0 {
                assert(s[j] == s.drop_first()[j - 1]);
            }
        }
    }
}

/// For a block without properties, the only index `set_block` may write is the one
/// `find_kind` gives.
proof fn lemma_valid_write_plain(bs: BlockStatesView, n: BlockKind, w: int)
    requires
        !n.has_properties,
        valid_write(bs, n, w),
    ensures
        w == find_kind(bs.palette, n),
{
    lemma_find_kind(bs.palette, n);
    let f = find_kind(bs.palette, n);
    if w < f {
        assert(bs.palette[w] != n);
    } else if f < w {
        assert(bs.palette[f] == n);
    }
}

/// Whether `palette` holds a block equal to `block`, as `Vec::contains` decides with the
/// blocks' `PartialEq`.
fn palette_has(palette: &Vec<Block>, block: &Block) -> (r: bool)
    ensures
        r ==> kinds(palette@).contains(block@),
        block.properties is None ==> (r == kinds(palette@).contains(block@)),
{
    let mut i: usize = 0;
    while i < palette.len()
        invariant
            i <= palette.len(),
            block.properties is None ==> forall|j: int| 0 <= j < i ==> kinds(palette@)[j] != block@,
        decreases palette.len() - i,
    {
        if same_block(&palette[i], block) {
            assert(kinds(palette@)[i as int] == block@);
            return true;
        }
        i = i + 1;
    }
    false
}

proof fn lemma_bit_len_mono(a: nat, b: nat)
    requires
        a <= b,
    ensures
        bit_len(a) <= bit_len(b),
    decreases b,
{
    if a > 0 {
        lemma_bit_len_mono(a / 2, b / 2);
    }
}

/// Each step of the conversion keeps the palette it found as a prefix of the one it leaves.
proof fn lemma_states_prefix(
    init: BlockStatesView,
    m: chunk147::BlockArrays,
    map: Map<chunk147::Block, String>,
    j: int,
    k: int,
)
    requires
        0 <= j <= k,
    ensures
        ({
            let sj = converted_states(init, m, map, j).palette;
            let sk = converted_states(init, m, map, k).palette;
            &&& sj.len() <= sk.len() <= sj.len() + (k - j)
            &&& forall|i: int| 0 <= i < sj.len() ==> #[trigger] sk[i] == sj[i]
        }),
    decreases k,
{
    if j < k {
        lemma_states_prefix(init, m, map, j, k - 1);
        let prev = converted_states(init, m, map, k - 1);
        let n = plain(converted_name(map, m.block_at(k - 1)));
        lemma_find_kind(prev.palette, n);
    }
}

/// The packed array that `BlockStates::new` makes holds the word of every one of the 4096
/// positions.
proof fn lemma_long_of_bound(q: int, b0: int)
    requires
        0 <= q <= 4095,
        4 <= b0 <= 64,
    ensures
        0 <= long_of(q, b0) < 4095int / (64int / b0) + 1,
{
    lemma_layout(q, b0);
    assert(long_of(q, b0) < 4095int / (64int / b0) + 1) by (nonlinear_arith)
        requires
            0 <= q <= 4095,
            long_of(q, b0) == q / (64int / b0),
            64int / b0 >= 1,
    ;
}

/// The conversion, position by position: with the width fixed at `b0` throughout, every
/// position stored so far reads back its converted name.
proof fn lemma_converted_states_read_back(
    init: BlockStatesView,
    m: chunk147::BlockArrays,
    map: Map<chunk147::Block, String>,
    k: int,
    b0: int,
)
    requires
        0 <= k <= 4096,
        init.palette.len() > 1,
        init.palette.len() + 4096 < isize::MAX,
        b0 == bits_for(init.palette.len() as int),
        init.data == Some(Seq::new((4095int / (64int / b0) + 1) as nat, |i: int| 0i64)),
        bits_for(converted_states(init, m, map, 4096).palette.len() as int) == b0,
    ensures
        ({
            let s = converted_states(init, m, map, k);
            &&& s.data is Some
            &&& s.data->0.len() == 4095int / (64int / b0) + 1
            &&& init.palette.len() <= s.palette.len() <= init.palette.len() + k
            &&& bits_for(s.palette.len() as int) == b0
            &&& forall|q: int|
                0 <= q < k ==> 0 <= #[trigger] s.index_at(q) < s.palette.len() && s.palette[s.index_at(
                    q,
                )] == plain(converted_name(map, m.block_at(q)))
        }),
    decreases k,
{
    let s = converted_states(init, m, map, k);
    let len0 = 4095int / (64int / b0) + 1;
    lemma_states_prefix(init, m, map, 0, k);
    lemma_states_prefix(init, m, map, k, 4096);
    let fin = converted_states(init, m, map, 4096);
    lemma_bit_len_mono((init.palette.len() - 1) as nat, (s.palette.len() - 1) as nat);
    lemma_bit_len_mono((s.palette.len() - 1) as nat, (fin.palette.len() - 1) as nat);
    lemma_bit_len_leading_zeros((init.palette.len() - 1) as u64);
    assert(4 <= b0 <= 64);
    assert(bits_for(s.palette.len() as int) == b0);
    lemma_layout(0, b0);
    assert(len0 >= 1) by (nonlinear_arith)
        requires
            len0 == 4095int / (64int / b0) + 1,
            64int / b0 >= 1,
    ;
    if k > 0 {
        lemma_converted_states_read_back(init, m, map, k - 1, b0);
        let prev = converted_states(init, m, map, k - 1);
        let n = plain(converted_name(map, m.block_at(k - 1)));
        let w = find_kind(prev.palette, n);
        lemma_find_kind(prev.palette, n);
        assert(valid_write(prev, n, w));
        let pos = k - 1;
        lemma_layout(pos, b0);
        assert(long_of(pos, b0) < len0) by (nonlinear_arith)
            requires
                0 <= pos <= 4095,
                4 <= b0 <= 64,
                len0 == 4095int / (64int / b0) + 1,
                long_of(pos, b0) == pos / (64int / b0),
                64int / b0 >= 1,
        ;
        lemma_set_block_read_back(prev, n, pos, w);
        assert forall|q: int| 0 <= q < k implies 0 <= #[trigger] s.index_at(q) < s.palette.len()
            && s.palette[s.index_at(q)] == plain(converted_name(map, m.block_at(q))) by {
            if q < pos {
                lemma_layout(q, b0);
                assert(long_of(q, b0) < len0) by (nonlinear_arith)
                    requires
                        0 <= q <= 4095,
                        4 <= b0 <= 64,
                        len0 == 4095int / (64int / b0) + 1,
                        long_of(q, b0) == q / (64int / b0),
                        64int / b0 >= 1,
                ;
                lemma_set_block_frame(prev, n, pos, w, q);
            }
        }
        assert(padded(prev.data->0, long_of(pos, b0) + 1) == prev.data->0);
        assert(s.data->0.len() == len0);
    }
}

/// Law (the conversion keeps every block): when the starting palette has more than one entry
/// and the palette's width never grows during the conversion, the packed array holds the word
/// of every position, and every position of the converted section reads back a block without
/// properties, named by the table's entry for the block `Section::block` reads at that position
/// of the old section (its id and its data value where the old section has `Data`), or
/// `minecraft:air` when the table has no such entry.
pub proof fn lemma_convert_old_read_back(m: chunk147::BlockArrays, map: Map<chunk147::Block, String>)
    requires
        m.blocks.len() < isize::MAX - 4097,
        initial_palette(m, map, m.blocks.len() as int).len() > 1,
        bits_for(converted_section(m, map).palette.len() as int) == bits_for(
            initial_palette(m, map, m.blocks.len() as int).len() as int,
        ),
    ensures
        ({
            let r = converted_section(m, map);
            &&& r.data is Some
            &&& r.palette.len() >= 1
            &&& forall|pos: int|
                0 <= pos < 4096 ==> #[trigger] long_of(pos, bits_for(r.palette.len() as int))
                    < r.data->0.len()
            &&& forall|pos: int|
                0 <= pos < 4096 ==> 0 <= #[trigger] r.index_at(pos) < r.palette.len()
                    && r.palette[r.index_at(pos)] == (BlockKind {
                    name: if map.contains_key(m.block_at(pos)) {
                        map[m.block_at(pos)]@
                    } else {
                        "minecraft:air"@
                    },
                    has_properties: false,
                })
        }),
{
    let pal = initial_palette(m, map, m.blocks.len() as int);
    lemma_initial_palette_len(m, map, m.blocks.len() as int);
    let init = initial_states(pal);
    lemma_converted_states_read_back(init, m, map, 4096, bits_for(pal.len() as int));
    lemma_bit_len_leading_zeros((pal.len() - 1) as u64);
    assert forall|pos: int| 0 <= pos < 4096 implies #[trigger] long_of(
        pos,
        bits_for(converted_section(m, map).palette.len() as int),
    ) < converted_section(m, map).data->0.len() by {
        lemma_long_of_bound(pos, bits_for(pal.len() as int));
    }
}

proof fn lemma_initial_palette_len(m: chunk147::BlockArrays, map: Map<chunk147::Block, String>, k: int)
    requires
        k >= 0,
    ensures
        1 <= initial_palette(m, map, k).len() <= 1 + k,
    decreases k,
{
    if k > 0 {
        lemma_initial_palette_len(m, map, k - 1);
    }
}

/// With `Add`, the starting palette holds the converted name (looked up by id alone) of each
/// of the first `k` positions.
proof fn lemma_initial_palette_holds(m: chunk147::BlockArrays, map: Map<chunk147::Block, String>, k: int)
    requires
        m.add is Some,
        k >= 0,
    ensures
        forall|i: int|
            0 <= i < k ==> initial_palette(m, map, k).contains(
                plain(converted_name(map, chunk147::Block { id: #[trigger] m.block_at(i).id, data: None })),
            ),
    decreases k,
{
    if k > 0 {
        lemma_initial_palette_holds(m, map, k - 1);
        let prev = initial_palette(m, map, k - 1);
        let cur = initial_palette(m, map, k);
        assert forall|i: int| 0 <= i < k implies cur.contains(
            plain(converted_name(map, chunk147::Block { id: #[trigger] m.block_at(i).id, data: None })),
        ) by {
            let n = plain(converted_name(map, chunk147::Block { id: m.block_at(i).id, data: None }));
            if i < k - 1 {
                let j = choose|j: int| 0 <= j < prev.len() && prev[j] == n;
                if !prev.contains(plain(converted_name(map, chunk147::Block { id: m.block_at(k - 1).id, data: None }))) {
                    assert(cur[j] == prev[j]);
                }
            } else {
                if !prev.contains(n) {
                    assert(cur[prev.len() as int] == n);
                }
            }
        }
    }
}

/// When the palette already holds the converted name of every position, the conversion never
/// grows it and keeps whether there is a packed array.
proof fn lemma_states_keep_palette(
    init: BlockStatesView,
    m: chunk147::BlockArrays,
    map: Map<chunk147::Block, String>,
    k: int,
)
    requires
        k >= 0,
        forall|q: int| 0 <= q < k ==> init.palette.contains(#[trigger] plain(converted_name(map, m.block_at(q)))),
    ensures
        converted_states(init, m, map, k).palette == init.palette,
        converted_states(init, m, map, k).data is None <==> init.data is None,
    decreases k,
{
    if k > 0 {
        lemma_states_keep_palette(init, m, map, k - 1);
        let prev = converted_states(init, m, map, k - 1);
        let n = plain(converted_name(map, m.block_at(k - 1)));
        assert(init.palette.contains(n));
        lemma_find_kind(prev.palette, n);
        if find_kind(prev.palette, n) == prev.palette.len() {
            let j = choose|j: int| 0 <= j < init.palette.len() && init.palette[j] == n;
            assert(prev.palette[j] == n);
        }
    }
}

/// Law (the conversion keeps every block): for an old section with `Add` and without `Data`,
/// whose arrays hold all 4096 positions, the converted block states meet what
/// `BlockStates::block` requires at every position (a non-empty palette, a packed array, if
/// any, that holds each position's word, an index within the palette), and every position
/// reads back a block without properties, named by the table's entry for the old block there,
/// or `minecraft:air` when the table has none.
pub proof fn lemma_convert_old_read_back_with_add(m: chunk147::BlockArrays, map: Map<chunk147::Block, String>)
    requires
        m.add is Some,
        m.data is None,
        forall|i: int| 0 <= i < 4096 ==> #[trigger] m.holds(i),
        m.blocks.len() < isize::MAX - 4097,
    ensures
        ({
            let r = converted_section(m, map);
            &&& r.palette.len() >= 1
            &&& (r.data matches Some(d) ==> forall|pos: int|
                0 <= pos < 4096 ==> #[trigger] long_of(pos, bits_for(r.palette.len() as int)) < d.len())
            &&& forall|pos: int|
                0 <= pos < 4096 ==> 0 <= #[trigger] r.index_at(pos) < r.palette.len()
                    && r.palette[r.index_at(pos)] == (BlockKind {
                    name: if map.contains_key(m.block_at(pos)) {
                        map[m.block_at(pos)]@
                    } else {
                        "minecraft:air"@
                    },
                    has_properties: false,
                })
        }),
{
    let len = m.blocks.len() as int;
    let pal = initial_palette(m, map, len);
    let init = initial_states(pal);
    assert(m.holds(4095));
    lemma_initial_palette_len(m, map, len);
    lemma_initial_palette_holds(m, map, len);
    assert forall|q: int| 0 <= q < 4096 implies init.palette.contains(
        #[trigger] plain(converted_name(map, m.block_at(q))),
    ) by {
        assert(m.block_at(q) == chunk147::Block { id: m.block_at(q).id, data: None });
    }
    lemma_states_keep_palette(init, m, map, 4096);
    let r = converted_section(m, map);
    if pal.len() > 1 {
        lemma_converted_states_read_back(init, m, map, 4096, bits_for(pal.len() as int));
        lemma_bit_len_leading_zeros((pal.len() - 1) as u64);
        assert forall|pos: int| 0 <= pos < 4096 implies #[trigger] long_of(
            pos,
            bits_for(r.palette.len() as int),
        ) < r.data->0.len() by {
            lemma_long_of_bound(pos, bits_for(pal.len() as int));
        }
    } else {
        assert forall|pos: int| 0 <= pos < 4096 implies 0 <= #[trigger] r.index_at(pos) < r.palette.len()
            && r.palette[r.index_at(pos)] == plain(converted_name(map, m.block_at(pos))) by {
            let n = plain(converted_name(map, m.block_at(pos)));
            assert(init.palette.contains(n));
        }
    }
}

/// A 16x16x16 section of a 1.20.1 chunk.
#[derive(Debug)]
pub struct Section {
    pub y: i8,
    pub block_states: Option<BlockStates>,
    pub biomes: Option<Biomes>,
}

impl Section {
    pub fn block_states(&self) -> (r: Option<&BlockStates>)
        ensures
            r is Some == self.block_states is Some,
            r matches Some(v) ==> *v == self.block_states->0,
    {
        self.block_states.as_ref()
    }

    pub fn mut_block_states(&mut self) -> (r: Option<&mut BlockStates>)
        ensures
            r is Some == old(self).block_states is Some,
            r matches Some(v) ==> *v == old(self).block_states->0,
            final(self).y == old(self).y,
            final(self).biomes == old(self).biomes,
            final(self).block_states is Some == old(self).block_states is Some,
            r matches Some(v) ==> final(self).block_states->0 == *final(v),
    {
        self.block_states.as_mut()
    }

    /// Converts a 1.4.7 section: every position is stored under the name that the table gives
    /// for its block (or `minecraft:air`), in the order of increasing position, into block
    /// states whose palette starts from `initial_palette`.
    pub fn convert_old(old: &chunk147::Section, conversion_map: &ConversionMap<String>) -> (r: Self)
        requires
            convertible(*old),
        ensures
            converts_to(r, *old, conversion_map@),
    {
        let ghost m = old@;
        let ghost map = conversion_map@;
        let default = "minecraft:air".to_string();
        let mut palette: Vec<Block> = Vec::new();
        palette.push(Block::new(default.clone(), None));
        assert(kinds(palette@) =~= initial_palette(m, map, 0));
        let len = old.blocks().len();
        let mut idx: usize = 0;
        while idx < len
            invariant
                len == old.blocks.len(),
                m == old@,
                map == conversion_map@,
                default@ == "minecraft:air"@,
                idx <= len,
                kinds(palette@) == initial_palette(m, map, idx as int),
                palette.len() <= 1 + idx,
                palette.len() >= 1,
                forall|j: int| 0 <= j < palette.len() ==> (#[trigger] palette@[j]).properties is None,
                old.add matches Some(a) ==> old.blocks.len() > 0 ==> (old.blocks.len() - 1) / 2
                    < a@.len(),
            decreases len - idx,
        {
            if let Some(added) = old.add() {
                assert(idx / 2 < added@.len());
                let block = old.blocks()[idx];
                let a = added[idx / 2];
                let sh: u32 = if idx % 2 == 0 { 0 } else { 4 };
                let part = (a as i32) >> sh;
                assert(-128 <= part <= 127) by (bit_vector)
                    requires part == (a as i32) >> sh, sh == 0 || sh == 4;
                assert(part == (if idx % 2 == 0 { a as int } else { (a >> 4u8) as int }))
                    by (bit_vector)
                    requires part == (a as i32) >> sh, (sh == 0) == (idx % 2 == 0), sh == 0 || sh == 4;
                assert((part << 8u32) == part * 256) by (bit_vector)
                    requires -128 <= part <= 127;
                let id = (block as i32) + (part << 8);
                let key = chunk147::Block::new(id, None);
                assert(key == chunk147::Block { id: m.block_at(idx as int).id, data: None });
                let new_id = match conversion_map.get(&key) {
                    Some(n) => n,
                    None => &default,
                };
                let new_block = Block::new(new_id.clone(), None);
                assert(new_block@ == plain(converted_name(map, key)));
                if !palette_has(&palette, &new_block) {
                    palette.push(new_block);
                    assert(kinds(palette@) =~= initial_palette(m, map, idx + 1));
                } else {
                    assert(kinds(palette@) =~= initial_palette(m, map, idx + 1));
                }
            }
            idx = idx + 1;
            assert(kinds(palette@) == initial_palette(m, map, idx as int));
        }
        let ghost pal0 = kinds(palette@);
        let mut block_states = BlockStates::new(palette);
        assert(block_states@ =~= initial_states(pal0));
        let ghost init = block_states@;
        let mut pos: i32 = 0;
        while pos < 4096
            invariant
                0 <= pos <= 4096,
                m == old@,
                map == conversion_map@,
                default@ == "minecraft:air"@,
                init == initial_states(initial_palette(m, map, m.blocks.len() as int)),
                block_states@ == converted_states(init, m, map, pos as int),
                block_states.palette.len() <= 1 + old.blocks.len() + pos,
                old.blocks.len() < isize::MAX - 4097,
                forall|i: int| 0 <= i < 4096 ==> #[trigger] old@.holds(i),
            decreases 4096 - pos,
        {
            let x = pos % 16;
            let z = (pos / 16) % 16;
            let y = pos / 256;
            assert(y * 256 + z * 16 + x == pos);
            assert(0 <= x < 16 && 0 <= y < 16 && 0 <= z < 16);
            assert(old@.holds(pos as int));
            let block = old.block(x, y, z);
            let converted = match conversion_map.get(&block) {
                Some(n) => n,
                None => &default,
            };
            let new_block = Block::new(converted.clone(), None);
            let ghost before = block_states@;
            block_states.set_block(&new_block, x, y, z);
            proof {
                let w = choose|w: int|
                    valid_write(before, new_block@, w) && block_states@ == before.with_block(
                        new_block@,
                        pos as int,
                        w,
                    );
                lemma_valid_write_plain(before, new_block@, w);
                assert(block_states@.palette.len() <= before.palette.len() + 1);
                assert(block_states@.palette.len() == block_states.palette.len());
            }
            pos = pos + 1;
        }
        Self { y: old.y(), block_states: Some(block_states), biomes: None }
    }
}

/// The biomes of a 1.20.1 section: a palette of biome names and packed indices into it.
#[derive(Debug)]
pub struct Biomes {
    pub palette: Option<Vec<String>>,
    pub data: Option<Vec<i64>>,
}

/// `new` is what `Section::convert_old` makes of `old` with the table `map`.
pub open spec fn converts_to(new: Section, old: chunk147::Section, map: Map<chunk147::Block, String>) -> bool {
    &&& new.y == old.y
    &&& new.biomes is None
    &&& new.block_states matches Some(bs) && bs@ == converted_section(old@, map)
}

/// What `Section::convert_old` demands of an old section.
pub open spec fn convertible(old: chunk147::Section) -> bool {
    &&& forall|i: int| 0 <= i < 4096 ==> #[trigger] old@.holds(i)
    &&& old.add matches Some(a) ==> old.blocks.len() > 0 ==> (old.blocks.len() - 1) / 2 < a@.len()
    &&& old.blocks.len() < isize::MAX - 4097
}

/// A 1.20.1 chunk. Every field is optional, so that a chunk made by conversion carries only
/// what the conversion knows; tags that the library does not model are kept in `other`.
#[derive(Debug)]
pub struct Chunk {
    pub data_version: Option<i32>,
    pub x_pos: Option<i32>,
    pub y_pos: Option<i32>,
    pub z_pos: Option<i32>,
    pub status: Option<String>,
    pub last_update: Option<i64>,
    pub sections: Option<Vec<Section>>,
    pub block_entities: Option<Vec<BlockEntity>>,
    pub inhabited_time: Option<i64>,
    pub other: HashMap<String, Value>,
}

impl Default for Chunk {
    fn default() -> (r: Self)
        ensures
            r.data_version is None,
            r.x_pos is None,
            r.y_pos is None,
            r.z_pos is None,
            r.status is None,
            r.last_update is None,
            r.sections is None,
            r.block_entities is None,
            r.inhabited_time is None,
            r.other@ == Map::<String, Value>::empty(),
    {
        Chunk {
            data_version: None,
            x_pos: None,
            y_pos: None,
            z_pos: None,
            status: None,
            last_update: None,
            sections: None,
            block_entities: None,
            inhabited_time: None,
            other: HashMap::new(),
        }
    }
}

impl Chunk {
    pub fn block_entities(&self) -> (r: Option<&Vec<BlockEntity>>)
        ensures
            r is Some == self.block_entities is Some,
            r matches Some(v) ==> *v == self.block_entities->0,
    {
        self.block_entities.as_ref()
    }

    pub fn sections(&self) -> (r: Option<&Vec<Section>>)
        ensures
            r is Some == self.sections is Some,
            r matches Some(v) ==> *v == self.sections->0,
    {
        self.sections.as_ref()
    }

    pub fn mut_sections(&mut self) -> (r: Option<&mut Vec<Section>>)
        ensures
            r is Some == old(self).sections is Some,
            r matches Some(v) ==> *v == old(self).sections->0,
            final(self).sections is Some == old(self).sections is Some,
            r matches Some(v) ==> final(self).sections->0 == *final(v),
            final(self).x_pos == old(self).x_pos,
            final(self).z_pos == old(self).z_pos,
            final(self).last_update == old(self).last_update,
    {
        self.sections.as_mut()
    }

    /// Converts a 1.4.7 chunk: its sections, each with `Section::convert_old`, its position and
    /// the time of its last update; every other field is left empty.
    pub fn convert_old(old: &chunk147::Chunk, conversion_map: &ConversionMap<String>) -> (r: Self)
        requires
            forall|i: int| 0 <= i < old.level.sections.len() ==> convertible(
                #[trigger] old.level.sections@[i],
            ),
        ensures
            r.last_update == Some(old.level.last_update),
            r.x_pos == Some(old.level.x_pos),
            r.z_pos == Some(old.level.z_pos),
            r.data_version is None,
            r.y_pos is None,
            r.status is None,
            r.block_entities is None,
            r.inhabited_time is None,
            r.other@ == Map::<String, Value>::empty(),
            r.sections matches Some(v) && v.len() == old.level.sections.len() && forall|i: int|
                0 <= i < v.len() ==> converts_to(
                    #[trigger] v@[i],
                    old.level.sections@[i],
                    conversion_map@,
                ),
    {
        let old_sections = old.level().sections();
        let mut sections: Vec<Section> = Vec::new();
        let mut i: usize = 0;
        while i < old_sections.len()
            invariant
                *old_sections == old.level.sections,
                i <= old_sections.len(),
                sections.len() == i,
                forall|j: int| 0 <= j < old.level.sections.len() ==> convertible(
                    #[trigger] old.level.sections@[j],
                ),
                forall|j: int|
                    0 <= j < i ==> converts_to(
                        #[trigger] sections@[j],
                        old.level.sections@[j],
                        conversion_map@,
                    ),
            decreases old_sections.len() - i,
        {
            let sec = &old_sections[i];
            assert(convertible(old.level.sections@[i as int]));
            sections.push(Section::convert_old(sec, conversion_map));
            i = i + 1;
        }
        let mut r = Chunk::default();
        r.last_update = Some(old.level().last_update());
        r.x_pos = Some(old.level().x_pos());
        r.z_pos = Some(old.level().z_pos());
        r.sections = Some(sections);
        r
    }
}

/// A block entity of the 1.20.1 format; tags not modelled here are kept in `other`.
#[derive(Debug)]
pub struct BlockEntity {
    pub id: String,
    pub keep_packed: Option<i8>,
    pub x: i32,
    pub y: i32,
    pub z: i32,
    pub custom_name: Option<String>,
    pub other: HashMap<String, Value>,
}

impl BlockEntity {
    pub fn id(&self) -> (r: &String)
        ensures
            *r == self.id,
    {
        &self.id
    }
}

/// The text of one side of a 1.20.1 sign.
#[derive(Debug)]
pub struct SignText {
    pub has_glowing_text: i8,
    pub color: String,
    pub messages: Vec<String>,
}

} // verus!
