//! Tables that map blocks of the 1.4.7 format to what they become.

use vstd::prelude::*;
use std::collections::HashMap;
use crate::chunk147::Block;

verus! {

broadcast use vstd::std_specs::hash::group_hash_axioms;

/// The key under which a block is filed: its id as 32 unsigned bits, times 512, plus 0 for no
/// data value or 256 plus the data value's unsigned byte. Distinct blocks get distinct keys.
pub open spec fn block_key(b: Block) -> u64 {
    let data_part: int = match b.data {
        Some(d) => 256 + (d as u8) as int,
        None => 0,
    };
    ((b.id as u32) as int * 512 + data_part) as u64
}

proof fn lemma_block_key_injective(a: Block, b: Block)
    requires
        block_key(a) == block_key(b),
    ensures
        a == b,
{
    let da: int = match a.data {
        Some(d) => 256 + (d as u8) as int,
        None => 0,
    };
    let db: int = match b.data {
        Some(d) => 256 + (d as u8) as int,
        None => 0,
    };
    let ia = (a.id as u32) as int;
    let ib = (b.id as u32) as int;
    assert(0 <= da < 512 && 0 <= db < 512);
    assert(ia * 512 + da == ib * 512 + db);
    assert(ia == ib && da == db) by (nonlinear_arith)
        requires
            ia * 512 + da == ib * 512 + db,
            0 <= da < 512,
            0 <= db < 512,
    ;
    let (x, y) = (a.id, b.id);
    assert(x == y) by (bit_vector)
        requires (x as u32) == (y as u32);
    if let (Some(x), Some(y)) = (a.data, b.data) {
        assert(x == y) by (bit_vector)
            requires (x as u8) == (y as u8);
    }
}

fn block_key_exec(b: &Block) -> (r: u64)
    ensures
        r == block_key(*b),
{
    let data_part: u64 = match b.data {
        Some(d) => 256 + (d as u8) as u64,
        None => 0,
    };
    (b.id as u32) as u64 * 512 + data_part
}

/// A table from blocks of the 1.4.7 format to values (a block of the same format, or the
/// name of a block of the 1.20.1 format).
pub struct ConversionMap<V> {
    map: HashMap<u64, V>,
}

impl<V> View for ConversionMap<V> {
    type V = Map<Block, V>;

    closed spec fn view(&self) -> Map<Block, V> {
        Map::new(|b: Block| self.map@.contains_key(block_key(b)), |b: Block| self.map@[block_key(b)])
    }
}

impl<V> ConversionMap<V> {
    /// An empty table.
    pub fn new() -> (r: Self)
        ensures
            r@ == Map::<Block, V>::empty(),
    {
        let r = ConversionMap { map: HashMap::new() };
        assert(r@ =~= Map::<Block, V>::empty());
        r
    }

    /// Maps `from` to `to`, in place of what `from` was mapped to before.
    pub fn insert(&mut self, from: Block, to: V)
        ensures
            final(self)@ == old(self)@.insert(from, to),
    {
        let key = block_key_exec(&from);
        self.map.insert(key, to);
        assert forall|b: Block| #[trigger] self@.contains_key(b) == old(self)@.insert(
            from,
            to,
        ).contains_key(b) by {
            if block_key(b) == key {
                lemma_block_key_injective(b, from);
            }
        }
        assert forall|b: Block| #[trigger] self@.contains_key(b) implies self@[b] == old(
            self,
        )@.insert(from, to)[b] by {
            if block_key(b) == key {
                lemma_block_key_injective(b, from);
            }
        }
        assert(self@ =~= old(self)@.insert(from, to));
    }

    /// What `block` is mapped to, if anything.
    pub fn get(&self, block: &Block) -> (r: Option<&V>)
        ensures
            r is Some == self@.contains_key(*block),
            r matches Some(v) ==> *v == self@[*block],
    {
        let key = block_key_exec(block);
        self.map.get(&key)
    }
}

/// `a` sorts after `b` in a conversion list: blocks with a data value come first; then by id;
/// two blocks with data values and the same id by data value.
pub open spec fn sorts_after(a: Block, b: Block) -> bool {
    if a.data is Some && b.data is None {
        false
    } else if b.data is Some && a.data is None {
        true
    } else if a.id == b.id && a.data is Some && b.data is Some {
        a.data->0 > b.data->0
    } else {
        a.id > b.id
    }
}

/// A number that orders blocks as `sorts_after` does.
spec fn sort_key(a: Block) -> int {
    (if a.data is Some { 0int } else { 1int }) * 0x100_0000_0000 + (a.id as int + 0x8000_0000) * 0x100
        + (match a.data {
        Some(d) => d as int + 128,
        None => 0,
    })
}

proof fn lemma_sort_key(a: Block, b: Block)
    ensures
        sorts_after(a, b) <==> sort_key(a) > sort_key(b),
{
}

/// Where `insert_sorted` puts `x`: after every entry from the end that does not sort after it.
pub open spec fn insert_pos(s: Seq<(Block, Block)>, x: (Block, Block)) -> int
    decreases s.len(),
{
    if s.len() == 0 {
        0
    } else if sorts_after(s.last().0, x.0) {
        insert_pos(s.drop_last(), x)
    } else {
        s.len() as int
    }
}

/// `s` with `x` inserted after the entries that do not sort after it.
pub open spec fn insert_sorted(s: Seq<(Block, Block)>, x: (Block, Block)) -> Seq<(Block, Block)> {
    let p = insert_pos(s, x);
    s.take(p).push(x) + s.skip(p)
}

/// The conversions sorted by their old block with `sorts_after`, each conversion placed after
/// those that came before it in `s` and do not sort after it (a stable sort).
pub open spec fn sorted_conversions(s: Seq<(Block, Block)>) -> Seq<(Block, Block)>
    decreases s.len(),
{
    if s.len() == 0 {
        s
    } else {
        insert_sorted(sorted_conversions(s.drop_last()), s.last())
    }
}

/// No entry sorts after a later one.
pub open spec fn is_sorted(s: Seq<(Block, Block)>) -> bool {
    forall|i: int, j: int| 0 <= i < j < s.len() ==> !sorts_after(#[trigger] s[i].0, #[trigger] s[j].0)
}

proof fn lemma_insert_pos(s: Seq<(Block, Block)>, x: (Block, Block))
    ensures
        0 <= insert_pos(s, x) <= s.len(),
        forall|k: int| insert_pos(s, x) <= k < s.len() ==> sorts_after(#[trigger] s[k].0, x.0),
        insert_pos(s, x) > 0 ==> !sorts_after(s[insert_pos(s, x) - 1].0, x.0),
    decreases s.len(),
{
    if s.len() > 0 && sorts_after(s.last().0, x.0) {
        lemma_insert_pos(s.drop_last(), x);
        assert forall|k: int| insert_pos(s, x) <= k < s.len() implies sorts_after(
            #[trigger] s[k].0,
            x.0,
        ) by {
            if k < s.len() - 1 {
                assert(s[k] == s.drop_last()[k]);
            }
        }
    }
}

/// Law: the sorted conversions are in order, and they are the same conversions.
pub proof fn lemma_sorted_conversions(s: Seq<(Block, Block)>)
    ensures
        is_sorted(sorted_conversions(s)),
        sorted_conversions(s).to_multiset() == s.to_multiset(),
    decreases s.len(),
{
    broadcast use vstd::seq_lib::group_to_multiset_ensures;

    if s.len() > 0 {
        let prev = sorted_conversions(s.drop_last());
        lemma_sorted_conversions(s.drop_last());
        let x = s.last();
        let p = insert_pos(prev, x);
        lemma_insert_pos(prev, x);
        let r = insert_sorted(prev, x);
        assert forall|i: int, j: int| 0 <= i < j < r.len() implies !sorts_after(
            #[trigger] r[i].0,
            #[trigger] r[j].0,
        ) by {
            lemma_sort_key(r[i].0, r[j].0);
            if i < p && j < p {
                assert(r[i] == prev[i] && r[j] == prev[j]);
            } else if i < p && j == p {
                assert(r[i] == prev[i]);
                lemma_sort_key(prev[i].0, prev[p - 1].0);
                lemma_sort_key(prev[p - 1].0, x.0);
                if i < p - 1 {
                    assert(!sorts_after(prev[i].0, prev[p - 1].0));
                }
            } else if i < p && j > p {
                assert(r[i] == prev[i] && r[j] == prev[j - 1]);
            } else if i == p {
                assert(r[j] == prev[j - 1]);
                lemma_sort_key(prev[j - 1].0, x.0);
            } else {
                assert(r[i] == prev[i - 1] && r[j] == prev[j - 1]);
            }
        }
        assert(s == s.drop_last().push(x));
        assert(prev.take(p).push(x) + prev.skip(p) == prev.insert(p, x));
        prev.insert_ensures(p, x);
        assert(prev.insert(p, x).to_multiset() =~= prev.to_multiset().insert(x)) by {
            lemma_insert_multiset(prev, p, x);
        }
    }
}

proof fn lemma_insert_multiset(s: Seq<(Block, Block)>, p: int, x: (Block, Block))
    requires
        0 <= p <= s.len(),
    ensures
        s.insert(p, x).to_multiset() == s.to_multiset().insert(x),
{
    broadcast use vstd::seq_lib::group_to_multiset_ensures;

    let t = s.insert(p, x);
    s.insert_ensures(p, x);
    assert(t.remove(p) =~= s);
    assert(t[p] == x);
    assert(t.remove(p).to_multiset() == t.to_multiset().remove(x));
    assert(t.to_multiset().count(x) > 0) by {
        assert(t.contains(x));
    }
    assert(t.to_multiset() =~= t.to_multiset().remove(x).insert(x));
}

/// Sorts conversions by their old block (see `sorted_conversions`): blocks with a data value
/// first, then by id, then by data value; conversions of equal blocks keep their order.
pub fn sort_conversions(v: &mut Vec<(Block, Block)>)
    ensures
        final(v)@ == sorted_conversions(old(v)@),
{
    let ghost input = v@;
    let n = v.len();
    let mut i: usize = 0;
    while i < n
        invariant
            n == v.len(),
            input.len() == n,
            i <= n,
            v@.take(i as int) == sorted_conversions(input.take(i as int)),
            v@.skip(i as int) == input.skip(i as int),
        decreases n - i,
    {
        let x = v[i];
        let ghost prefix = v@.take(i as int);
        assert(x == input[i as int]) by {
            assert(v@.skip(i as int)[0] == input.skip(i as int)[0]);
        }
        let mut j = i;
        assert(prefix.take(i as int) =~= prefix);
        assert forall|k: int| i < k < n implies v@[k] == input[k] by {
            assert(v@[k] == v@.skip(i as int)[k - i]);
            assert(input[k] == input.skip(i as int)[k - i]);
        }
        assert(v@.skip(i + 1) =~= input.skip(i + 1));
        while j > 0 && after(&v[j - 1].0, &x.0)
            invariant
                n == v.len(),
                input.len() == n,
                j <= i < n,
                prefix.len() == i,
                insert_pos(prefix, x) == insert_pos(prefix.take(j as int), x),
                forall|k: int| 0 <= k < j ==> v@[k] == prefix[k],
                forall|k: int| j < k <= i ==> v@[k] == prefix[k - 1],
                forall|k: int| i < k < n ==> v@[k] == input[k],
                v@.skip(i + 1) == input.skip(i + 1),
            decreases j,
        {
            let y = v[j - 1];
            proof {
                assert(prefix.take(j as int).last() == prefix[j - 1]);
                assert(prefix.take(j as int).drop_last() =~= prefix.take(j - 1));
            }
            v.set(j, y);
            j = j - 1;
            proof {
                assert(v@.skip(i + 1) =~= input.skip(i + 1));
            }
        }
        proof {
            if j > 0 {
                assert(prefix.take(j as int).last() == prefix[j - 1]);
            }
            assert(insert_pos(prefix, x) == j);
        }
        v.set(j, x);
        proof {
            assert(input.take(i + 1).drop_last() =~= input.take(i as int));
            assert(input.take(i + 1).last() == x);
            assert(v@.take(i + 1) =~= insert_sorted(prefix, x));
            assert(v@.skip(i + 1) =~= input.skip(i + 1));
        }
        i = i + 1;
    }
    assert(v@.take(n as int) =~= v@);
    assert(input.take(n as int) =~= input);
}

/// `sorts_after` on two blocks.
fn after(a: &Block, b: &Block) -> (r: bool)
    ensures
        r == sorts_after(*a, *b),
{
    if a.data.is_some() && b.data.is_none() {
        false
    } else if b.data.is_some() && a.data.is_none() {
        true
    } else if a.id == b.id && a.data.is_some() && b.data.is_some() {
        a.data.unwrap() > b.data.unwrap()
    } else {
        a.id > b.id
    }
}

} // verus!
