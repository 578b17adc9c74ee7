use vstd::prelude::*;

use crate::decode_utf8::char_of;
use crate::emit::tables_text;
use crate::tables::{
    block, distinct_blocks, find_or_add_block, get_int_type, max_of, max_value, narrowest,
    lemma_table_block_push, table_block, table_walk, walk_in_bounds, PropertyTables,
};

verus! {

/// Entries in a block: child slots of an interior node, values of a leaf.
pub const BLOCK_SIZE: usize = 64;

/// The slots that route a non-ASCII codepoint through the trie: its UTF-8
/// bytes modulo the block size. The lead byte's slot tells the length.
pub open spec fn key(cp: u32) -> Seq<usize> {
    if cp < 0x800 {
        seq![(cp / 64) as usize, (cp % 64) as usize]
    } else if cp < 0x10000 {
        seq![(32 + cp / 4096) as usize, ((cp / 64) % 64) as usize, (cp % 64) as usize]
    } else {
        seq![
            (48 + cp / 262144) as usize,
            ((cp / 4096) % 64) as usize,
            ((cp / 64) % 64) as usize,
            (cp % 64) as usize,
        ]
    }
}

/// The depth of the leaf under a lead slot: one less than the length of
/// the sequences that its lead byte starts.
pub open spec fn leaf_depth(lead_slot: usize) -> int {
    if lead_slot < 32 {
        1
    } else if lead_slot < 48 {
        2
    } else {
        3
    }
}

/// A node of the arena: interior, with a child per slot (0 where there is
/// none, the root being no one's child), or a leaf, with a value per slot
/// and no children.
struct TrieNode {
    children: Vec<usize>,
    values: Vec<u64>,
}

/// A codepoint to value map, stored as a trie keyed by UTF-8 bytes. Nodes
/// live in an arena and refer to each other by index. Node 0 is the root:
/// it holds the values of ASCII directly and routes on the lead byte.
pub struct Trie {
    nodes: Vec<TrieNode>,
    /// The slots that lead from the root to each node.
    paths: Ghost<Seq<Seq<usize>>>,
}

impl Trie {
    pub closed spec fn node_count(&self) -> int {
        self.nodes@.len() as int
    }

    pub closed spec fn is_leaf(&self, k: int) -> bool {
        self.nodes@[k].children@.len() == 0
    }

    pub closed spec fn child(&self, k: int, j: int) -> usize {
        self.nodes@[k].children@[j]
    }

    pub closed spec fn leaf_value(&self, k: int, j: int) -> u64 {
        self.nodes@[k].values@[j]
    }

    pub closed spec fn ascii_value(&self, b: int) -> u64 {
        self.nodes@[0].values@[b]
    }

    /// Node `k` is shaped as its depth asks: interior above the depth of
    /// the leaves under its lead slot, a leaf at it.
    pub closed spec fn shape_ok(&self, k: int) -> bool {
        let p = self.paths@[k];
        &&& 1 <= p.len() <= leaf_depth(p[0])
        &&& p.len() == leaf_depth(p[0]) ==> self.nodes@[k].children@.len() == 0
            && self.nodes@[k].values@.len() == 64
        &&& p.len() < leaf_depth(p[0]) ==> self.nodes@[k].children@.len() == 64
            && self.nodes@[k].values@.len() == 0
    }

    /// Slot `j` of node `k` is empty, or points to a later node one slot
    /// further down the same path.
    pub closed spec fn link_ok(&self, k: int, j: int) -> bool {
        self.nodes@[k].children@[j] != 0 ==> {
            let c = self.nodes@[k].children@[j] as int;
            &&& k < c < self.nodes@.len()
            &&& self.paths@[c] == self.paths@[k].push(j as usize)
        }
    }

    pub closed spec fn shape_wf(&self) -> bool {
        let n = self.nodes@.len();
        &&& n >= 1
        &&& self.paths@.len() == n
        &&& self.paths@[0] == Seq::<usize>::empty()
        &&& self.nodes@[0].children@.len() == 64
        &&& self.nodes@[0].values@.len() == 128
        &&& forall|k: int| 1 <= k < n ==> #[trigger] self.shape_ok(k)
        &&& forall|k: int, j: int|
            0 <= k < n && 0 <= j < self.nodes@[k].children@.len() ==> #[trigger] self.link_ok(k, j)
    }

    /// The slots that lead from the root to node `k`.
    pub closed spec fn path(&self, k: int) -> Seq<usize> {
        self.paths@[k]
    }

    /// Node `k`, the root aside, is the child of an earlier node.
    pub closed spec fn linked(&self, k: int) -> bool {
        &&& self.paths@[k].last() < 64
        &&& exists|q: int| 0 <= q < k && #[trigger] self.nodes@[q].children@.len() == 64
            && self.nodes@[q].children@[self.paths@[k].last() as int] == k
    }

    /// A leaf holds a value other than 0.
    pub closed spec fn leaf_nonzero(&self, k: int) -> bool {
        self.nodes@[k].children@.len() == 0 ==> exists|j: int|
            0 <= j < 64 && #[trigger] self.nodes@[k].values@[j] != 0
    }

    /// Each value other than 0 in a leaf stands at the key of a character.
    pub closed spec fn leaf_keys(&self, k: int) -> bool {
        self.nodes@[k].children@.len() == 0 ==> forall|j: int|
            0 <= j < 64 && #[trigger] self.nodes@[k].values@[j] != 0 ==> char_key(
                self.paths@[k].push(j as usize),
            )
    }

    /// Well-formed: shaped by depth and linked, each leaf holding a value
    /// other than 0, and values only at the keys of characters.
    pub closed spec fn wf(&self) -> bool {
        &&& self.shape_wf()
        &&& forall|k: int| 1 <= k < self.nodes@.len() ==> #[trigger] self.linked(k)
        &&& forall|k: int| 1 <= k < self.nodes@.len() ==> #[trigger] self.leaf_nonzero(k)
        &&& forall|k: int| 1 <= k < self.nodes@.len() ==> #[trigger] self.leaf_keys(k)
    }

    /// The shape of a well-formed trie: the root routes on 64 lead slots;
    /// every other node lies on a path of one slot at least, is a leaf
    /// exactly at the depth that its lead slot gives, and is linked from an
    /// earlier node by the last slot of its path; a leaf holds a value other
    /// than 0, and only at the keys of characters.
    pub proof fn lemma_shape(&self, k: int)
        requires
            self.wf(),
            0 <= k < self.node_count(),
        ensures
            k == 0 ==> !self.is_leaf(0) && self.path(0) == Seq::<usize>::empty(),
            k > 0 ==> {
                let p = self.path(k);
                &&& 1 <= p.len() <= leaf_depth(p[0])
                &&& (self.is_leaf(k) <==> p.len() == leaf_depth(p[0]))
                &&& exists|q: int| 0 <= q < k && !#[trigger] self.is_leaf(q) && self.child(q, p.last() as int) == k
                &&& self.is_leaf(k) ==> exists|j: int| 0 <= j < 64 && #[trigger] self.leaf_value(k, j) != 0
                &&& self.is_leaf(k) ==> forall|j: int|
                    0 <= j < 64 && #[trigger] self.leaf_value(k, j) != 0 ==> char_key(p.push(j as usize))
            },
    {
        if k > 0 {
            assert(self.shape_ok(k));
            assert(self.linked(k));
            assert(self.leaf_nonzero(k));
            assert(self.leaf_keys(k));
            let q = choose|q: int| 0 <= q < k && #[trigger] self.nodes@[q].children@.len() == 64
                && self.nodes@[q].children@[self.paths@[k].last() as int] == k;
            assert(!self.is_leaf(q) && self.child(q, self.path(k).last() as int) == k);
            if self.is_leaf(k) {
                let j = choose|j: int| 0 <= j < 64 && #[trigger] self.nodes@[k].values@[j] != 0;
                assert(self.leaf_value(k, j) != 0);
                assert forall|j: int|
                    0 <= j < 64 && #[trigger] self.leaf_value(k, j) != 0 implies char_key(self.path(k).push(j as usize)) by {
                    assert(self.nodes@[k].values@[j] != 0);
                }
            }
        }
    }

    /// A trie whose nodes keep their children and the number of their
    /// values is still well-formed.
    proof fn lemma_wf_same_shape(before: &Trie, after: &Trie)
        requires
            before.shape_wf(),
            after.paths@ == before.paths@,
            after.nodes@.len() == before.nodes@.len(),
            forall|k: int|
                0 <= k < before.nodes@.len() ==> (#[trigger] after.nodes@[k]).children@
                    == before.nodes@[k].children@ && after.nodes@[k].values@.len()
                    == before.nodes@[k].values@.len(),
        ensures
            after.shape_wf(),
    {
        assert forall|k: int| 1 <= k < after.nodes@.len() implies #[trigger] after.shape_ok(k) by {
            assert(before.shape_ok(k));
            assert(after.nodes@[k].children@ == before.nodes@[k].children@);
        }
        assert forall|k: int, j: int|
            0 <= k < after.nodes@.len() && 0 <= j < after.nodes@[k].children@.len() implies #[trigger] after.link_ok(k, j) by {
            assert(after.nodes@[k].children@ == before.nodes@[k].children@);
            assert(before.link_ok(k, j));
        }
        assert(after.nodes@[0].children@ == before.nodes@[0].children@);
    }

    /// The value found by following `key` from node `k`, reached after
    /// `d` of its slots.
    pub open spec fn walk(&self, k: int, key: Seq<usize>, d: int) -> u64
        decreases key.len() - d,
    {
        if d >= key.len() - 1 {
            if d == key.len() - 1 && self.is_leaf(k) {
                self.leaf_value(k, key[d] as int)
            } else {
                0
            }
        } else if self.is_leaf(k) || self.child(k, key[d] as int) == 0 {
            0
        } else {
            self.walk(self.child(k, key[d] as int) as int, key, d + 1)
        }
    }

    /// The value stored for `c`; 0 where none was.
    pub open spec fn value_of(&self, c: char) -> u64 {
        let cp = c as u32;
        if cp < 0x80 {
            self.ascii_value(cp as int)
        } else {
            self.walk(0, key(cp), 0)
        }
    }
}

impl View for Trie {
    type V = Map<char, u64>;

    open spec fn view(&self) -> Map<char, u64> {
        Map::new(|c: char| true, |c: char| self.value_of(c))
    }
}

/// Every slot of a key is below the block size, its lead slot routes to a
/// leaf one level above its last slot, and distinct codepoints have
/// distinct keys.
pub proof fn lemma_key(cp: u32)
    requires
        0x80 <= cp <= 0x10FFFF,
    ensures
        forall|i: int| 0 <= i < key(cp).len() ==> key(cp)[i] < 64,
        2 <= key(cp).len() <= 4,
        key(cp)[0] <= 52,
        key(cp).len() == leaf_depth(key(cp)[0]) + 1,
{
}

proof fn lemma_key_injective(a: u32, b: u32)
    requires
        0x80 <= a <= 0x10FFFF,
        0x80 <= b <= 0x10FFFF,
        key(a) == key(b),
    ensures
        a == b,
{
    let ka = key(a);
    let kb = key(b);
    assert(ka[0] == kb[0]);
    assert(ka.len() == kb.len());
    if a < 0x800 {
        assert(ka[1] == kb[1]);
    } else if a < 0x10000 {
        assert(ka[1] == kb[1]);
        assert(ka[2] == kb[2]);
    } else {
        assert(ka[1] == kb[1]);
        assert(ka[2] == kb[2]);
        assert(ka[3] == kb[3]);
    }
}

/// The slots of a key but its last: they name the leaf block that holds
/// the values of 64 consecutive codepoints.
pub open spec fn leaf_prefix(p: Seq<usize>) -> bool {
    &&& p.len() >= 1
    &&& slots_in_block(p)
    &&& p.len() == leaf_depth(p[0])
}

/// The key of a character outside ASCII.
pub open spec fn char_key(q: Seq<usize>) -> bool {
    exists|cp: u32| 0x80 <= cp <= 0x10FFFF && vstd::utf8::is_scalar(cp) && #[trigger] key(cp) == q
}

/// Block `b` of `values` is the one that some leaf prefix leads to.
pub open spec fn reached_block(t: &PropertyTables, b: int) -> bool {
    exists|p: Seq<usize>| leaf_prefix(p) && #[trigger] table_block(t.index@, 3, p, 0) == b
}

/// The first slots of a key, one at least.
pub open spec fn key_prefix(p: Seq<usize>) -> bool {
    &&& p.len() >= 1
    &&& slots_in_block(p)
    &&& p.len() <= leaf_depth(p[0])
}

/// Slots that can stand in a key: all below the block size.
pub open spec fn slots_in_block(key: Seq<usize>) -> bool {
    forall|i: int| 0 <= i < key.len() ==> key[i] < 64
}

fn zeros_u64(n: usize) -> (r: Vec<u64>)
    ensures
        r@ == Seq::new(n as nat, |i: int| 0u64),
{
    let mut r: Vec<u64> = Vec::new();
    let mut i: usize = 0;
    while i < n
        invariant
            i <= n,
            r@ == Seq::new(i as nat, |x: int| 0u64),
        decreases n - i,
    {
        r.push(0);
        i = i + 1;
        assert(r@ =~= Seq::new(i as nat, |x: int| 0u64));
    }
    r
}

fn zeros_usize(n: usize) -> (r: Vec<usize>)
    ensures
        r@ == Seq::new(n as nat, |i: int| 0usize),
{
    let mut r: Vec<usize> = Vec::new();
    let mut i: usize = 0;
    while i < n
        invariant
            i <= n,
            r@ == Seq::new(i as nat, |x: int| 0usize),
        decreases n - i,
    {
        r.push(0);
        i = i + 1;
        assert(r@ =~= Seq::new(i as nat, |x: int| 0usize));
    }
    r
}

fn key_of(cp: u32) -> (r: Vec<usize>)
    requires
        0x80 <= cp <= 0x10FFFF,
    ensures
        r@ == key(cp),
{
    let mut r: Vec<usize> = Vec::new();
    if cp < 0x800 {
        r.push((cp / 64) as usize);
        r.push((cp % 64) as usize);
    } else if cp < 0x10000 {
        r.push((32 + cp / 4096) as usize);
        r.push(((cp / 64) % 64) as usize);
        r.push((cp % 64) as usize);
    } else {
        r.push((48 + cp / 262144) as usize);
        r.push(((cp / 4096) % 64) as usize);
        r.push(((cp / 64) % 64) as usize);
        r.push((cp % 64) as usize);
    }
    assert(r@ =~= key(cp));
    r
}

impl Trie {
    /// A walk that never reaches a changed entry sees the same values: here
    /// only a child slot of node `k`, empty before, now points to a new
    /// empty node.
    proof fn lemma_walk_after_new_node(old: &Trie, new: &Trie, k: int, j: int, m: int, key: Seq<usize>, d: int)
        requires
            old.shape_wf(),
            old.nodes@.len() <= usize::MAX,
            new.nodes@.len() == old.nodes@.len() + 1,
            0 <= k < old.nodes@.len(),
            0 <= j < 64,
            old.nodes@[k].children@.len() == 64,
            old.nodes@[k].children@[j] == 0,
            new.nodes@[k].children@ == old.nodes@[k].children@.update(j, old.nodes@.len() as usize),
            new.nodes@[k].values@ == old.nodes@[k].values@,
            forall|i: int| 0 <= i < old.nodes@.len() && i != k ==> new.nodes@[i] == old.nodes@[i],
            ({
                let e = new.nodes@[old.nodes@.len() as int];
                (e.children@.len() == 0 && e.values@ == Seq::new(64, |x: int| 0u64)) || (
                e.children@ == Seq::new(64, |x: int| 0usize))
            }),
            0 <= m < old.nodes@.len(),
            0 <= d,
            slots_in_block(key),
        ensures
            new.walk(m, key, d) == old.walk(m, key, d),
        decreases key.len() - d,
    {
        let n = old.nodes@.len() as int;
        if d >= key.len() - 1 {
        } else if old.is_leaf(m) || old.child(m, key[d] as int) == 0 {
            if m == k && key[d] == j {
                let e = new.nodes@[n];
                assert(new.child(m, key[d] as int) == n);
                let x = key[d + 1] as int;
                assert(0 <= x < 64);
                if e.children@.len() == 0 {
                    assert(new.leaf_value(n, x) == 0);
                } else {
                    assert(new.child(n, x) == 0);
                }
                assert(new.walk(n, key, d + 1) == 0);
            } else if !old.is_leaf(m) {
                assert(new.child(m, key[d] as int) == 0);
            }
        } else {
            let c = old.child(m, key[d] as int) as int;
            if m > 0 {
                assert(old.shape_ok(m));
            }
            assert(old.link_ok(m, key[d] as int));
            assert(new.child(m, key[d] as int) == c);
            Trie::lemma_walk_after_new_node(old, new, k, j, c, key, d + 1);
        }
    }

    /// Here only the value in slot `j` of leaf `k` changed: a walk whose key
    /// does not end in that slot of that leaf sees the same values.
    proof fn lemma_walk_after_set(old: &Trie, new: &Trie, k: int, j: int, m: int, key: Seq<usize>, d: int)
        requires
            old.shape_wf(),
            new.nodes@.len() == old.nodes@.len(),
            new.paths@ == old.paths@,
            0 <= k < old.nodes@.len(),
            new.nodes@[k].children@ == old.nodes@[k].children@,
            new.nodes@[k].values@.len() == old.nodes@[k].values@.len(),
            forall|x: int| 0 <= x < new.nodes@[k].values@.len() && x != j ==> new.nodes@[k].values@[x] == old.nodes@[k].values@[x],
            forall|i: int| 0 <= i < old.nodes@.len() && i != k ==> new.nodes@[i] == old.nodes@[i],
            0 <= m < old.nodes@.len(),
            0 <= d <= key.len(),
            slots_in_block(key),
            old.paths@[m] == key.take(d),
            !(key.len() == old.paths@[k].len() + 1 && key.take(key.len() - 1) == old.paths@[k]
                && key[key.len() - 1] == j),
        ensures
            new.walk(m, key, d) == old.walk(m, key, d),
        decreases key.len() - d,
    {
        if d >= key.len() - 1 {
            if d == key.len() - 1 && m == k && key[d] == j {
                assert(key.take(key.len() - 1) == old.paths@[k]);
                assert(false);
            } else if d == key.len() - 1 && m == k {
                assert(new.is_leaf(m) == old.is_leaf(m));
                if old.is_leaf(m) {
                    if m > 0 {
                        assert(old.shape_ok(m));
                    }
                    assert(new.leaf_value(m, key[d] as int) == old.leaf_value(m, key[d] as int));
                }
            }
        } else if old.is_leaf(m) || old.child(m, key[d] as int) == 0 {
        } else {
            let c = old.child(m, key[d] as int) as int;
            if m > 0 {
                assert(old.shape_ok(m));
            }
            assert(old.link_ok(m, key[d] as int));
            assert(key.take(d + 1) == key.take(d).push(key[d]));
            Trie::lemma_walk_after_set(old, new, k, j, c, key, d + 1);
        }
    }

    /// Node `trail[x]` is interior and links, by slot `key[x]`, to `trail[x + 1]`.
    spec fn trail_link(&self, trail: Seq<usize>, key: Seq<usize>, x: int) -> bool {
        &&& !self.is_leaf(trail[x] as int)
        &&& self.child(trail[x] as int, key[x] as int) == trail[x + 1]
        &&& trail[x + 1] != 0
    }

    spec fn trail_ok(&self, trail: Seq<usize>, key: Seq<usize>) -> bool {
        forall|x: int| 0 <= x < trail.len() - 1 ==> #[trigger] self.trail_link(trail, key, x)
    }

    /// A walk along child links that `trail` records reaches the same value
    /// from any node of the trail.
    proof fn lemma_walk_trail(&self, trail: Seq<usize>, key: Seq<usize>, d: int)
        requires
            0 <= d < trail.len(),
            trail.len() <= key.len(),
            self.trail_ok(trail, key),
        ensures
            self.walk(trail[d] as int, key, d) == self.walk(
                trail[trail.len() - 1] as int,
                key,
                trail.len() - 1,
            ),
        decreases trail.len() - d,
    {
        if d < trail.len() - 1 {
            assert(self.trail_link(trail, key, d));
            self.lemma_walk_trail(trail, key, d + 1);
        }
    }

    /// An empty trie: every character maps to 0.
    pub fn new() -> (t: Trie)
        ensures
            t.wf(),
            t@ == Map::new(|c: char| true, |c: char| 0u64),
    {
        let root = TrieNode { children: zeros_usize(BLOCK_SIZE), values: zeros_u64(0x80) };
        let mut nodes: Vec<TrieNode> = Vec::new();
        nodes.push(root);
        let ghost paths = seq![Seq::<usize>::empty()];
        let t = Trie { nodes, paths: Ghost(paths) };
        assert forall|c: char| t.value_of(c) == 0u64 by {
            let cp = c as u32;
            if cp >= 0x80 {
                vstd::utf8::char_is_scalar(c);
                lemma_key(cp);
                assert(t.child(0, key(cp)[0] as int) == 0);
            }
        }
        assert(t@ =~= Map::new(|c: char| true, |c: char| 0u64));
        t
    }

    /// Sets the value of `r`; a value of 0 is the default and changes nothing.
    pub fn insert(&mut self, r: char, value: u64)
        requires
            old(self).wf(),
        ensures
            final(self).wf(),
            final(self)@ == if value == 0 {
                old(self)@
            } else {
                old(self)@.insert(r, value)
            },
    {
        if value == 0 {
            return;
        }
        let cp = r as u32;
        proof {
            vstd::utf8::char_is_scalar(r);
        }
        if cp < 0x80 {
            let ghost before = *self;
            self.nodes[0].values.set(cp as usize, value);
            proof {
                assert(forall|k: int| 1 <= k < self.nodes@.len() ==> self.nodes@[k] == before.nodes@[k]);
                Trie::lemma_wf_same_shape(&before, self);
                assert forall|t: int| 1 <= t < self.nodes@.len() implies #[trigger] self.linked(t) by {
                    assert(before.linked(t));
                    let q = choose|q: int| 0 <= q < t && #[trigger] before.nodes@[q].children@.len() == 64
                        && before.nodes@[q].children@[before.paths@[t].last() as int] == t;
                    assert(self.nodes@[q].children@ == before.nodes@[q].children@);
                }
                assert forall|t: int| 1 <= t < self.nodes@.len() implies #[trigger] self.leaf_nonzero(t) by {
                    assert(before.leaf_nonzero(t));
                }
                assert forall|t: int| 1 <= t < self.nodes@.len() implies #[trigger] self.leaf_keys(t) by {
                    assert(before.leaf_keys(t));
                }
                assert forall|c: char| #[trigger] self.value_of(c) == (if c == r {
                    value
                } else {
                    before.value_of(c)
                }) by {
                    let x = c as u32;
                    vstd::utf8::char_is_scalar(c);
                    if x < 0x80 {
                        if c != r {
                            vstd::utf8::char_u32_cast(c, x);
                            vstd::utf8::char_u32_cast(r, cp);
                        }
                    } else {
                        lemma_key(x);
                        assert(key(x).take(0) =~= Seq::<usize>::empty());
                        Trie::lemma_walk_after_set(&before, self, 0, cp as int, 0, key(x), 0);
                    }
                }
                assert(self@ =~= before@.insert(r, value));
            }
            return;
        }
        proof {
            lemma_key(cp);
        }
        let slots = key_of(cp);
        let last = slots.len() - 1;
        let mut k: usize = 0;
        let mut i: usize = 0;
        let ghost mut trail: Seq<usize> = seq![0usize];
        let ghost mut fresh: int = -1;
        assert(slots@.take(0) =~= Seq::<usize>::empty());
        while i < last
            invariant
                self.shape_wf(),
                forall|t: int| 1 <= t < self.nodes@.len() ==> #[trigger] self.linked(t),
                forall|t: int| 1 <= t < self.nodes@.len() ==> #[trigger] self.leaf_keys(t),
                forall|t: int| 1 <= t < self.nodes@.len() && t != fresh ==> #[trigger] self.leaf_nonzero(t),
                fresh == -1 || fresh == k,
                0x80 <= cp <= 0x10FFFF,
                vstd::utf8::is_scalar(cp),
                self@ == old(self)@,
                slots@ == key(cp),
                slots_in_block(slots@),
                slots@.len() == leaf_depth(slots@[0]) + 1,
                last == slots@.len() - 1,
                i <= last,
                k < self.node_count(),
                self.paths@[k as int] == slots@.take(i as int),
                trail.len() == i + 1,
                trail[i as int] == k,
                trail[0] == 0,
                forall|x: int| 0 <= x < trail.len() ==> #[trigger] trail[x] < self.node_count(),
                self.trail_ok(trail, slots@),
                forall|x: int| 0 <= x < trail.len() ==> self.paths@[#[trigger] trail[x] as int] == slots@.take(x),
            decreases last - i,
        {
            let slot = slots[i];
            proof {
                if k > 0 {
                    assert(self.shape_ok(k as int));
                }
            }
            let mut c = self.nodes[k].children[slot];
            if c == 0 {
                let ghost before = *self;
                let node = if i + 1 == last {
                    TrieNode { children: Vec::new(), values: zeros_u64(BLOCK_SIZE) }
                } else {
                    TrieNode { children: zeros_usize(BLOCK_SIZE), values: Vec::new() }
                };
                c = self.nodes.len();
                self.nodes.push(node);
                self.paths = Ghost(self.paths@.push(slots@.take(i + 1)));
                self.nodes[k].children.set(slot, c);
                proof {
                    let n = before.nodes@.len() as int;
                    assert(slots@.take(i + 1) == slots@.take(i as int).push(slot));
                    assert(slots@.take(i + 1)[0] == slots@[0]);
                    assert(forall|t: int| 0 <= t < n && t != k ==> self.nodes@[t] == before.nodes@[t]);
                    assert(self.paths@[n] == slots@.take(i + 1));
                    assert(forall|t: int| 0 <= t < n ==> self.paths@[t] == before.paths@[t]);
                    assert forall|t: int| 1 <= t < self.nodes@.len() implies #[trigger] self.shape_ok(t) by {
                        if t < n {
                            assert(before.shape_ok(t));
                        }
                    }
                    assert forall|t: int, j: int|
                        0 <= t < self.nodes@.len() && 0 <= j < self.nodes@[t].children@.len() implies #[trigger] self.link_ok(t, j) by {
                        if t == k && j == slot {
                        } else if t < n {
                            assert(before.link_ok(t, j));
                            assert(self.nodes@[t].children@[j] == before.nodes@[t].children@[j]);
                        }
                    }
                    assert(self.shape_wf());
                    assert forall|t: int| 1 <= t < self.nodes@.len() implies #[trigger] self.linked(t) by {
                        if t == n {
                            assert(self.nodes@[k as int].children@.len() == 64);
                            assert(self.paths@[t].last() == slot);
                            assert(self.nodes@[k as int].children@[slot as int] == t);
                        } else {
                            assert(before.linked(t));
                            let q = choose|q: int| 0 <= q < t && #[trigger] before.nodes@[q].children@.len() == 64
                                && before.nodes@[q].children@[before.paths@[t].last() as int] == t;
                            assert(before.shape_ok(t));
                            if q == k {
                                assert(self.nodes@[k as int].children@ == before.nodes@[k as int].children@.update(slot as int, c));
                                assert(before.nodes@[q].children@[slot as int] == 0);
                                assert(before.paths@[t].last() != slot);
                                assert(self.nodes@[q].children@[before.paths@[t].last() as int] == t);
                            } else {
                                assert(self.nodes@[q] == before.nodes@[q]);
                            }
                            assert(self.nodes@[q].children@.len() == 64);
                        }
                    }
                    assert forall|t: int| 1 <= t < self.nodes@.len() implies #[trigger] self.leaf_keys(t) by {
                        if t < n {
                            assert(before.leaf_keys(t));
                            if t != k {
                                assert(self.nodes@[t] == before.nodes@[t]);
                            }
                        }
                    }
                    if i + 1 == last {
                        fresh = n;
                    }
                    assert forall|t: int|
                        1 <= t < self.nodes@.len() && t != fresh implies #[trigger] self.leaf_nonzero(t) by {
                        if t < n {
                            if t != k {
                                assert(self.nodes@[t] == before.nodes@[t]);
                                assert(before.leaf_nonzero(t));
                            } else {
                                assert(self.nodes@[t].children@.len() == 64);
                            }
                        } else {
                            assert(self.shape_ok(t));
                        }
                    }
                    assert forall|ch: char| #[trigger] self.value_of(ch) == before.value_of(ch) by {
                        let x = ch as u32;
                        vstd::utf8::char_is_scalar(ch);
                        if x >= 0x80 {
                            lemma_key(x);
                            Trie::lemma_walk_after_new_node(&before, self, k as int, slot as int, 0, key(x), 0);
                        }
                    }
                    assert(self@ =~= before@);
                    assert forall|x: int| 0 <= x < trail.len() - 1 implies #[trigger] self.trail_link(trail, slots@, x) by {
                        assert(before.trail_link(trail, slots@, x));
                        assert(before.paths@[trail[x] as int] == slots@.take(x));
                        assert(trail[x] != k);
                        assert(self.nodes@[trail[x] as int] == before.nodes@[trail[x] as int]);
                    }
                }
            }
            proof {
                if k > 0 {
                    assert(self.shape_ok(k as int));
                }
                assert(self.link_ok(k as int, slot as int));
                if fresh != -1 && fresh != c {
                    assert(fresh == k);
                    assert(self.nodes@[k as int].children@.len() == 64);
                    assert forall|t: int| 1 <= t < self.nodes@.len() && t != -1 implies #[trigger] self.leaf_nonzero(t) by {
                        if t != k {
                        }
                    }
                    fresh = -1;
                }
                if fresh != -1 {
                    assert(fresh == c);
                }
                let old_trail = trail;
                trail = trail.push(c);
                assert forall|x: int| 0 <= x < trail.len() - 1 implies #[trigger] self.trail_link(trail, slots@, x) by {
                    if x < old_trail.len() - 1 {
                        assert(self.trail_link(old_trail, slots@, x));
                    }
                }
                assert(slots@.take(i + 1) == slots@.take(i as int).push(slot));
            }
            k = c;
            i = i + 1;
        }
        let ghost before = *self;
        proof {
            assert(self.shape_ok(k as int));
        }
        self.nodes[k].values.set(slots[last], value);
        proof {
            assert(forall|t: int| 0 <= t < self.nodes@.len() && t != k ==> self.nodes@[t] == before.nodes@[t]);
            Trie::lemma_wf_same_shape(&before, self);
            assert forall|x: int| 0 <= x < trail.len() - 1 implies #[trigger] self.trail_link(trail, slots@, x) by {
                assert(before.trail_link(trail, slots@, x));
                assert(before.paths@[trail[x] as int] == slots@.take(x));
            }
            assert forall|t: int| 1 <= t < self.nodes@.len() implies #[trigger] self.linked(t) by {
                assert(before.linked(t));
                let q = choose|q: int| 0 <= q < t && #[trigger] before.nodes@[q].children@.len() == 64
                    && before.nodes@[q].children@[before.paths@[t].last() as int] == t;
                assert(self.nodes@[q].children@ == before.nodes@[q].children@);
            }
            assert(char_key(slots@)) by {
                assert(key(cp) == slots@);
            }
            assert forall|t: int| 1 <= t < self.nodes@.len() implies #[trigger] self.leaf_nonzero(t) by {
                if t != k {
                    assert(self.nodes@[t] == before.nodes@[t]);
                    assert(before.leaf_nonzero(t));
                } else {
                    assert(self.nodes@[t].values@[slots@[last as int] as int] != 0);
                }
            }
            assert forall|t: int| 1 <= t < self.nodes@.len() implies #[trigger] self.leaf_keys(t) by {
                if t != k {
                    assert(self.nodes@[t] == before.nodes@[t]);
                    assert(before.leaf_keys(t));
                } else {
                    assert(self.nodes@[t].values@[slots@[last as int] as int] != 0);
                    assert(before.leaf_keys(t));
                    assert forall|j: int|
                        0 <= j < 64 && #[trigger] self.nodes@[t].values@[j] != 0 implies char_key(
                        self.paths@[t].push(j as usize),
                    ) by {
                        if j == slots@[last as int] {
                            assert(self.paths@[t].push(j as usize) =~= slots@);
                        } else {
                            assert(before.nodes@[t].values@[j] != 0);
                        }
                    }
                }
            }
            before.lemma_walk_trail(trail, slots@, 0);
            self.lemma_walk_trail(trail, slots@, 0);
            assert(slots@.take(last as int) == before.paths@[k as int]);
            assert forall|c: char| #[trigger] self.value_of(c) == (if c == r {
                value
            } else {
                before.value_of(c)
            }) by {
                let x = c as u32;
                vstd::utf8::char_is_scalar(c);
                if x >= 0x80 && c != r {
                    lemma_key(x);
                    if key(x) == key(cp) {
                        lemma_key_injective(x, cp);
                        vstd::utf8::char_u32_cast(c, x);
                        vstd::utf8::char_u32_cast(r, cp);
                    }
                    let kx = key(x);
                    if kx.len() == before.paths@[k as int].len() + 1 && kx.take(kx.len() - 1)
                        == before.paths@[k as int] && kx[kx.len() - 1] == slots@[last as int] {
                        assert forall|y: int| 0 <= y < kx.len() implies kx[y] == slots@[y] by {
                            if y < kx.len() - 1 {
                                assert(kx[y] == kx.take(kx.len() - 1)[y]);
                                assert(slots@[y] == slots@.take(last as int)[y]);
                            }
                        }
                        assert(kx =~= slots@);
                    }
                    assert(kx.take(0) =~= Seq::<usize>::empty());
                    Trie::lemma_walk_after_set(&before, self, k as int, slots@[last as int] as int, 0, kx, 0);
                }
            }
            assert(self@ =~= before@.insert(r, value));
        }
    }

    /// The entry that stands for slot `j` of interior node `k`: the slot of
    /// its child, 0 where it has none.
    pub closed spec fn index_entry(&self, slot: Seq<u64>, k: int, j: int) -> u64 {
        let c = self.child(k, j);
        if c == 0 {
            0
        } else {
            slot[c as int]
        }
    }

    pub closed spec fn index_content(&self, slot: Seq<u64>, k: int) -> Seq<u64> {
        Seq::new(64, |j: int| self.index_entry(slot, k, j))
    }

    /// The block that holds node `k`: block 3 for the root, its slot plus 2
    /// otherwise.
    pub open spec fn block_of(slot: Seq<u64>, k: int) -> int {
        if k == 0 {
            3
        } else {
            slot[k] + 2
        }
    }

    /// Node `k` stands in the tables: a leaf's values in a block of `values`,
    /// an interior node's entries in a block of `index`.
    pub closed spec fn stored(&self, index: Seq<u64>, values: Seq<u64>, slot: Seq<u64>, k: int) -> bool {
        let b = Trie::block_of(slot, k);
        if self.is_leaf(k) {
            &&& 2 <= b
            &&& b * 64 + 64 <= values.len()
            &&& block(values, b) == self.nodes@[k].values@
        } else {
            &&& 2 <= b
            &&& k != 0 ==> b != 3
            &&& b * 64 + 64 <= index.len()
            &&& block(index, b) == self.index_content(slot, k)
        }
    }

    /// Block `b` of `values` holds the values of a leaf.
    pub closed spec fn leaf_block(&self, values: Seq<u64>, b: int) -> bool {
        exists|k: int|
            1 <= k < self.nodes@.len() && #[trigger] self.nodes@[k].children@.len() == 0 && block(
                values,
                b,
            ) == self.nodes@[k].values@
    }

    /// The slots of every path are below the block size.
    proof fn lemma_path_slots(&self, k: int)
        requires
            self.wf(),
            0 <= k < self.nodes@.len(),
        ensures
            slots_in_block(self.paths@[k]),
        decreases k,
    {
        if k > 0 {
            assert(self.linked(k));
            let q = choose|q: int| 0 <= q < k && #[trigger] self.nodes@[q].children@.len() == 64
                && self.nodes@[q].children@[self.paths@[k].last() as int] == k;
            let j = self.paths@[k].last();
            assert(self.link_ok(q, j as int));
            self.lemma_path_slots(q);
            assert(self.paths@[k] == self.paths@[q].push(j));
        }
    }

    /// The walk from the root along a key reaches the node whose path the
    /// key starts with.
    proof fn lemma_reach(&self, k: int, key: Seq<usize>, d: int)
        requires
            self.wf(),
            0 <= k < self.nodes@.len(),
            0 <= d < key.len(),
            self.paths@[k] == key.take(d),
        ensures
            self.walk(0, key, 0) == self.walk(k, key, d),
        decreases d,
    {
        if d == 0 {
            if k != 0 {
                assert(self.shape_ok(k));
            }
        } else {
            if k == 0 {
                assert(key.take(d).len() == d);
            }
            assert(self.linked(k));
            let q = choose|q: int| 0 <= q < k && #[trigger] self.nodes@[q].children@.len() == 64
                && self.nodes@[q].children@[self.paths@[k].last() as int] == k;
            let j = self.paths@[k].last();
            assert(self.link_ok(q, j as int));
            assert(self.paths@[k] == self.paths@[q].push(j));
            assert(self.paths@[q] =~= key.take(d - 1));
            assert(key[d - 1] == j);
            self.lemma_reach(q, key, d - 1);
        }
    }

    /// The tables in their initial layout: ASCII values, then the zero
    /// blocks, and the root's block at 3.
    pub closed spec fn frame_ok(&self, index: Seq<u64>, values: Seq<u64>) -> bool {
        &&& index.len() % 64 == 0
        &&& values.len() % 64 == 0
        &&& index.len() >= 4 * 64
        &&& values.len() >= 3 * 64
        &&& values.take(128) == self.nodes@[0].values@
        &&& block(values, 2) == Seq::new(64, |x: int| 0u64)
        &&& block(index, 2) == Seq::new(64, |x: int| 0u64)
        &&& forall|i: int| 0 <= i < 3 * 64 ==> #[trigger] index[i] == 0
        &&& distinct_blocks(index, true)
        &&& distinct_blocks(values, false)
    }

    /// The content of interior node `q` reads only the slots of its
    /// children, which come after it.
    proof fn lemma_content_after_slot(&self, slot0: Seq<u64>, slot1: Seq<u64>, q: int, k: int)
        requires
            self.shape_wf(),
            0 <= k <= q < self.nodes@.len(),
            !self.is_leaf(q),
            slot0.len() == self.nodes@.len(),
            slot1.len() == slot0.len(),
            forall|x: int| 0 <= x < slot0.len() && x != k ==> slot1[x] == slot0[x],
        ensures
            self.index_content(slot1, q) == self.index_content(slot0, q),
    {
        if q > 0 {
            assert(self.shape_ok(q));
        }
        assert forall|j: int| 0 <= j < 64 implies self.index_entry(slot1, q, j) == self.index_entry(slot0, q, j) by {
            assert(self.link_ok(q, j));
        }
        assert(self.index_content(slot1, q) =~= self.index_content(slot0, q));
    }

    fn index_block_of(&self, slot: &Vec<u64>, k: usize) -> (r: Vec<u64>)
        requires
            self.shape_wf(),
            k < self.nodes@.len(),
            !self.is_leaf(k as int),
            slot@.len() == self.nodes@.len(),
        ensures
            r@ == self.index_content(slot@, k as int),
    {
        proof {
            if k > 0 {
                assert(self.shape_ok(k as int));
            }
        }
        let mut r: Vec<u64> = Vec::new();
        let mut j: usize = 0;
        while j < BLOCK_SIZE
            invariant
                self.shape_wf(),
                k < self.nodes@.len(),
                self.nodes@[k as int].children@.len() == 64,
                slot@.len() == self.nodes@.len(),
                j <= 64,
                r@ == Seq::new(j as nat, |x: int| self.index_entry(slot@, k as int, x)),
            decreases 64 - j,
        {
            let c = self.nodes[k].children[j];
            proof {
                assert(self.link_ok(k as int, j as int));
            }
            if c == 0 {
                r.push(0);
            } else {
                r.push(slot[c]);
            }
            j = j + 1;
            assert(r@ =~= Seq::new(j as nat, |x: int| self.index_entry(slot@, k as int, x)));
        }
        assert(r@ =~= self.index_content(slot@, k as int));
        r
    }

    /// Lays the trie out in blocks, children before their parents, giving
    /// each distinct block one place; returns the two arrays and the slot
    /// of each node.
    fn compute_offsets(&self) -> (r: (Vec<u64>, Vec<u64>, Vec<u64>))
        requires
            self.shape_wf(),
        ensures
            self.frame_ok(r.0@, r.1@),
            r.2@.len() == self.nodes@.len(),
            forall|k: int| 0 <= k < self.nodes@.len() ==> #[trigger] self.stored(r.0@, r.1@, r.2@, k),
            forall|b: int| 3 <= b < r.1@.len() / 64 ==> #[trigger] self.leaf_block(r.1@, b),
    {
        let n = self.nodes.len();
        let mut index = zeros_u64(4 * BLOCK_SIZE);
        let mut values: Vec<u64> = Vec::new();
        let mut a: usize = 0;
        while a < 0x80
            invariant
                self.shape_wf(),
                a <= 0x80,
                values@ == self.nodes@[0].values@.take(a as int),
            decreases 0x80 - a,
        {
            values.push(self.nodes[0].values[a]);
            a = a + 1;
            assert(values@ =~= self.nodes@[0].values@.take(a as int));
        }
        let ghost ascii = values@;
        let zero = zeros_u64(BLOCK_SIZE);
        let mut z: usize = 0;
        while z < BLOCK_SIZE
            invariant
                z <= 64,
                zero@ == Seq::new(64, |x: int| 0u64),
                values@ == ascii + zero@.take(z as int),
                ascii.len() == 128,
            decreases 64 - z,
        {
            values.push(0);
            z = z + 1;
            assert(values@ =~= ascii + zero@.take(z as int));
        }
        let mut slot = zeros_u64(n);
        proof {
            assert(zero@.take(64) =~= zero@);
            assert(self.nodes@[0].values@.take(128) =~= self.nodes@[0].values@);
            assert(values@.take(128) =~= ascii);
            assert(index@.len() % 64 == 0);
            assert(values@.len() % 64 == 0);
            assert(block(values@, 2) =~= zero@);
            assert(block(index@, 2) =~= zero@);
        }
        let mut k: usize = n;
        while k > 1
            invariant
                self.shape_wf(),
                n == self.nodes@.len(),
                1 <= k <= n,
                slot@.len() == n,
                self.frame_ok(index@, values@),
                forall|q: int| k <= q < n ==> #[trigger] self.stored(index@, values@, slot@, q),
                forall|b: int| 3 <= b < values@.len() / 64 ==> #[trigger] self.leaf_block(values@, b),
            decreases k,
        {
            k = k - 1;
            let ghost (index0, values0) = (index@, values@);
            let leaf = self.nodes[k].children.len() == 0;
            let b: usize;
            if leaf {
                proof {
                    assert(self.shape_ok(k as int));
                }
                let content = self.nodes[k].values.clone();
                b = find_or_add_block(&mut values, &content, false);
            } else {
                let content = self.index_block_of(&slot, k);
                b = find_or_add_block(&mut index, &content, true);
            }
            let ghost slot0 = slot@;
            slot.set(k, (b - 2) as u64);
            proof {
                assert(index@.take(128) == index0.take(128) || index@ == index0);
                assert(block(values@, 2) =~= block(values0, 2));
                assert(block(index@, 2) =~= block(index0, 2));
                assert forall|x: int| 0 <= x < 3 * 64 implies #[trigger] index@[x] == 0 by {
                    assert(index0[x] == 0);
                    if !leaf {
                        assert(index@.subrange(0, index0.len() as int)[x] == index@[x]);
                    }
                }
                assert(values@.take(128) =~= values0.take(128));
                assert forall|bb: int| 3 <= bb < values@.len() / 64 implies #[trigger] self.leaf_block(values@, bb) by {
                    if bb < values0.len() / 64 {
                        assert(self.leaf_block(values0, bb));
                        assert(block(values@, bb) =~= block(values0, bb));
                    } else {
                        assert(leaf);
                        assert(values@.len() == values0.len() + 64);
                        assert(values@ == values0 + self.nodes@[k as int].values@);
                        assert(bb == values0.len() / 64);
                        assert(block(values@, bb) =~= self.nodes@[k as int].values@);
                        assert(self.nodes@[k as int].children@.len() == 0);
                    }
                }
                assert forall|q: int| k <= q < n implies #[trigger] self.stored(index@, values@, slot@, q) by {
                    if q > k {
                        assert(self.stored(index0, values0, slot0, q));
                        let bq = Trie::block_of(slot0, q);
                        assert(Trie::block_of(slot@, q) == bq);
                        if self.is_leaf(q) {
                            assert(block(values@, bq) =~= block(values0, bq));
                        } else {
                            assert(block(index@, bq) =~= block(index0, bq));
                            self.lemma_content_after_slot(slot0, slot@, q, k as int);
                        }
                    } else {
                        if !leaf {
                            self.lemma_content_after_slot(slot0, slot@, q, k as int);
                        }
                    }
                }
            }
        }
        let root = self.index_block_of(&slot, 0);
        let ghost index0 = index@;
        let mut j: usize = 0;
        while j < BLOCK_SIZE
            invariant
                j <= 64,
                root@.len() == 64,
                index@.len() == index0.len(),
                index0.len() >= 4 * 64,
                forall|x: int| 0 <= x < index@.len() && !(192 + j <= x < 256) ==> index@[x] == #[trigger] index0[x]
                    || (192 <= x < 192 + j),
                forall|x: int| 0 <= x < index@.len() && !(192 <= x < 192 + j) ==> index@[x] == index0[x],
                forall|x: int| 192 <= x < 192 + j ==> index@[x] == root@[x - 192],
            decreases 64 - j,
        {
            index.set(3 * BLOCK_SIZE + j, root[j]);
            j = j + 1;
        }
        proof {
            assert(block(index@, 3) =~= root@);
            assert(block(index@, 2) =~= block(index0, 2));
            assert forall|x: int| 0 <= x < 3 * 64 implies #[trigger] index@[x] == 0 by {
                assert(index0[x] == 0);
            }
            assert forall|b1: int, b2: int|
                2 <= b1 < b2 < index@.len() / 64 && !(b1 == 3 || b2 == 3) implies #[trigger] block(
                    index@,
                    b1,
                ) != #[trigger] block(index@, b2) by {
                assert(block(index@, b1) =~= block(index0, b1));
                assert(block(index@, b2) =~= block(index0, b2));
            }
            assert forall|q: int| 0 <= q < n implies #[trigger] self.stored(index@, values@, slot@, q) by {
                if q > 0 {
                    assert(self.stored(index0, values@, slot@, q));
                    let bq = Trie::block_of(slot@, q);
                    if !self.is_leaf(q) {
                        assert(block(index@, bq) =~= block(index0, bq));
                    }
                }
            }
        }
        (index, values, slot)
    }

    /// Past a missing child the tables read the zero blocks, down to a value of 0.
    proof fn lemma_zero_walk(index: Seq<u64>, values: Seq<u64>, key: Seq<usize>, d: int)
        requires
            index.len() >= 3 * 64,
            values.len() >= 3 * 64,
            block(values, 2) == Seq::new(64, |x: int| 0u64),
            block(index, 2) == Seq::new(64, |x: int| 0u64),
            slots_in_block(key),
            0 <= d < key.len(),
        ensures
            table_walk(index, values, 2, key, d) == 0,
            walk_in_bounds(index, values, 2, key, d),
        decreases key.len() - d,
    {
        assert(block(values, 2)[key[d] as int] == values[2 * 64 + key[d]]);
        assert(block(index, 2)[key[d] as int] == index[2 * 64 + key[d]]);
        if d < key.len() - 1 {
            Trie::lemma_zero_walk(index, values, key, d + 1);
        }
    }

    /// The tables give along a key what the trie gives: from node `k`,
    /// reached after `d` slots, and from its block.
    proof fn lemma_walk_tables(&self, index: Seq<u64>, values: Seq<u64>, slot: Seq<u64>, k: int, key: Seq<usize>, d: int)
        requires
            self.shape_wf(),
            self.frame_ok(index, values),
            slot.len() == self.nodes@.len(),
            forall|q: int| 0 <= q < self.nodes@.len() ==> #[trigger] self.stored(index, values, slot, q),
            0 <= k < self.nodes@.len(),
            2 <= key.len(),
            slots_in_block(key),
            key.len() == leaf_depth(key[0]) + 1,
            0 <= d < key.len(),
            self.paths@[k] == key.take(d),
        ensures
            self.walk(k, key, d) == table_walk(index, values, Trie::block_of(slot, k), key, d),
            walk_in_bounds(index, values, Trie::block_of(slot, k), key, d),
        decreases key.len() - d,
    {
        assert(self.stored(index, values, slot, k));
        let b = Trie::block_of(slot, k);
        if k > 0 {
            assert(self.shape_ok(k));
            assert(self.paths@[k][0] == key[0]);
        }
        if d == key.len() - 1 {
            assert(block(values, b)[key[d] as int] == values[b * 64 + key[d]]);
        } else {
            let c = self.child(k, key[d] as int);
            assert(self.link_ok(k, key[d] as int));
            assert(block(index, b)[key[d] as int] == index[b * 64 + key[d]]);
            assert(self.index_content(slot, k)[key[d] as int] == self.index_entry(slot, k, key[d] as int));
            if c == 0 {
                Trie::lemma_zero_walk(index, values, key, d + 1);
            } else {
                assert(key.take(d + 1) == key.take(d).push(key[d]));
                self.lemma_walk_tables(index, values, slot, c as int, key, d + 1);
            }
        }
    }

    proof fn lemma_zero_block(index: Seq<u64>, p: Seq<usize>, d: int)
        requires
            index.len() >= 3 * 64,
            block(index, 2) == Seq::new(64, |x: int| 0u64),
            slots_in_block(p),
            0 <= d <= p.len(),
        ensures
            table_block(index, 2, p, d) == 2,
        decreases p.len() - d,
    {
        if d < p.len() {
            assert(block(index, 2)[p[d] as int] == index[2 * 64 + p[d]]);
            Trie::lemma_zero_block(index, p, d + 1);
        }
    }

    /// A leaf prefix leads, in the tables, to a block of values that holds,
    /// slot by slot, the values that the trie holds under that prefix.
    proof fn lemma_prefix_block(&self, index: Seq<u64>, values: Seq<u64>, slot: Seq<u64>, k: int, p: Seq<usize>, d: int)
        requires
            self.shape_wf(),
            self.frame_ok(index, values),
            slot.len() == self.nodes@.len(),
            forall|q: int| 0 <= q < self.nodes@.len() ==> #[trigger] self.stored(index, values, slot, q),
            0 <= k < self.nodes@.len(),
            leaf_prefix(p),
            0 <= d <= p.len(),
            self.paths@[k] == p.take(d),
        ensures
            ({
                let b = table_block(index, Trie::block_of(slot, k), p, d);
                &&& 2 <= b
                &&& b * 64 + 64 <= values.len()
                &&& forall|j: usize| j < 64 ==> values[b * 64 + j] == #[trigger] self.walk(k, p.push(j), d)
            }),
        decreases p.len() - d,
    {
        assert(self.stored(index, values, slot, k));
        let b = Trie::block_of(slot, k);
        if k > 0 {
            assert(self.shape_ok(k));
            assert(self.paths@[k][0] == p[0]);
        }
        if d == p.len() {
            assert forall|j: usize| j < 64 implies values[b * 64 + j] == #[trigger] self.walk(k, p.push(j), d) by {
                assert(block(values, b)[j as int] == values[b * 64 + j]);
                assert(p.push(j)[d] == j);
            }
        } else {
            let c = self.child(k, p[d] as int);
            assert(self.link_ok(k, p[d] as int));
            assert(block(index, b)[p[d] as int] == index[b * 64 + p[d]]);
            assert(self.index_content(slot, k)[p[d] as int] == self.index_entry(slot, k, p[d] as int));
            if c == 0 {
                Trie::lemma_zero_block(index, p, d + 1);
                assert forall|j: usize| j < 64 implies values[2 * 64 + j] == #[trigger] self.walk(k, p.push(j), d) by {
                    assert(block(values, 2)[j as int] == values[2 * 64 + j]);
                    assert(p.push(j)[d] == p[d]);
                }
            } else {
                assert(p.take(d + 1) == p.take(d).push(p[d]));
                self.lemma_prefix_block(index, values, slot, c as int, p, d + 1);
                assert forall|j: usize| j < 64 implies #[trigger] self.walk(k, p.push(j), d) == self.walk(c as int, p.push(j), d + 1) by {
                    assert(p.push(j)[d] == p[d]);
                }
            }
        }
    }

    /// `s` completes `p` into a key: it has the slots that are missing.
    pub open spec fn completes(p: Seq<usize>, s: Seq<usize>) -> bool {
        &&& s.len() == leaf_depth(p[0]) + 1 - p.len()
        &&& slots_in_block(s)
    }

    /// Every key that starts with `pa` holds the value of the key that
    /// starts with `pb` and ends alike.
    pub open spec fn same_below(&self, pa: Seq<usize>, pb: Seq<usize>) -> bool {
        forall|s: Seq<usize>|
            Trie::completes(pa, s) ==> #[trigger] self.walk(0, pa + s, 0) == self.walk(0, pb + s, 0)
    }

    /// Every key that starts with `p` holds 0.
    pub open spec fn zero_below(&self, p: Seq<usize>) -> bool {
        forall|s: Seq<usize>| Trie::completes(p, s) ==> #[trigger] self.walk(0, p + s, 0) == 0
    }

    /// What the compressed tables of this trie are:
    /// - in the fixed layout, each block stored once;
    /// - fit for lookups, and every character reads back through them the
    ///   value that the trie holds for it;
    /// - two prefixes of the same length under lead slots of the same
    ///   sequence length, whose keys hold the same values, lead to the same
    ///   block; a prefix whose keys all hold 0 leads to the zero block;
    /// - every block of `values` after the zero block is the one that some
    ///   leaf prefix leads to, so that `values` holds the distinct blocks of
    ///   the leaves and no other;
    /// - every entry of `values` is 0 or the value of a character, so that,
    ///   every value of a character being read from `values`, the largest
    ///   entry is the trie's largest value;
    /// - each array's width is the narrowest that holds its largest entry.
    pub open spec fn compresses(&self, t: &PropertyTables) -> bool {
        &&& t.layout_ok()
        &&& t.wf()
        &&& forall|c: char| #[trigger] t.value_for(c) == self@[c]
        &&& forall|pa: Seq<usize>, pb: Seq<usize>|
            key_prefix(pa) && key_prefix(pb) && pa.len() == pb.len() && leaf_depth(pa[0])
                == leaf_depth(pb[0]) && self.same_below(pa, pb) ==> #[trigger] table_block(
                t.index@,
                3,
                pa,
                0,
            ) == #[trigger] table_block(t.index@, 3, pb, 0)
        &&& forall|p: Seq<usize>|
            key_prefix(p) && self.zero_below(p) ==> #[trigger] table_block(t.index@, 3, p, 0) == 2
        &&& forall|i: int| 0 <= i < t.values@.len() ==> #[trigger] self.holds(t.values@[i])
        &&& forall|b: int| 3 <= b < t.values@.len() / 64 ==> #[trigger] reached_block(t, b)
        &&& t.value_type == narrowest(max_of(t.values@))
        &&& t.index_type == narrowest(max_of(t.index@))
    }

    /// `v` is 0, or the value of some character.
    pub open spec fn holds(&self, v: u64) -> bool {
        v == 0 || exists|c: char| #[trigger] self@[c] == v
    }

    /// A prefix shorter than a leaf's leads to an index block: the zero
    /// block or one of an interior node, never the root's.
    proof fn lemma_prefix_interior(&self, index: Seq<u64>, values: Seq<u64>, slot: Seq<u64>, k: int, p: Seq<usize>, d: int)
        requires
            self.shape_wf(),
            self.frame_ok(index, values),
            slot.len() == self.nodes@.len(),
            forall|q: int| 0 <= q < self.nodes@.len() ==> #[trigger] self.stored(index, values, slot, q),
            0 <= k < self.nodes@.len(),
            key_prefix(p),
            p.len() < leaf_depth(p[0]),
            0 <= d <= p.len(),
            self.paths@[k] == p.take(d),
        ensures
            ({
                let b = table_block(index, Trie::block_of(slot, k), p, d);
                &&& 2 <= b
                &&& b != 3
                &&& b * 64 + 64 <= index.len()
            }),
        decreases p.len() - d,
    {
        assert(self.stored(index, values, slot, k));
        let b = Trie::block_of(slot, k);
        if k > 0 {
            assert(self.shape_ok(k));
            assert(self.paths@[k][0] == p[0]);
        }
        if d < p.len() {
            let c = self.child(k, p[d] as int);
            assert(self.link_ok(k, p[d] as int));
            assert(block(index, b)[p[d] as int] == index[b * 64 + p[d]]);
            assert(self.index_content(slot, k)[p[d] as int] == self.index_entry(slot, k, p[d] as int));
            if c == 0 {
                Trie::lemma_zero_block(index, p, d + 1);
            } else {
                assert(p.take(d + 1) == p.take(d).push(p[d]));
                self.lemma_prefix_interior(index, values, slot, c as int, p, d + 1);
            }
        } else {
            assert(k != 0);
        }
    }

    /// Prefixes whose keys hold the same values lead to the same block.
    proof fn lemma_share(&self, index: Seq<u64>, values: Seq<u64>, slot: Seq<u64>, pa: Seq<usize>, pb: Seq<usize>)
        requires
            self.shape_wf(),
            self.frame_ok(index, values),
            slot.len() == self.nodes@.len(),
            forall|q: int| 0 <= q < self.nodes@.len() ==> #[trigger] self.stored(index, values, slot, q),
            key_prefix(pa),
            key_prefix(pb),
            pa.len() == pb.len(),
            leaf_depth(pa[0]) == leaf_depth(pb[0]),
            self.same_below(pa, pb),
        ensures
            table_block(index, 3, pa, 0) == table_block(index, 3, pb, 0),
        decreases leaf_depth(pa[0]) - pa.len(),
    {
        assert(pa.take(0) =~= Seq::<usize>::empty());
        assert(pb.take(0) =~= Seq::<usize>::empty());
        let ba = table_block(index, 3, pa, 0);
        let bb = table_block(index, 3, pb, 0);
        if pa.len() == leaf_depth(pa[0]) {
            self.lemma_prefix_block(index, values, slot, 0, pa, 0);
            self.lemma_prefix_block(index, values, slot, 0, pb, 0);
            assert forall|j: int| 0 <= j < 64 implies block(values, ba)[j] == block(values, bb)[j] by {
                let s = seq![j as usize];
                assert(Trie::completes(pa, s));
                assert(pa + s =~= pa.push(j as usize));
                assert(pb + s =~= pb.push(j as usize));
                assert(self.walk(0, pa + s, 0) == self.walk(0, pb + s, 0));
            }
            assert(block(values, ba) =~= block(values, bb));
            if ba < bb {
                assert(block(values, ba) != block(values, bb));
            } else if bb < ba {
                assert(block(values, bb) != block(values, ba));
            }
        } else {
            self.lemma_prefix_interior(index, values, slot, 0, pa, 0);
            self.lemma_prefix_interior(index, values, slot, 0, pb, 0);
            assert forall|j: int| 0 <= j < 64 implies block(index, ba)[j] == block(index, bb)[j] by {
                let qa = pa.push(j as usize);
                let qb = pb.push(j as usize);
                assert(qa[0] == pa[0]);
                assert(qb[0] == pb[0]);
                assert forall|s: Seq<usize>| Trie::completes(qa, s) implies #[trigger] self.walk(0, qa + s, 0) == self.walk(0, qb + s, 0) by {
                    let t = seq![j as usize] + s;
                    assert(Trie::completes(pa, t));
                    assert(qa + s =~= pa + t);
                    assert(qb + s =~= pb + t);
                    assert(self.walk(0, pa + t, 0) == self.walk(0, pb + t, 0));
                }
                self.lemma_share(index, values, slot, qa, qb);
                lemma_table_block_push(index, 3, pa, j as usize, 0);
                lemma_table_block_push(index, 3, pb, j as usize, 0);
            }
            assert(block(index, ba) =~= block(index, bb));
            if ba < bb {
                assert(block(index, ba) != block(index, bb));
            } else if bb < ba {
                assert(block(index, bb) != block(index, ba));
            }
        }
    }

    /// A prefix whose keys all hold 0 leads to the zero block.
    proof fn lemma_zero_resolves(&self, index: Seq<u64>, values: Seq<u64>, slot: Seq<u64>, p: Seq<usize>)
        requires
            self.shape_wf(),
            self.frame_ok(index, values),
            slot.len() == self.nodes@.len(),
            forall|q: int| 0 <= q < self.nodes@.len() ==> #[trigger] self.stored(index, values, slot, q),
            key_prefix(p),
            self.zero_below(p),
        ensures
            table_block(index, 3, p, 0) == 2,
        decreases leaf_depth(p[0]) - p.len(),
    {
        assert(p.take(0) =~= Seq::<usize>::empty());
        let b = table_block(index, 3, p, 0);
        if p.len() == leaf_depth(p[0]) {
            self.lemma_prefix_block(index, values, slot, 0, p, 0);
            assert forall|j: int| 0 <= j < 64 implies block(values, b)[j] == block(values, 2)[j] by {
                let s = seq![j as usize];
                assert(Trie::completes(p, s));
                assert(p + s =~= p.push(j as usize));
                assert(self.walk(0, p + s, 0) == 0);
            }
            assert(block(values, b) =~= block(values, 2));
            if b > 2 {
                assert(block(values, 2) != block(values, b));
            }
        } else {
            self.lemma_prefix_interior(index, values, slot, 0, p, 0);
            assert forall|j: int| 0 <= j < 64 implies block(index, b)[j] == block(index, 2)[j] by {
                let q = p.push(j as usize);
                assert(q[0] == p[0]);
                assert forall|s: Seq<usize>| Trie::completes(q, s) implies #[trigger] self.walk(0, q + s, 0) == 0 by {
                    let t = seq![j as usize] + s;
                    assert(Trie::completes(p, t));
                    assert(q + s =~= p + t);
                    assert(self.walk(0, p + t, 0) == 0);
                }
                self.lemma_zero_resolves(index, values, slot, q);
                lemma_table_block_push(index, 3, p, j as usize, 0);
            }
            assert(block(index, b) =~= block(index, 2));
            if b > 3 {
                assert(block(index, 2) != block(index, b));
            }
        }
    }

    /// The compressed tables of this trie.
    pub fn build(&self) -> (t: PropertyTables)
        requires
            self.wf(),
        ensures
            self.compresses(&t),
    {
        let (index, values, slot) = self.compute_offsets();
        let value_type = get_int_type(max_value(&values));
        let index_type = get_int_type(max_value(&index));
        let t = PropertyTables { index, values, value_type, index_type };
        proof {
            assert forall|c: char| #[trigger] t.value_for(c) == self@[c] by {
                let cp = c as u32;
                vstd::utf8::char_is_scalar(c);
                if cp < 0x80 {
                    assert(t.values@.take(128)[cp as int] == t.values@[cp as int]);
                } else {
                    lemma_key(cp);
                    assert(key(cp).take(0) =~= Seq::<usize>::empty());
                    self.lemma_walk_tables(t.index@, t.values@, slot@, 0, key(cp), 0);
                }
            }
            assert forall|cp: u32| 0x80 <= cp <= 0x10FFFF implies #[trigger] walk_in_bounds(t.index@, t.values@, 3, key(cp), 0) by {
                lemma_key(cp);
                assert(key(cp).take(0) =~= Seq::<usize>::empty());
                self.lemma_walk_tables(t.index@, t.values@, slot@, 0, key(cp), 0);
            }
            assert forall|pa: Seq<usize>, pb: Seq<usize>|
                key_prefix(pa) && key_prefix(pb) && pa.len() == pb.len() && leaf_depth(pa[0])
                    == leaf_depth(pb[0]) && self.same_below(pa, pb) implies #[trigger] table_block(
                    t.index@,
                    3,
                    pa,
                    0,
                ) == #[trigger] table_block(t.index@, 3, pb, 0) by {
                self.lemma_share(t.index@, t.values@, slot@, pa, pb);
            }
            assert forall|i: int| 0 <= i < t.values@.len() implies #[trigger] self.holds(t.values@[i]) by {
                if i < 128 {
                    let c = (i as u8) as char;
                    assert(c as u32 == i);
                    assert(t.values@.take(128)[i] == t.values@[i]);
                    assert(self@[c] == t.values@[i]);
                } else if i < 192 {
                    assert(block(t.values@, 2)[i - 128] == t.values@[i]);
                } else {
                    let b = i / 64;
                    let j = i % 64;
                    assert(3 <= b < t.values@.len() / 64);
                    assert(self.leaf_block(t.values@, b));
                    let k = choose|k: int|
                        1 <= k < self.nodes@.len() && #[trigger] self.nodes@[k].children@.len() == 0
                            && block(t.values@, b) == self.nodes@[k].values@;
                    assert(block(t.values@, b)[j] == t.values@[i]);
                    if t.values@[i] != 0 {
                        assert(self.leaf_keys(k));
                        assert(self.nodes@[k].values@[j] != 0);
                        assert(char_key(self.paths@[k].push(j as usize)));
                        let cp = choose|cp: u32| 0x80 <= cp <= 0x10FFFF && vstd::utf8::is_scalar(cp)
                            && #[trigger] key(cp) == self.paths@[k].push(j as usize);
                        let kk = key(cp);
                        let d = self.paths@[k].len() as int;
                        assert(self.paths@[k] =~= kk.take(d));
                        self.lemma_reach(k, kk, d);
                        let c = cp as char;
                        assert(c as u32 == cp);
                        assert(self@[c] == t.values@[i]);
                    }
                }
            }
            assert forall|b: int| 3 <= b < t.values@.len() / 64 implies #[trigger] reached_block(&t, b) by {
                assert(self.leaf_block(t.values@, b));
                let k = choose|k: int|
                    1 <= k < self.nodes@.len() && #[trigger] self.nodes@[k].children@.len() == 0
                        && block(t.values@, b) == self.nodes@[k].values@;
                let p = self.paths@[k];
                assert(self.shape_ok(k));
                self.lemma_path_slots(k);
                assert(leaf_prefix(p));
                assert(p.take(0) =~= Seq::<usize>::empty());
                self.lemma_prefix_block(t.index@, t.values@, slot@, 0, p, 0);
                let bb = table_block(t.index@, 3, p, 0);
                assert forall|j: int| 0 <= j < 64 implies block(t.values@, bb)[j] == block(t.values@, b)[j] by {
                    let kk = p.push(j as usize);
                    assert(p =~= kk.take(p.len() as int));
                    self.lemma_reach(k, kk, p.len() as int);
                    assert(self.walk(0, kk, 0) == t.values@[bb * 64 + j]);
                }
                assert(block(t.values@, bb) =~= block(t.values@, b));
                if bb < b {
                    assert(block(t.values@, bb) != block(t.values@, b));
                } else if b < bb {
                    assert(block(t.values@, b) != block(t.values@, bb));
                }
            }
            assert forall|p: Seq<usize>| key_prefix(p) && self.zero_below(p) implies #[trigger] table_block(
                t.index@,
                3,
                p,
                0,
            ) == 2 by {
                self.lemma_zero_resolves(t.index@, t.values@, slot@, p);
            }
        }
        t
    }

    /// The compressed tables of this trie as Rust source: `<name>_VALUES`,
    /// then `<name>_INDEX`, each in the narrowest width that holds it.
    pub fn write_tables(self, name: &str) -> (r: String)
        requires
            self.wf(),
        ensures
            exists|t: PropertyTables| #[trigger] self.compresses(&t) && r@ == tables_text(&t, name@),
    {
        let t = self.build();
        t.text(name)
    }

    /// Sets the value of every character from `start` to `end`, both
    /// included; values that are no characters (surrogates) are passed over.
    pub fn insert_range(&mut self, start: u32, end: u32, value: u64)
        requires
            old(self).wf(),
        ensures
            final(self).wf(),
            final(self)@ == Map::new(
                |c: char| true,
                |c: char|
                    if value != 0 && start <= c as u32 <= end {
                        value
                    } else {
                        old(self)@[c]
                    },
            ),
    {
        let mut cp: u64 = start as u64;
        while cp <= end as u64
            invariant
                self.wf(),
                start <= cp,
                cp <= end as u64 + 1 || cp == start,
                self@ == Map::new(
                    |c: char| true,
                    |c: char|
                        if value != 0 && start <= c as u32 && (c as u32) < cp {
                            value
                        } else {
                            old(self)@[c]
                        },
                ),
            decreases end as u64 + 1 - cp,
        {
            let ghost before = self@;
            let ghost prev = cp;
            let got = char_of(cp as u32);
            if let Some(c) = got {
                self.insert(c, value);
            }
            cp = cp + 1;
            proof {
                assert forall|d: char| #[trigger] self@[d] == (if value != 0 && start <= d as u32 && (d as u32) < cp {
                    value
                } else {
                    old(self)@[d]
                }) by {
                    vstd::utf8::char_is_scalar(d);
                    if d as u32 == prev {
                        let c = got->0;
                        vstd::utf8::char_u32_cast(d, prev as u32);
                        vstd::utf8::char_u32_cast(c, prev as u32);
                        assert(c == d);
                    } else if let Some(c) = got {
                        if c == d {
                            assert(false);
                        }
                        assert(self@[d] == before[d]);
                    } else {
                        assert(self@[d] == before[d]);
                    }
                }
                assert(self@ =~= Map::new(
                    |c: char| true,
                    |c: char|
                        if value != 0 && start <= c as u32 && (c as u32) < cp {
                            value
                        } else {
                            old(self)@[c]
                        },
                ));
            }
        }
        assert(self@ =~= Map::new(
            |c: char| true,
            |c: char|
                if value != 0 && start <= c as u32 <= end {
                    value
                } else {
                    old(self)@[c]
                },
        ));
    }

}

} // verus!
