use vstd::prelude::*;

use vstd::utf8::{
    codepoint_width_2, codepoint_width_3, codepoint_width_4, decode_first_scalar,
    is_continuation_byte, length_of_first_scalar, valid_first_scalar,
};

use crate::trie::key;

verus! {

/// Entry `b` of a flat array laid out in blocks of 64.
pub open spec fn block(s: Seq<u64>, b: int) -> Seq<u64> {
    s.subrange(b * 64, b * 64 + 64)
}

/// Blocks from 2 on are pairwise different, block 3 left out where
/// `skip_root` holds.
pub open spec fn distinct_blocks(s: Seq<u64>, skip_root: bool) -> bool {
    forall|b1: int, b2: int|
        2 <= b1 < b2 < s.len() / 64 && !(skip_root && (b1 == 3 || b2 == 3)) ==> #[trigger] block(
            s,
            b1,
        ) != #[trigger] block(s, b2)
}

/// The narrowest unsigned integer type that holds a value.
#[derive(Clone, Copy, Debug, PartialEq, Eq, Structural)]
pub enum IntWidth {
    U8,
    U16,
    U32,
    U64,
}

/// The largest of a sequence of values; 0 for none.
pub open spec fn max_of(s: Seq<u64>) -> u64
    decreases s.len(),
{
    if s.len() == 0 {
        0
    } else if max_of(s.drop_last()) < s.last() {
        s.last()
    } else {
        max_of(s.drop_last())
    }
}

/// The narrowest of the widths 8, 16, 32 and 64 bits that holds `v`.
pub open spec fn narrowest(v: u64) -> IntWidth {
    if v < 0x100 {
        IntWidth::U8
    } else if v < 0x1_0000 {
        IntWidth::U16
    } else if v < 0x1_0000_0000 {
        IntWidth::U32
    } else {
        IntWidth::U64
    }
}

pub fn max_value(values: &Vec<u64>) -> (r: u64)
    ensures
        r == max_of(values@),
{
    let mut max: u64 = 0;
    let mut i: usize = 0;
    while i < values.len()
        invariant
            i <= values@.len(),
            max == max_of(values@.take(i as int)),
        decreases values@.len() - i,
    {
        assert(values@.take(i + 1).drop_last() =~= values@.take(i as int));
        if max < values[i] {
            max = values[i];
        }
        i = i + 1;
    }
    assert(values@.take(i as int) =~= values@);
    max
}

pub fn get_int_type(v: u64) -> (r: IntWidth)
    ensures
        r == narrowest(v),
{
    if v < 0x100 {
        return IntWidth::U8;
    }
    if v < 0x1_0000 {
        return IntWidth::U16;
    }
    if v < 0x1_0000_0000 {
        return IntWidth::U32;
    }
    IntWidth::U64
}

/// The flat tables of a compressed trie, laid out in blocks of 64.
///
/// `values` starts with the 128 values of ASCII (blocks 0 and 1) and the
/// block of zeros (block 2). `index` starts with three blocks of zeros and
/// the root's block (block 3), whose entries stand for lead bytes 0xC0 to
/// 0xFF. An entry `i` of an index block refers to block `i + 2` of the
/// array that the next byte reads, so that `i * 64 + b` for a continuation
/// byte `b` is the entry for `b` in that block.
pub struct PropertyTables {
    pub index: Vec<u64>,
    pub values: Vec<u64>,
    pub value_type: IntWidth,
    pub index_type: IntWidth,
}

/// The value that the tables give for the slots of a key, reading block
/// `b` at depth `d`.
pub open spec fn table_walk(index: Seq<u64>, values: Seq<u64>, b: int, key: Seq<usize>, d: int) -> u64
    decreases key.len() - d,
{
    if d >= key.len() - 1 {
        values[b * 64 + key[d]]
    } else {
        table_walk(index, values, index[b * 64 + key[d]] + 2, key, d + 1)
    }
}

/// Every entry that a walk along `key` from block `b` at depth `d` reads
/// lies inside the arrays.
pub open spec fn walk_in_bounds(index: Seq<u64>, values: Seq<u64>, b: int, key: Seq<usize>, d: int) -> bool
    decreases key.len() - d,
{
    if d >= key.len() - 1 {
        0 <= b * 64 + key[d] < values.len()
    } else {
        &&& 0 <= b * 64 + key[d] < index.len()
        &&& walk_in_bounds(index, values, index[b * 64 + key[d]] + 2, key, d + 1)
    }
}

/// The bytes of one well-formed character, and its key: the lead byte is
/// 0xC0 plus the lead slot, each continuation byte 0x80 plus its slot.
proof fn lemma_key_bytes(bytes: Seq<u8>)
    requires
        valid_first_scalar(bytes),
        bytes.len() == length_of_first_scalar(bytes),
        bytes[0] >= 0x80,
    ensures
        ({
            let k = key(decode_first_scalar(bytes));
            &&& k.len() == bytes.len()
            &&& k[0] == bytes[0] - 192
            &&& forall|i: int| 1 <= i < bytes.len() ==> k[i] == bytes[i] - 128
        }),
{
    let b0 = bytes[0];
    let b1 = bytes[1];
    let k = key(decode_first_scalar(bytes));
    if bytes.len() == 2 {
        assert(0xC0 <= b0 <= 0xDF && is_continuation_byte(b1) ==> {
            let cp = codepoint_width_2(b0, b1);
            &&& cp < 0x800
            &&& cp / 64 == (b0 - 192) as u32
            &&& cp % 64 == (b1 - 128) as u32
        }) by (bit_vector);
    } else if bytes.len() == 3 {
        let b2 = bytes[2];
        assert(0xE0 <= b0 <= 0xEF && is_continuation_byte(b1) && is_continuation_byte(b2) ==> {
            let cp = codepoint_width_3(b0, b1, b2);
            &&& cp < 0x10000
            &&& 32 + cp / 4096 == (b0 - 192) as u32
            &&& (cp / 64) % 64 == (b1 - 128) as u32
            &&& cp % 64 == (b2 - 128) as u32
        }) by (bit_vector);
    } else {
        let b2 = bytes[2];
        let b3 = bytes[3];
        assert(0xF0 <= b0 <= 0xF7 && is_continuation_byte(b1) && is_continuation_byte(b2)
            && is_continuation_byte(b3) ==> {
            let cp = codepoint_width_4(b0, b1, b2, b3);
            &&& 48 + cp / 262144 == (b0 - 192) as u32
            &&& (cp / 4096) % 64 == (b1 - 128) as u32
            &&& (cp / 64) % 64 == (b2 - 128) as u32
            &&& cp % 64 == (b3 - 128) as u32
        }) by (bit_vector);
    }
    assert forall|i: int| 1 <= i < bytes.len() implies k[i] == bytes[i] - 128 by {
    }
}

/// Following one more slot from the block that a prefix leads to.
pub proof fn lemma_table_block_push(index: Seq<u64>, b: int, p: Seq<usize>, j: usize, d: int)
    requires
        0 <= d <= p.len(),
    ensures
        table_block(index, b, p.push(j), d) == index[table_block(index, b, p, d) * 64 + j] + 2,
    decreases p.len() - d,
{
    if d < p.len() {
        assert(p.push(j)[d] == p[d]);
        lemma_table_block_push(index, index[b * 64 + p[d]] + 2, p, j, d + 1);
    } else {
        assert(p.push(j)[d] == j);
        assert(table_block(index, index[b * 64 + j] + 2, p.push(j), d + 1) == index[b * 64 + j] + 2);
        assert(table_block(index, b, p, d) == b);
    }
}

impl PropertyTables {
    /// The fixed layout: arrays of whole blocks; index blocks 0 to 2 all
    /// zero, block 3 the root's; values blocks 0 and 1 the ASCII values,
    /// block 2 all zero; from block 2 on each block stored once (the root's
    /// block aside).
    pub open spec fn layout_ok(&self) -> bool {
        &&& self.index@.len() % 64 == 0
        &&& self.values@.len() % 64 == 0
        &&& self.index@.len() >= 4 * 64
        &&& self.values@.len() >= 3 * 64
        &&& forall|i: int| 0 <= i < 3 * 64 ==> #[trigger] self.index@[i] == 0
        &&& block(self.values@, 2) == Seq::new(64, |x: int| 0u64)
        &&& distinct_blocks(self.index@, true)
        &&& distinct_blocks(self.values@, false)
    }

    /// The tables are fit for lookups: they hold the values of ASCII, and a
    /// walk along any key stays inside them.
    pub open spec fn wf(&self) -> bool {
        &&& self.values@.len() >= 128
        &&& forall|cp: u32|
            0x80 <= cp <= 0x10FFFF ==> #[trigger] walk_in_bounds(self.index@, self.values@, 3, key(cp), 0)
    }

    /// The value for the character that `bytes` encode, read from the tables
    /// keyed by the bytes themselves: ASCII directly from `values`, other
    /// characters through one `index` entry per byte but the last.
    pub fn lookup(&self, bytes: &[u8]) -> (r: u64)
        requires
            self.wf(),
            valid_first_scalar(bytes@),
            bytes@.len() == length_of_first_scalar(bytes@),
        ensures
            r == self.value_for(decode_first_scalar(bytes@) as char),
    {
        let b0 = bytes[0];
        proof {
            crate::automaton::lemma_fault_free_iff_valid(bytes@);
        }
        if b0 < 0x80 {
            return self.values[b0 as usize];
        }
        let ghost cp = decode_first_scalar(bytes@);
        let ghost k = key(cp);
        proof {
            lemma_key_bytes(bytes@);
            assert(walk_in_bounds(self.index@, self.values@, 3, k, 0));
        }
        let n = bytes.len();
        let ilen = self.index.len();
        let vlen = self.values.len();
        let mut i: u64 = self.index[b0 as usize];
        let mut d: usize = 1;
        while d < n - 1
            invariant
                n == bytes@.len(),
                ilen == self.index@.len(),
                vlen == self.values@.len(),
                2 <= n <= 4,
                1 <= d <= n - 1,
                k.len() == n,
                forall|x: int| 1 <= x < n ==> k[x] == bytes@[x] - 128,
                walk_in_bounds(self.index@, self.values@, i + 2, k, d as int),
                table_walk(self.index@, self.values@, 3, k, 0) == table_walk(self.index@, self.values@, i + 2, k, d as int),
            decreases n - d,
        {
            assert((i + 2) * 64 + k[d as int] == i * 64 + bytes@[d as int]);
            i = self.index[(i as usize) * 64 + bytes[d] as usize];
            d = d + 1;
        }
        assert((i + 2) * 64 + k[n - 1] == i * 64 + bytes@[n - 1]);
        self.values[(i as usize) * 64 + bytes[n - 1] as usize]
    }

    /// The value that the tables give for `c`: ASCII read directly, other
    /// characters through the root's block along their key.
    pub open spec fn value_for(&self, c: char) -> u64 {
        let cp = c as u32;
        if cp < 0x80 {
            self.values@[cp as int]
        } else {
            table_walk(self.index@, self.values@, 3, key(cp), 0)
        }
    }
}

/// The block of values that a prefix of a key leads to from block `b` at
/// depth `d`: the block that holds the values of the 64 characters that
/// share the prefix.
pub open spec fn table_block(index: Seq<u64>, b: int, prefix: Seq<usize>, d: int) -> int
    decreases prefix.len() - d,
{
    if d >= prefix.len() {
        b
    } else {
        table_block(index, index[b * 64 + prefix[d]] + 2, prefix, d + 1)
    }
}

/// Whether block `b` of `blocks` holds `content`.
fn block_equals(blocks: &Vec<u64>, b: usize, content: &Vec<u64>) -> (r: bool)
    requires
        content@.len() == 64,
        b * 64 + 64 <= blocks@.len(),
    ensures
        r == (block(blocks@, b as int) == content@),
{
    let n = blocks.len();
    let mut j: usize = 0;
    while j < 64
        invariant
            content@.len() == 64,
            n == blocks@.len(),
            b * 64 + 64 <= blocks@.len(),
            j <= 64,
            forall|x: int| 0 <= x < j ==> blocks@[b * 64 + x] == content@[x],
        decreases 64 - j,
    {
        if blocks[b * 64 + j] != content[j] {
            assert(block(blocks@, b as int)[j as int] != content@[j as int]);
            return false;
        }
        j = j + 1;
    }
    assert(block(blocks@, b as int) =~= content@);
    true
}

/// The block of `blocks`, from 2 on, that holds `content`; appended first
/// where none does, so that equal blocks are stored once.
pub fn find_or_add_block(blocks: &mut Vec<u64>, content: &Vec<u64>, skip_root: bool) -> (r: usize)
    requires
        content@.len() == 64,
        old(blocks)@.len() % 64 == 0,
        old(blocks)@.len() >= 3 * 64,
        skip_root ==> old(blocks)@.len() >= 4 * 64,
        distinct_blocks(old(blocks)@, skip_root),
    ensures
        final(blocks)@.len() % 64 == 0,
        distinct_blocks(final(blocks)@, skip_root),
        2 <= r,
        !(skip_root && r == 3),
        r * 64 + 64 <= final(blocks)@.len(),
        block(final(blocks)@, r as int) == content@,
        final(blocks)@.len() == old(blocks)@.len() || final(blocks)@ == old(blocks)@ + content@,
        final(blocks)@.subrange(0, old(blocks)@.len() as int) == old(blocks)@,
{
    let count = blocks.len() / 64;
    let mut b: usize = 2;
    while b < count
        invariant
            count == blocks@.len() / 64,
            blocks@.len() % 64 == 0,
            content@.len() == 64,
            2 <= b <= count,
            blocks@ == old(blocks)@,
            distinct_blocks(blocks@, skip_root),
            forall|x: int| 2 <= x < b && !(skip_root && x == 3) ==> block(blocks@, x) != content@,
        decreases count - b,
    {
        if !(skip_root && b == 3) {
            if block_equals(blocks, b, content) {
                assert(blocks@.subrange(0, blocks@.len() as int) =~= blocks@);
                return b;
            }
        }
        b = b + 1;
    }
    let ghost before = blocks@;
    let mut j: usize = 0;
    while j < 64
        invariant
            content@.len() == 64,
            j <= 64,
            blocks@ == before + content@.take(j as int),
            before.len() == count * 64,
        decreases 64 - j,
    {
        blocks.push(content[j]);
        j = j + 1;
        assert(blocks@ =~= before + content@.take(j as int));
    }
    assert(content@.take(64) =~= content@);
    assert(block(blocks@, count as int) =~= content@);
    assert(blocks@.subrange(0, before.len() as int) =~= before);
    assert forall|b1: int, b2: int|
        2 <= b1 < b2 < blocks@.len() / 64 && !(skip_root && (b1 == 3 || b2 == 3)) implies #[trigger] block(
            blocks@,
            b1,
        ) != #[trigger] block(blocks@, b2) by {
        assert(block(blocks@, b1) =~= block(before, b1));
        if b2 < count {
            assert(block(blocks@, b2) =~= block(before, b2));
        }
    }
    count
}

} // verus!
