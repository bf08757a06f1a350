//! The per-side decompression header: block geometry, the shifted
//! Huffman base thresholds, and the symbol expansion tree.

use vstd::prelude::*;

use crate::bytes::{read_u16_le, read_u32_le, read_u8, spec_u16_le, spec_u32_le};
use crate::errors::ProbeError;
use crate::groups::GroupData;

verus! {

/// Flag bit: the stored value depends on the side to move.
pub const FLAG_STM: u8 = 0x01;

/// Flag bit: values go through an explicit map (DTZ tables).
pub const FLAG_MAPPED: u8 = 0x02;

/// Flag bit: the table stores winning-ply counts.
pub const FLAG_WIN_PLIES: u8 = 0x04;

/// Flag bit: the table stores losing-ply counts.
pub const FLAG_LOSS_PLIES: u8 = 0x08;

/// Flag bit: every position of this side has one single value.
pub const FLAG_SINGLE_VALUE: u8 = 0x80;

/// The left child of the 3-byte node of symbol `s`: the low nibble of
/// the middle byte joined with the first byte.
pub open spec fn spec_left(bytes: Seq<u8>, btree: int, s: int) -> int {
    (bytes[btree + 3 * s + 1] % 16) * 256 + bytes[btree + 3 * s]
}

/// The right child of the 3-byte node of symbol `s`: the high nibble of
/// the middle byte joined with the third byte.
pub open spec fn spec_right(bytes: Seq<u8>, btree: int, s: int) -> int {
    (bytes[btree + 3 * s + 1] / 16) * 256 + bytes[btree + 3 * s + 2]
}

/// What symbol-length construction guarantees of one symbol: a symbol
/// is terminal exactly when its node's right child field is 0xFFF, and
/// an inner symbol expands into one more byte than its two children
/// together.
pub open spec fn symlen_node_ok(bytes: Seq<u8>, btree: int, symlen: Seq<u8>, s: int) -> bool {
    &&& (symlen[s] == 0 <==> spec_right(bytes, btree, s) == 0xfff)
    &&& symlen[s] > 0 ==> {
        let l = spec_left(bytes, btree, s);
        let r = spec_right(bytes, btree, s);
        &&& 0 <= l < symlen.len()
        &&& 0 <= r < symlen.len()
        &&& symlen[s] == symlen[l] + symlen[r] + 1
    }
}

/// `symlen_node_ok` for a symbol already resolved, with its children
/// also resolved: what construction maintains while it walks the tree.
pub open spec fn symlen_partial_ok(
    bytes: Seq<u8>,
    btree: int,
    symlen: Seq<u8>,
    visited: Seq<bool>,
    s: int,
) -> bool {
    &&& (symlen[s] == 0 <==> spec_right(bytes, btree, s) == 0xfff)
    &&& symlen[s] > 0 ==> {
        let l = spec_left(bytes, btree, s);
        let r = spec_right(bytes, btree, s);
        &&& 0 <= l < symlen.len()
        &&& 0 <= r < symlen.len()
        &&& visited[l]
        &&& visited[r]
        &&& symlen[s] == symlen[l] + symlen[r] + 1
    }
}

/// Read the two 12-bit child fields of the node of symbol `s`.
pub fn read_node(bytes: &Vec<u8>, btree: usize, s: usize) -> (r: (u16, u16))
    requires
        btree + 3 * s + 3 <= bytes@.len(),
    ensures
        r.0 == spec_left(bytes@, btree as int, s as int),
        r.1 == spec_right(bytes@, btree as int, s as int),
{
    let _n = bytes.len();
    let b0 = bytes[btree + 3 * s];
    let b1 = bytes[btree + 3 * s + 1];
    let b2 = bytes[btree + 3 * s + 2];
    let left = (b1 % 16) as u16 * 256 + b0 as u16;
    let right = (b1 / 16) as u16 * 256 + b2 as u16;
    (left, right)
}

/// Resolve the expansion length of symbol `s`, resolving unvisited
/// children first. The tree of a well-formed table is a DAG, so the
/// depth never exceeds the symbol count; `fuel` bounds the descent and
/// a cyclic, corrupted tree exhausts it.
fn calc_symlen(
    bytes: &Vec<u8>,
    btree: usize,
    symlen: &mut Vec<u8>,
    visited: &mut Vec<bool>,
    s: usize,
    fuel: usize,
) -> (r: Result<(), ProbeError>)
    requires
        old(symlen)@.len() == old(visited)@.len(),
        old(symlen)@.len() <= 0xffff,
        s < old(symlen)@.len(),
        !old(visited)@[s as int],
        btree + 3 * old(symlen)@.len() <= bytes@.len(),
        forall|t: int|
            0 <= t < old(visited)@.len() && old(visited)@[t] ==> symlen_partial_ok(
                bytes@,
                btree as int,
                old(symlen)@,
                old(visited)@,
                t,
            ),
    ensures
        final(symlen)@.len() == old(symlen)@.len(),
        final(visited)@.len() == old(visited)@.len(),
        forall|t: int|
            0 <= t < old(visited)@.len() && old(visited)@[t] ==> final(visited)@[t]
                && final(symlen)@[t] == old(symlen)@[t],
        forall|t: int|
            0 <= t < old(visited)@.len() && final(visited)@[t] ==> symlen_partial_ok(
                bytes@,
                btree as int,
                final(symlen)@,
                final(visited)@,
                t,
            ),
        r is Ok ==> final(visited)@[s as int],
        r is Err ==> r->Err_0 == ProbeError::CorruptedTable,
    decreases fuel,
{
    if fuel == 0 {
        return Err(ProbeError::CorruptedTable);
    }
    let (left, right) = read_node(bytes, btree, s);
    if right == 0xfff {
        symlen.set(s, 0);
        visited.set(s, true);
        proof {
            assert forall|t: int|
                0 <= t < visited@.len() && visited@[t] implies symlen_partial_ok(
                bytes@,
                btree as int,
                symlen@,
                visited@,
                t,
            ) by {
                assert(old(visited)@[t] || t == s);
            }
        }
        Ok(())
    } else {
        let count = symlen.len();
        if left as usize >= count || right as usize >= count {
            return Err(ProbeError::CorruptedTable);
        }
        if !visited[left as usize] {
            match calc_symlen(bytes, btree, symlen, visited, left as usize, fuel - 1) {
                Ok(()) => (),
                Err(e) => {
                    return Err(e);
                },
            }
        }
        if !visited[right as usize] {
            match calc_symlen(bytes, btree, symlen, visited, right as usize, fuel - 1) {
                Ok(()) => (),
                Err(e) => {
                    return Err(e);
                },
            }
        }
        if visited[s] {
            // only a cyclic, corrupted tree can resolve `s` while
            // resolving its own children
            return Err(ProbeError::CorruptedTable);
        }
        let l = symlen[left as usize];
        let rr = symlen[right as usize];
        if l as u32 + rr as u32 + 1 > 255 {
            return Err(ProbeError::CorruptedTable);
        }
        symlen.set(s, l + rr + 1);
        visited.set(s, true);
        proof {
            assert forall|t: int|
                0 <= t < visited@.len() && visited@[t] implies symlen_partial_ok(
                bytes@,
                btree as int,
                symlen@,
                visited@,
                t,
            ) by {
            }
        }
        Ok(())
    }
}

/// Build the expansion length of every symbol from the symbol tree.
pub fn build_symlen(bytes: &Vec<u8>, btree: usize, count: usize) -> (r: Result<
    Vec<u8>,
    ProbeError,
>)
    requires
        count <= 0xffff,
        btree + 3 * count <= bytes@.len(),
    ensures
        r is Ok ==> {
            let symlen = r->Ok_0@;
            &&& symlen.len() == count
            &&& forall|t: int|
                0 <= t < count ==> symlen_node_ok(bytes@, btree as int, symlen, t)
        },
        r is Err ==> r->Err_0 == ProbeError::CorruptedTable,
{
    let mut symlen: Vec<u8> = Vec::new();
    let mut visited: Vec<bool> = Vec::new();
    let mut i: usize = 0;
    while i < count
        invariant
            symlen@.len() == i,
            visited@.len() == i,
            i <= count,
            forall|t: int| 0 <= t < i ==> !visited@[t],
        decreases count - i,
    {
        symlen.push(0);
        visited.push(false);
        i = i + 1;
    }
    let mut s: usize = 0;
    while s < count
        invariant
            symlen@.len() == count,
            visited@.len() == count,
            count <= 0xffff,
            btree + 3 * count <= bytes@.len(),
            s <= count,
            forall|t: int|
                0 <= t < count && visited@[t] ==> symlen_partial_ok(
                    bytes@,
                    btree as int,
                    symlen@,
                    visited@,
                    t,
                ),
            forall|t: int| 0 <= t < s ==> visited@[t],
        decreases count - s,
    {
        if !visited[s] {
            match calc_symlen(bytes, btree, &mut symlen, &mut visited, s, count) {
                Ok(()) => (),
                Err(e) => {
                    return Err(e);
                },
            }
        }
        s = s + 1;
    }
    proof {
        assert forall|t: int| 0 <= t < count implies symlen_node_ok(
            bytes@,
            btree as int,
            symlen@,
            t,
        ) by {
            assert(visited@[t]);
            assert(symlen_partial_ok(bytes@, btree as int, symlen@, visited@, t));
        }
    }
    Ok(symlen)
}

/// Shifting two adjacent base thresholds to their 64-bit positions
/// keeps their order when the lower one is at least half the higher.
proof fn lemma_shift_monotone(a: u64, b: u64, s: u64)
    by (bit_vector)
    requires
        1 <= s <= 32,
        a < (1u64 << s),
        b < (1u64 << (s + 1)),
        b <= 2 * a,
    ensures
        (a << ((64 - s) as u64)) >= (b << ((64 - (s + 1)) as u64)),
{
}

/// The decompression parameters of one (file, side) of a table.
pub struct PairsData {
    /// The grouped piece list this side indexes with.
    pub groups: GroupData,
    /// The layout flag byte.
    pub flags: u8,
    /// The one stored value, when the single-value flag is set.
    pub single_value: u8,
    /// Bytes per compressed block.
    pub block_size: u64,
    /// Values covered by one sparse-index entry.
    pub span: u64,
    /// Number of compressed blocks holding data.
    pub blocks_num: u32,
    /// Entries of the block-length table: `blocks_num` plus padding.
    pub block_length_size: u64,
    /// Entries of the sparse index.
    pub sparse_count: u64,
    /// Shortest code length.
    pub min_symlen: u8,
    /// Longest code length.
    pub max_symlen: u8,
    /// Offset of the per-length lowest-symbol table.
    pub lowest_sym: usize,
    /// Shifted Huffman base thresholds, one per code length.
    pub base: Vec<u64>,
    /// Per-symbol expansion length, one less than the bytes it yields.
    pub symlen: Vec<u8>,
    /// Offset of the symbol tree.
    pub btree: usize,
    /// Offset of the sparse index.
    pub sparse_index: usize,
    /// Offset of the block-length table.
    pub block_lengths: usize,
    /// Offset of the compressed data payload.
    pub data: usize,
}

impl PairsData {
    /// Whether this side stores one single value.
    pub open spec fn spec_single(self) -> bool {
        self.flags & FLAG_SINGLE_VALUE != 0
    }

    /// What parsing establishes of the header fields: code lengths in
    /// range, thresholds monotone and ending at zero, and the symbol
    /// tree resolved with consistent expansion lengths.
    pub open spec fn wf_header(self, bytes: Seq<u8>) -> bool {
        self.spec_single() || {
            let h = self.max_symlen - self.min_symlen + 1;
            &&& 1 <= self.min_symlen
            &&& self.min_symlen <= self.max_symlen
            &&& self.max_symlen <= 32
            &&& self.block_size >= 8
            &&& 1 <= self.span <= 0x4000_0000_0000_0000
            &&& self.block_length_size <= 0x1_0000_0100
            &&& self.base@.len() == h
            &&& self.base@[h - 1] == 0
            &&& forall|i: int| 0 <= i < h - 1 ==> #[trigger] self.base@[i] >= self.base@[i + 1]
            &&& self.lowest_sym + 2 * h <= bytes.len()
            &&& self.symlen@.len() <= 0xffff
            &&& self.btree + 3 * self.symlen@.len() <= bytes.len()
            &&& forall|s: int| #![trigger self.symlen@[s]]
                0 <= s < self.symlen@.len() ==> symlen_node_ok(
                    bytes,
                    self.btree as int,
                    self.symlen@,
                    s,
                )
        }
    }

    /// Every symbol of a parsed header satisfies the node relation.
    pub proof fn lemma_node_ok(self, bytes: Seq<u8>, s: int)
        requires
            self.wf_header(bytes),
            !self.spec_single(),
            0 <= s < self.symlen@.len(),
        ensures
            symlen_node_ok(bytes, self.btree as int, self.symlen@, s),
    {
        assert(self.symlen@[s] == self.symlen@[s]);
    }

    /// What region layout establishes: the sparse index, the block
    /// lengths and every data block lie inside the byte range.
    pub open spec fn wf_regions(self, bytes: Seq<u8>) -> bool {
        self.spec_single() || {
            &&& self.sparse_index + 6 * self.sparse_count <= bytes.len()
            &&& self.block_lengths + 2 * self.block_length_size <= bytes.len()
            &&& self.data + self.blocks_num * self.block_size <= bytes.len()
        }
    }

    /// Parse one side's decompression header at `ptr`, for a side whose
    /// group data indexes `size` values. Returns the parsed header and
    /// the offset just past it; the three region offsets are laid out
    /// by the table afterwards.
    #[verifier::rlimit(60)]
    pub fn parse(bytes: &Vec<u8>, ptr: usize, groups: GroupData, size: u64) -> (r: Result<
        (PairsData, usize),
        ProbeError,
    >)
        requires
            ptr <= bytes@.len(),
        ensures
            r is Ok ==> {
                let (pd, next) = r->Ok_0;
                &&& pd.wf_header(bytes@)
                &&& pd.groups == groups
                &&& ptr < next <= bytes@.len()
                &&& pd.flags == bytes@[ptr as int]
                &&& (pd.spec_single() ==> pd.single_value == bytes@[ptr + 1] && next == ptr + 2)
                &&& (!pd.spec_single() ==> {
                    let h = pd.max_symlen - pd.min_symlen + 1;
                    &&& pd.block_size == (1u64 << (bytes@[ptr + 1] as u64))
                    &&& pd.span == (1u64 << (bytes@[ptr + 2] as u64))
                    &&& pd.blocks_num == spec_u32_le(bytes@, ptr + 4)
                    &&& pd.max_symlen == bytes@[ptr + 8]
                    &&& pd.min_symlen == bytes@[ptr + 9]
                    &&& pd.lowest_sym == ptr + 10
                    &&& pd.btree == ptr + 12 + 2 * h
                    &&& pd.symlen@.len() == spec_u16_le(bytes@, ptr + 10 + 2 * h)
                    &&& pd.block_length_size == pd.blocks_num + bytes@[ptr + 3]
                    &&& pd.sparse_count == size / pd.span + (if size % pd.span != 0 {
                        1int
                    } else {
                        0int
                    })
                    &&& next == pd.btree + 3 * pd.symlen@.len() + (if pd.symlen@.len() % 2 == 1 {
                        1int
                    } else {
                        0int
                    })
                })
            },
            r is Err ==> r->Err_0 == ProbeError::CorruptedTable,
    {
        let blen = bytes.len();
        let avail = blen - ptr;
        if avail < 2 {
            return Err(ProbeError::CorruptedTable);
        }
        let flags = read_u8(bytes, ptr);
        if flags & FLAG_SINGLE_VALUE != 0 {
            let value = read_u8(bytes, ptr + 1);
            let pd = PairsData {
                groups,
                flags,
                single_value: value,
                block_size: 0,
                span: 0,
                blocks_num: 0,
                block_length_size: 0,
                sparse_count: 0,
                min_symlen: 0,
                max_symlen: 0,
                lowest_sym: 0,
                base: Vec::new(),
                symlen: Vec::new(),
                btree: 0,
                sparse_index: 0,
                block_lengths: 0,
                data: 0,
            };
            return Ok((pd, ptr + 2));
        }
        if avail < 12 {
            return Err(ProbeError::CorruptedTable);
        }
        let block_size_log = read_u8(bytes, ptr + 1);
        let span_log = read_u8(bytes, ptr + 2);
        let pad = read_u8(bytes, ptr + 3);
        let blocks_num = read_u32_le(bytes, ptr + 4);
        let max_symlen = read_u8(bytes, ptr + 8);
        let min_symlen = read_u8(bytes, ptr + 9);
        if min_symlen < 1 || max_symlen < min_symlen || max_symlen > 32 {
            return Err(ProbeError::CorruptedTable);
        }
        if block_size_log < 3 || block_size_log > 62 || span_log > 62 {
            return Err(ProbeError::CorruptedTable);
        }
        let block_size: u64 = 1u64 << (block_size_log as u64);
        let span: u64 = 1u64 << (span_log as u64);
        proof {
            assert(1u64 << (block_size_log as u64) >= 8 && 1u64 << (span_log as u64) >= 1
                && 1u64 << (span_log as u64) <= 0x4000_0000_0000_0000) by (bit_vector)
                requires
                    3 <= block_size_log < 63,
                    span_log <= 62,
            ;
        }
        let h: usize = (max_symlen - min_symlen) as usize + 1;
        if avail < 12 + 2 * h {
            return Err(ProbeError::CorruptedTable);
        }
        let lowest_sym = ptr + 10;
        let num_syms = read_u16_le(bytes, ptr + 10 + 2 * h) as usize;
        let btree = ptr + 12 + 2 * h;
        let tree_bytes = 3 * num_syms + (num_syms % 2);
        if avail < 12 + 2 * h + tree_bytes {
            return Err(ProbeError::CorruptedTable);
        }
        let symlen = match build_symlen(bytes, btree, num_syms) {
            Ok(v) => v,
            Err(e) => {
                return Err(e);
            },
        };

        // base thresholds, highest code length down to the lowest
        let mut base: Vec<u64> = Vec::new();
        let mut t: usize = 0;
        while t < h
            invariant
                t <= h,
                base@.len() == t,
                forall|j: int| 0 <= j < t ==> base@[j] == 0,
            decreases h - t,
        {
            base.push(0);
            t = t + 1;
        }
        let mut i: usize = h - 1;
        while i > 0
            invariant
                h <= 32,
                i < h,
                base@.len() == h,
                lowest_sym + 2 * h <= bytes@.len(),
                base@[h - 1] == 0,
                forall|j: int| 0 <= j < h ==> base@[j] <= 0xffff,
                forall|j: int| i <= j < h - 1 ==> 2 * #[trigger] base@[j] >= base@[j + 1],
            decreases i,
        {
            i = i - 1;
            let _n = bytes.len();
            let a = read_u16_le(bytes, lowest_sym + 2 * i) as u64;
            let b = read_u16_le(bytes, lowest_sym + 2 * (i + 1)) as u64;
            let sum = base[i + 1] + a;
            if sum < b {
                return Err(ProbeError::CorruptedTable);
            }
            let x = sum - b;
            let v = x / 2;
            if 2 * v < base[i + 1] {
                return Err(ProbeError::CorruptedTable);
            }
            if v > 0xffff {
                return Err(ProbeError::CorruptedTable);
            }
            base.set(i, v);
        }
        let ghost pre = base@;
        let mut i: usize = 0;
        while i < h
            invariant
                h <= 32,
                h == max_symlen - min_symlen + 1,
                1 <= min_symlen <= max_symlen <= 32,
                i <= h,
                base@.len() == h,
                pre.len() == h,
                pre[h - 1] == 0,
                forall|j: int| 0 <= j < h ==> pre[j] <= 0xffff,
                forall|j: int| 0 <= j < h - 1 ==> 2 * #[trigger] pre[j] >= pre[j + 1],
                forall|j: int| i <= j < h ==> #[trigger] base@[j] == pre[j],
                forall|j: int| 0 <= j < i ==> #[trigger] pre[j] < (1u64 << ((min_symlen + j) as u64)),
                forall|j: int|
                    0 <= j < i ==> #[trigger] base@[j] == (pre[j] << ((64 - (min_symlen + j)) as u64)),
            decreases h - i,
        {
            let s: u64 = min_symlen as u64 + i as u64;
            let bound = 1u64 << s;
            if base[i] >= bound {
                return Err(ProbeError::CorruptedTable);
            }
            proof {
                assert(s == (min_symlen + i) as u64);
                assert(base@[i as int] == pre[i as int]);
                assert(pre[i as int] < (1u64 << ((min_symlen + i) as u64)));
            }
            let shifted = base[i] << (64 - s);
            base.set(i, shifted);
            proof {
                assert(64 - s == (64 - (min_symlen + i)) as u64);
                assert(base@[i as int] == (pre[i as int] << ((64 - (min_symlen + i)) as u64)));
            }
            i = i + 1;
        }
        proof {
            let sl = (min_symlen + (h - 1)) as u64;
            assert(base@[h - 1] == (0u64 << ((64 - sl) as u64)));
            assert(forall|x: u64| 0u64 << x == 0) by (bit_vector);
            assert forall|j: int| 0 <= j < h - 1 implies #[trigger] base@[j] >= base@[j + 1] by {
                let sj = (min_symlen + j) as u64;
                assert((min_symlen + (j + 1)) as u64 == sj + 1);
                lemma_shift_monotone(pre[j], pre[j + 1], sj);
            }
        }

        let sparse_count = if size % span != 0 {
            match (size / span).checked_add(1) {
                Some(v) => v,
                None => {
                    return Err(ProbeError::CorruptedTable);
                },
            }
        } else {
            size / span
        };
        let pd = PairsData {
            groups,
            flags,
            single_value: 0,
            block_size,
            span,
            blocks_num,
            block_length_size: blocks_num as u64 + pad as u64,
            sparse_count,
            min_symlen,
            max_symlen,
            lowest_sym,
            base,
            symlen,
            btree,
            sparse_index: 0,
            block_lengths: 0,
            data: 0,
        };
        Ok((pd, ptr + 12 + 2 * h + tree_bytes))
    }
}

} // verus!
