//! Adaptive-Huffman + LZSS decoder ("LZH") for archive header chunks.
//!
//! A stream is a little-endian `u32` giving the decoded length, followed by a
//! bit stream of Huffman-coded symbols. Symbols below 256 are literal bytes;
//! the others are back-references into a 4096-byte sliding window.
use vstd::prelude::*;

use crate::bytes::{read_u32_le, spec_u32_le};

verus! {

/// Size of the sliding window.
pub const N: usize = 4096;

/// Longest match.
pub const F: usize = 60;

/// A match must be longer than this to be coded as a back-reference.
pub const THRESHOLD: usize = 2;

/// Number of symbols: the 256 literal bytes and the match lengths.
pub const N_CHAR: usize = 256 - THRESHOLD + F;

/// Number of nodes of the Huffman tree.
pub const T: usize = N_CHAR * 2 - 1;

/// Index of the root of the Huffman tree.
pub const R: usize = T - 1;

/// The tree is rescaled when the root's frequency reaches this value.
pub const MAX_FREQ: u32 = 0x4000;

// ---------------------------------------------------------------------------
// Distance tables
// ---------------------------------------------------------------------------

/// The high six bits of a match distance, indexed by the first byte of its
/// code (the format's `D_CODE` table).
pub open spec fn spec_d_code(i: u32) -> u32 {
    if i < 32 {
        0
    } else if i < 80 {
        (1 + (i - 32) / 16) as u32
    } else if i < 144 {
        (4 + (i - 80) / 8) as u32
    } else if i < 192 {
        (12 + (i - 144) / 4) as u32
    } else if i < 240 {
        (24 + (i - 192) / 2) as u32
    } else {
        (48 + (i - 240)) as u32
    }
}

/// The length in bits of a distance code, indexed by its first byte (the
/// format's `D_LEN` table).
pub open spec fn spec_d_len(i: u32) -> u32 {
    if i < 32 {
        3
    } else if i < 80 {
        4
    } else if i < 144 {
        5
    } else if i < 192 {
        6
    } else if i < 240 {
        7
    } else {
        8
    }
}

/// Entry `i` of the `D_CODE` table.
pub fn d_code(i: u8) -> (r: u8)
    ensures
        r as u32 == spec_d_code(i as u32),
        r < 64,
{
    if i < 32 {
        0
    } else if i < 80 {
        1 + (i - 32) / 16
    } else if i < 144 {
        4 + (i - 80) / 8
    } else if i < 192 {
        12 + (i - 144) / 4
    } else if i < 240 {
        24 + (i - 192) / 2
    } else {
        48 + (i - 240)
    }
}

/// Entry `i` of the `D_LEN` table.
pub fn d_len(i: u8) -> (r: u8)
    ensures
        r as u32 == spec_d_len(i as u32),
        3 <= r <= 8,
{
    if i < 32 {
        3
    } else if i < 80 {
        4
    } else if i < 144 {
        5
    } else if i < 192 {
        6
    } else if i < 240 {
        7
    } else {
        8
    }
}

// ---------------------------------------------------------------------------
// Bit reader
// ---------------------------------------------------------------------------

/// The state of the bit reader: the position of the next input byte, and a
/// reservoir whose top 16 bits hold `len` unread bits.
pub struct Bits {
    pub pos: int,
    pub buf: u32,
    pub len: u32,
}

/// The input byte at `pos`, or 0 past the end of the input.
pub open spec fn byte_at(input: Seq<u8>, pos: int) -> u32 {
    if 0 <= pos < input.len() {
        input[pos] as u32
    } else {
        0
    }
}

/// Moves one input byte into the reservoir. Past the end of the input the
/// position stays and zero bits come in.
pub open spec fn refill_once(input: Seq<u8>, b: Bits) -> Bits {
    Bits {
        pos: if b.pos < input.len() {
            b.pos + 1
        } else {
            b.pos
        },
        buf: b.buf | (byte_at(input, b.pos) << (8 - b.len) as u32),
        len: (b.len + 8) as u32,
    }
}

/// Refills the reservoir until it holds more than eight bits.
pub open spec fn refill(input: Seq<u8>, b: Bits) -> Bits {
    if b.len <= 8 {
        let b1 = refill_once(input, b);
        if b1.len <= 8 {
            refill_once(input, b1)
        } else {
            b1
        }
    } else {
        b
    }
}

/// Reads one bit: the reader's state after it, and the bit.
pub open spec fn read_bit(input: Seq<u8>, b: Bits) -> (Bits, u32) {
    let b1 = refill(input, b);
    (Bits { pos: b1.pos, buf: b1.buf << 1, len: (b1.len - 1) as u32 }, (b1.buf & 0x8000) >> 15)
}

/// Reads eight bits: the reader's state after them, and their value.
pub open spec fn read_byte(input: Seq<u8>, b: Bits) -> (Bits, u32) {
    let b1 = refill(input, b);
    (Bits { pos: b1.pos, buf: b1.buf << 8, len: (b1.len - 8) as u32 }, (b1.buf & 0xFF00) >> 8)
}

/// Reads the bits of a stream from a byte slice.
pub struct BitReader<'a> {
    input: &'a [u8],
    pos: usize,
    get_buf: u32,
    get_len: u32,
}

impl<'a> BitReader<'a> {
    pub closed spec fn input(&self) -> Seq<u8> {
        self.input@
    }

    pub closed spec fn state(&self) -> Bits {
        Bits { pos: self.pos as int, buf: self.get_buf, len: self.get_len }
    }

    pub closed spec fn wf(&self) -> bool {
        self.pos <= self.input@.len()
    }

    /// A reader positioned at byte `pos` of `input`, with an empty reservoir.
    pub fn new(input: &'a [u8], pos: usize) -> (r: BitReader<'a>)
        requires
            pos <= input@.len(),
        ensures
            r.wf(),
            r.input() == input@,
            r.state() == (Bits { pos: pos as int, buf: 0, len: 0 }),
    {
        BitReader { input, pos, get_buf: 0, get_len: 0 }
    }

    /// The next input byte, or 0 at the end of the input.
    fn getb(&mut self) -> (r: u32)
        requires
            old(self).wf(),
        ensures
            final(self).wf(),
            final(self).input() == old(self).input(),
            r == byte_at(old(self).input(), old(self).pos as int),
            final(self).pos == (if old(self).pos < old(self).input().len() {
                old(self).pos + 1
            } else {
                old(self).pos as int
            }),
            final(self).get_buf == old(self).get_buf,
            final(self).get_len == old(self).get_len,
    {
        if self.pos < self.input.len() {
            let b = self.input[self.pos];
            self.pos = self.pos + 1;
            b as u32
        } else {
            0
        }
    }

    fn refill_once(&mut self)
        requires
            old(self).wf(),
            old(self).get_len <= 8,
        ensures
            final(self).wf(),
            final(self).input() == old(self).input(),
            final(self).state() == refill_once(old(self).input(), old(self).state()),
    {
        let i = self.getb();
        self.get_buf = self.get_buf | (i << (8 - self.get_len));
        self.get_len = self.get_len + 8;
    }

    fn refill(&mut self)
        requires
            old(self).wf(),
        ensures
            final(self).wf(),
            final(self).input() == old(self).input(),
            final(self).state() == refill(old(self).input(), old(self).state()),
            final(self).get_len > 8,
    {
        if self.get_len <= 8 {
            self.refill_once();
            if self.get_len <= 8 {
                self.refill_once();
            }
        }
    }

    /// Reads one bit.
    pub fn get_bit(&mut self) -> (r: u32)
        requires
            old(self).wf(),
        ensures
            final(self).wf(),
            final(self).input() == old(self).input(),
            (final(self).state(), r) == read_bit(old(self).input(), old(self).state()),
            r <= 1,
    {
        self.refill();
        let i = self.get_buf;
        self.get_buf = self.get_buf << 1;
        self.get_len = self.get_len - 1;
        assert((i & 0x8000) >> 15 <= 1) by (bit_vector);
        (i & 0x8000) >> 15
    }

    /// Reads eight bits.
    pub fn get_byte(&mut self) -> (r: u32)
        requires
            old(self).wf(),
        ensures
            final(self).wf(),
            final(self).input() == old(self).input(),
            (final(self).state(), r) == read_byte(old(self).input(), old(self).state()),
            r <= 255,
    {
        self.refill();
        let i = self.get_buf;
        self.get_buf = self.get_buf << 8;
        self.get_len = self.get_len - 8;
        assert((i & 0xFF00) >> 8 <= 255) by (bit_vector);
        (i & 0xFF00) >> 8
    }
}

// ---------------------------------------------------------------------------
// Adaptive Huffman tree
// ---------------------------------------------------------------------------

/// The Huffman tree as three flat arrays. Node `i < T` has frequency
/// `freq[i]`; `son[i]` is either `T + s` for a leaf of symbol `s`, or the
/// index of the first of two consecutive children. `parent` maps nodes, and
/// at `T + s` the symbol `s`, to the node above them. `freq[T]` is a
/// sentinel that stops the sibling search of `update`.
pub struct Tree {
    pub freq: Seq<u32>,
    pub son: Seq<u32>,
    pub parent: Seq<u32>,
}

/// A value that `son` may hold: a leaf code, or a node with a right sibling.
pub open spec fn son_ok(v: u32) -> bool {
    v < T + N_CHAR && (v < T ==> v + 1 < T)
}

/// The shape that keeps every index of the decoder in bounds.
pub open spec fn tree_wf(t: Tree) -> bool {
    &&& t.freq.len() == T + 1
    &&& t.son.len() == T
    &&& t.parent.len() == T + N_CHAR + 1
    &&& forall|i: int| 0 <= i < T ==> son_ok(#[trigger] t.son[i])
    &&& forall|i: int| 0 <= i < T + N_CHAR + 1 ==> #[trigger] t.parent[i] < T
}

/// The leaves: symbol `i` has frequency 1 and sits at node `i`.
pub open spec fn init_leaves(t: Tree, i: nat) -> Tree
    decreases N_CHAR - i,
{
    if i < N_CHAR {
        init_leaves(
            Tree {
                freq: t.freq.update(i as int, 1),
                son: t.son.update(i as int, (i + T) as u32),
                parent: t.parent.update(i + T as int, i as u32),
            },
            i + 1,
        )
    } else {
        t
    }
}

/// The inner nodes: node `j` joins nodes `i` and `i + 1`.
pub open spec fn init_nodes(t: Tree, i: nat, j: nat) -> Tree
    decreases T - j,
{
    if j < T {
        init_nodes(
            Tree {
                freq: t.freq.update(j as int, t.freq[i as int].wrapping_add(t.freq[i + 1int])),
                son: t.son.update(j as int, i as u32),
                parent: t.parent.update(i as int, j as u32).update(i + 1int, j as u32),
            },
            i + 2,
            j + 1,
        )
    } else {
        t
    }
}

/// The tree every stream starts from.
pub open spec fn start_tree() -> Tree {
    let zero = Tree {
        freq: Seq::new((T + 1) as nat, |i: int| 0u32),
        son: Seq::new(T as nat, |i: int| 0u32),
        parent: Seq::new((T + N_CHAR + 1) as nat, |i: int| 0u32),
    };
    let t = init_nodes(init_leaves(zero, 0), 0, N_CHAR as nat);
    Tree { freq: t.freq.update(T as int, 0xFFFF), son: t.son, parent: t.parent.update(R as int, 0) }
}

/// Halves a frequency, rounding up.
pub open spec fn half_up(f: u32) -> u32 {
    (f / 2 + f % 2) as u32
}

/// Moves the leaves to the front, halving their frequencies.
pub open spec fn compact(t: Tree, i: nat, j: nat) -> Tree
    decreases T - i,
{
    if i < T {
        if t.son[i as int] >= T {
            compact(
                Tree {
                    freq: t.freq.update(j as int, half_up(t.freq[i as int])),
                    son: t.son.update(j as int, t.son[i as int]),
                    parent: t.parent,
                },
                i + 1,
                j + 1,
            )
        } else {
            compact(t, i + 1, j)
        }
    } else {
        t
    }
}

/// Where a node of frequency `f` goes among `freq[0..k]`: after every node
/// whose frequency is at most `f`, counting down from `k`.
pub open spec fn insertion_point(freq: Seq<u32>, f: u32, k: nat) -> nat
    decreases k,
{
    if k > 0 && f < freq[k - 1] {
        insertion_point(freq, f, (k - 1) as nat)
    } else {
        k
    }
}

/// `s` with `v` inserted at `k`, the entries `k..j` moved up by one and
/// entry `j` dropped.
pub open spec fn insert_at(s: Seq<u32>, k: int, j: int, v: u32) -> Seq<u32> {
    s.subrange(0, k).push(v) + s.subrange(k, j) + s.subrange(j + 1, s.len() as int)
}

/// Rebuilds the inner nodes in order of frequency.
pub open spec fn rebuild(t: Tree, i: nat, j: nat) -> Tree
    decreases T - j,
{
    if j < T {
        let f = t.freq[i as int].wrapping_add(t.freq[i + 1int]);
        let k = insertion_point(t.freq, f, j) as int;
        rebuild(
            Tree {
                freq: insert_at(t.freq, k, j as int, f),
                son: insert_at(t.son, k, j as int, i as u32),
                parent: t.parent,
            },
            i + 2,
            j + 1,
        )
    } else {
        t
    }
}

/// Points every child, and every leaf code, at its node.
pub open spec fn relink(t: Tree, i: nat) -> Tree
    decreases T - i,
{
    if i < T {
        let k = t.son[i as int] as int;
        let p = t.parent.update(k, i as u32);
        relink(
            Tree {
                freq: t.freq,
                son: t.son,
                parent: if k < T {
                    p.update(k + 1, i as u32)
                } else {
                    p
                },
            },
            i + 1,
        )
    } else {
        t
    }
}

/// The tree after its frequencies are halved and its shape rebuilt.
pub open spec fn reconst(t: Tree) -> Tree {
    relink(rebuild(compact(t, 0, 0), 0, N_CHAR as nat), 0)
}

/// The first `l >= from` that is `T` or has a frequency of at least `k`.
pub open spec fn search_up(freq: Seq<u32>, k: u32, from: nat) -> nat
    decreases T + 1 - from,
{
    if from < T && k > freq[from as int] {
        search_up(freq, k, from + 1)
    } else {
        from
    }
}

/// Adds one to the frequency of node `c`; if that breaks the order of
/// frequencies, `c` trades places with the last node of a lower frequency.
/// Returns the tree and the node's new index.
pub open spec fn bump(t: Tree, c: u32) -> (Tree, u32) {
    let k = t.freq[c as int].wrapping_add(1);
    let freq = t.freq.update(c as int, k);
    if c + 1 < T && k > freq[c + 1] {
        let l = (search_up(freq, k, (c + 2) as nat) - 1) as int;
        let i = t.son[c as int] as int;
        let pa = t.parent.update(i, l as u32);
        let pb = if i < T {
            pa.update(i + 1, l as u32)
        } else {
            pa
        };
        let j = t.son[l] as int;
        let pc = pb.update(j, c);
        let pd = if j < T {
            pc.update(j + 1, c)
        } else {
            pc
        };
        (
            Tree {
                freq: freq.update(c as int, freq[l]).update(l, k),
                son: t.son.update(l, i as u32).update(c as int, j as u32),
                parent: pd,
            },
            l as u32,
        )
    } else {
        (Tree { freq, son: t.son, parent: t.parent }, c)
    }
}

/// Walks from node `c` to the root, bumping each node on the way. A tree
/// of this shape is at most `T` nodes deep; the count keeps the walk finite
/// whatever the arrays hold.
pub open spec fn climb(t: Tree, c: u32, steps: nat) -> Tree
    decreases T - steps,
{
    if steps < T {
        let (t1, c1) = bump(t, c);
        let up = t1.parent[c1 as int];
        if up == 0 {
            t1
        } else {
            climb(t1, up, steps + 1)
        }
    } else {
        t
    }
}

/// The tree after symbol `c` has been seen once more.
pub open spec fn update(t: Tree, c: u32) -> Tree {
    let t1 = if t.freq[R as int] == MAX_FREQ {
        reconst(t)
    } else {
        t
    };
    climb(t1, t1.parent[c + T], 0)
}

/// The tree with every array entry zero.
pub open spec fn zero_tree() -> Tree {
    Tree {
        freq: Seq::new((T + 1) as nat, |i: int| 0u32),
        son: Seq::new(T as nat, |i: int| 0u32),
        parent: Seq::new((T + N_CHAR + 1) as nat, |i: int| 0u32),
    }
}

/// Inserts `x` at `k` into `v`, moving the entries `k..j` up by one and
/// dropping entry `j`.
fn insert_shifted(v: &mut Vec<u32>, k: usize, j: usize, x: u32)
    requires
        k <= j < old(v).len(),
    ensures
        final(v)@ == insert_at(old(v)@, k as int, j as int, x),
        final(v)@.len() == old(v)@.len(),
        forall|m: int| 0 <= m < k ==> #[trigger] final(v)@[m] == old(v)@[m],
        final(v)@[k as int] == x,
        forall|m: int| k < m <= j ==> #[trigger] final(v)@[m] == old(v)@[m - 1],
        forall|m: int| j < m < old(v)@.len() ==> #[trigger] final(v)@[m] == old(v)@[m],
{
    let ghost orig = v@;
    let mut m = j;
    while m > k
        invariant
            k <= m <= j < orig.len(),
            v@.len() == orig.len(),
            forall|q: int| 0 <= q <= m ==> #[trigger] v@[q] == orig[q],
            forall|q: int| m < q <= j ==> #[trigger] v@[q] == orig[q - 1],
            forall|q: int| j < q < orig.len() ==> #[trigger] v@[q] == orig[q],
        decreases m,
    {
        let prev = v[m - 1];
        v.set(m, prev);
        m = m - 1;
    }
    v.set(k, x);
    assert(v@ =~= insert_at(orig, k as int, j as int, x));
}

/// The adaptive Huffman tree of one decode.
///
/// In a tree of this shape every frequency is at most the root's, which is
/// rescaled when it reaches `MAX_FREQ`; sums of frequencies wrap rather
/// than fail, so that every step is defined on any array contents.
pub struct HuffTree {
    freq: Vec<u32>,
    son: Vec<u32>,
    parent: Vec<u32>,
}

impl View for HuffTree {
    type V = Tree;

    closed spec fn view(&self) -> Tree {
        Tree { freq: self.freq@, son: self.son@, parent: self.parent@ }
    }
}

impl HuffTree {
    /// The tree that every stream starts from.
    pub fn new() -> (r: HuffTree)
        ensures
            r@ == start_tree(),
            tree_wf(r@),
    {
        let mut t = HuffTree { freq: vec![0u32; T + 1], son: vec![0u32; T], parent: vec![0u32; T + N_CHAR + 1] };
        assert(t.freq@ =~= zero_tree().freq);
        assert(t.son@ =~= zero_tree().son);
        assert(t.parent@ =~= zero_tree().parent);
        t.start_huff();
        t
    }

    /// Builds the initial tree: every symbol has frequency 1, and node
    /// `N_CHAR + m` joins nodes `2m` and `2m + 1`.
    fn start_huff(&mut self)
        requires
            old(self)@ == zero_tree(),
        ensures
            final(self)@ == start_tree(),
            tree_wf(final(self)@),
    {
        let ghost leaves = init_leaves(zero_tree(), 0);
        let mut i: usize = 0;
        while i < N_CHAR
            invariant
                i <= N_CHAR,
                init_leaves(self@, i as nat) == leaves,
                tree_wf(self@),
            decreases N_CHAR - i,
        {
            self.freq.set(i, 1);
            self.son.set(i, (i + T) as u32);
            self.parent.set(i + T, i as u32);
            i = i + 1;
        }
        let ghost nodes = init_nodes(leaves, 0, N_CHAR as nat);
        let mut i: usize = 0;
        let mut j: usize = N_CHAR;
        while j <= R
            invariant
                N_CHAR <= j <= T,
                i == 2 * (j - N_CHAR),
                init_nodes(self@, i as nat, j as nat) == nodes,
                tree_wf(self@),
            decreases T - j,
        {
            let f = self.freq[i].wrapping_add(self.freq[i + 1]);
            self.freq.set(j, f);
            self.son.set(j, i as u32);
            self.parent.set(i, j as u32);
            self.parent.set(i + 1, j as u32);
            i = i + 2;
            j = j + 1;
        }
        self.freq.set(T, 0xFFFF);
        self.parent.set(R, 0);
    }

    /// Halves every frequency and rebuilds the tree in order of frequency.
    fn reconst(&mut self)
        requires
            tree_wf(old(self)@),
        ensures
            final(self)@ == reconst(old(self)@),
            tree_wf(final(self)@),
    {
        let ghost compacted = compact(self@, 0, 0);
        let mut i: usize = 0;
        let mut j: usize = 0;
        while i < T
            invariant
                j <= i <= T,
                compact(self@, i as nat, j as nat) == compacted,
                tree_wf(self@),
            decreases T - i,
        {
            if self.son[i] as usize >= T {
                let f = self.freq[i];
                self.freq.set(j, f / 2 + f % 2);
                let s = self.son[i];
                self.son.set(j, s);
                j = j + 1;
            }
            i = i + 1;
        }
        let ghost rebuilt = rebuild(compacted, 0, N_CHAR as nat);
        let mut i: usize = 0;
        let mut j: usize = N_CHAR;
        while j < T
            invariant
                N_CHAR <= j <= T,
                i == 2 * (j - N_CHAR),
                rebuild(self@, i as nat, j as nat) == rebuilt,
                tree_wf(self@),
            decreases T - j,
        {
            let f = self.freq[i].wrapping_add(self.freq[i + 1]);
            let mut k = j;
            while k > 0 && f < self.freq[k - 1]
                invariant
                    k <= j < T,
                    self.freq@.len() == T + 1,
                    insertion_point(self.freq@, f, k as nat) == insertion_point(self.freq@, f, j as nat),
                decreases k,
            {
                k = k - 1;
            }
            insert_shifted(&mut self.freq, k, j, f);
            insert_shifted(&mut self.son, k, j, i as u32);
            i = i + 2;
            j = j + 1;
        }
        let ghost relinked = relink(rebuilt, 0);
        let mut i: usize = 0;
        while i < T
            invariant
                i <= T,
                relink(self@, i as nat) == relinked,
                tree_wf(self@),
            decreases T - i,
        {
            let k = self.son[i] as usize;
            self.parent.set(k, i as u32);
            if k < T {
                self.parent.set(k + 1, i as u32);
            }
            i = i + 1;
        }
    }

    /// One step of `update`: counts node `c` once more and, where its
    /// frequency now exceeds that of the next node, swaps it with the last
    /// node of a lower frequency. Returns the node's new index.
    fn bump(&mut self, c: u32) -> (r: u32)
        requires
            tree_wf(old(self)@),
            c < T,
        ensures
            (final(self)@, r) == bump(old(self)@, c),
            tree_wf(final(self)@),
            r < T,
    {
        let c = c as usize;
        let k = self.freq[c].wrapping_add(1);
        self.freq.set(c, k);
        if c + 1 < T && k > self.freq[c + 1] {
            let mut l = c + 2;
            while l < T && k > self.freq[l]
                invariant
                    c + 2 <= l <= T,
                    self.freq@.len() == T + 1,
                    search_up(self.freq@, k, l as nat) == search_up(self.freq@, k, (c + 2) as nat),
                decreases T - l,
            {
                l = l + 1;
            }
            l = l - 1;
            let fl = self.freq[l];
            self.freq.set(c, fl);
            self.freq.set(l, k);
            let i = self.son[c];
            self.parent.set(i as usize, l as u32);
            if (i as usize) < T {
                self.parent.set(i as usize + 1, l as u32);
            }
            let j = self.son[l];
            self.son.set(l, i);
            self.parent.set(j as usize, c as u32);
            if (j as usize) < T {
                self.parent.set(j as usize + 1, c as u32);
            }
            self.son.set(c, j);
            l as u32
        } else {
            c as u32
        }
    }

    /// Counts one more occurrence of symbol `c`, rescaling first when the
    /// root's frequency has reached `MAX_FREQ`.
    pub fn update(&mut self, c: u32)
        requires
            tree_wf(old(self)@),
            c < N_CHAR,
        ensures
            final(self)@ == update(old(self)@, c),
            tree_wf(final(self)@),
    {
        if self.freq[R] == MAX_FREQ {
            self.reconst();
        }
        let ghost target = update(old(self)@, c);
        let mut c = self.parent[c as usize + T];
        let mut steps: usize = 0;
        let mut done = false;
        while !done && steps < T
            invariant
                steps <= T,
                c < T,
                tree_wf(self@),
                done ==> self@ == target,
                !done ==> climb(self@, c, steps as nat) == target,
            decreases T - steps,
        {
            let l = self.bump(c);
            let up = self.parent[l as usize];
            if up == 0 {
                done = true;
            } else {
                c = up;
            }
            steps = steps + 1;
        }
    }
}

// ---------------------------------------------------------------------------
// Decoding
// ---------------------------------------------------------------------------

/// Follows the bits of the input from node `c` down the tree to a leaf code.
/// A tree of this shape reaches a leaf within `T` steps; the count keeps the
/// walk finite whatever the arrays hold.
pub open spec fn walk(input: Seq<u8>, son: Seq<u32>, b: Bits, c: u32, steps: nat) -> (Bits, u32)
    decreases T - steps,
{
    if c < T && steps < T {
        let (b1, bit) = read_bit(input, b);
        walk(input, son, b1, son[c + bit], steps + 1)
    } else {
        (b, c)
    }
}

/// Decodes one symbol and counts it in the tree.
pub open spec fn decode_char(input: Seq<u8>, t: Tree, b: Bits) -> (Tree, Bits, u32) {
    let (b1, c) = walk(input, t.son, b, t.son[R as int], 0);
    let sym = if c >= T {
        (c - T) as u32
    } else {
        0
    };
    (update(t, sym), b1, sym)
}

/// Appends `j` more bits of the input to `i`.
pub open spec fn more_bits(input: Seq<u8>, b: Bits, i: u32, j: nat) -> (Bits, u32)
    decreases j,
{
    if j > 0 {
        let (b1, bit) = read_bit(input, b);
        more_bits(input, b1, (i << 1) | bit, (j - 1) as nat)
    } else {
        (b, i)
    }
}

/// Decodes the distance of a back-reference: its high six bits come from the
/// tables, its low six bits from the input.
pub open spec fn decode_position(input: Seq<u8>, b: Bits) -> (Bits, u32) {
    let (b1, i) = read_byte(input, b);
    let c = spec_d_code(i) << 6;
    let (b2, i2) = more_bits(input, b1, i, (spec_d_len(i) - 2) as nat);
    (b2, c | (i2 & 0x3F))
}

/// The decoder's state: the tree, the bit reader, the window, the output
/// so far and the window's write cursor.
pub struct State {
    pub tree: Tree,
    pub bits: Bits,
    pub window: Seq<u8>,
    pub out: Seq<u8>,
    pub r: int,
}

/// The window before the first symbol: spaces, but for its last `F` bytes.
pub open spec fn initial_window() -> Seq<u8> {
    Seq::new((N + F) as nat, |i: int| if i < N - F { 0x20u8 } else { 0u8 })
}

/// The state after the length prefix.
pub open spec fn initial_state() -> State {
    State {
        tree: start_tree(),
        bits: Bits { pos: 4, buf: 0, len: 0 },
        window: initial_window(),
        out: Seq::empty(),
        r: (N - F) as int,
    }
}

/// Copies `j - k` more bytes of a match from window position `i + k` on,
/// to the output and to the window at `r`.
pub open spec fn copy_match(window: Seq<u8>, out: Seq<u8>, i: int, r: int, k: nat, j: nat) -> (
    Seq<u8>,
    Seq<u8>,
    int,
)
    decreases j - k,
{
    if k < j {
        let b = window[(i + k) % (N as int)];
        copy_match(window.update(r, b), out.push(b), i, (r + 1) % (N as int), k + 1, j)
    } else {
        (window, out, r)
    }
}

/// Decodes symbols until at least `size` bytes have been written; `count`
/// have been so far.
pub open spec fn run(input: Seq<u8>, st: State, count: nat, size: nat) -> State
    decreases (if count < size {
        size - count
    } else {
        0
    }),
{
    if count < size {
        let dc = decode_char(input, st.tree, st.bits);
        let c = dc.2;
        if c < 256 {
            run(
                input,
                State {
                    tree: dc.0,
                    bits: dc.1,
                    window: st.window.update(st.r, c as u8),
                    out: st.out.push(c as u8),
                    r: (st.r + 1) % (N as int),
                },
                count + 1,
                size,
            )
        } else {
            let dp = decode_position(input, dc.1);
            let i = (st.r + N - dp.1 - 1) % (N as int);
            let j: nat = (c - 253) as nat;
            let m = copy_match(st.window, st.out, i, st.r, 0, j);
            run(input, State { tree: dc.0, bits: dp.0, window: m.0, out: m.1, r: m.2 }, count + j, size)
        }
    } else {
        st
    }
}

/// What an LZH stream decodes to: nothing when it is too short to hold its
/// length prefix; else the bytes written until the prefix's count is reached.
/// A match that crosses the count is written whole, and past the end of
/// the input the bits read as zero.
pub open spec fn lzh_decode(input: Seq<u8>) -> Option<Seq<u8>> {
    if input.len() < 4 {
        None
    } else {
        Some(run(input, initial_state(), 0, spec_u32_le(input, 0) as nat).out)
    }
}

/// Why a stream could not be decoded.
#[derive(Debug, PartialEq, Eq, Structural)]
pub enum DecodeError {
    /// The stream is shorter than its four-byte length prefix.
    MissingLength,
}

/// Decodes one LZH stream. Each decoder owns its tree and window, and is
/// used for one stream only.
pub struct Decoder<'a> {
    input: &'a [u8],
    bits: BitReader<'a>,
    tree: HuffTree,
    text_buf: Vec<u8>,
    output: Vec<u8>,
}

proof fn lemma_low_byte(c: u32)
    requires
        c < 256,
    ensures
        (c & 0xFF) as u8 == c as u8,
{
    assert((c & 0xFF) as u8 == c as u8) by (bit_vector)
        requires
            c < 256,
    ;
}

proof fn lemma_byte_roundtrip(b: u8)
    ensures
        ((b as u32) & 0xFF) as u8 == b,
{
    assert(((b as u32) & 0xFF) as u8 == b) by (bit_vector);
}

proof fn lemma_position_bound(code: u32, i: u32)
    requires
        code < 64,
    ensures
        (code << 6) | (i & 0x3F) < 4096,
{
    assert((code << 6) | (i & 0x3F) < 4096) by (bit_vector)
        requires
            code < 64,
    ;
}

impl<'a> Decoder<'a> {
    pub closed spec fn input(&self) -> Seq<u8> {
        self.input@
    }

    /// Whether the decoder is as `new` made it.
    pub closed spec fn fresh(&self) -> bool {
        &&& self.bits.input() == self.input@
        &&& self.bits.wf()
        &&& self.tree@ == start_tree()
        &&& tree_wf(self.tree@)
        &&& self.text_buf@.len() == N + F
        &&& forall|i: int| 0 <= i < N + F ==> #[trigger] self.text_buf@[i] == 0
        &&& self.output@.len() == 0
    }

    closed spec fn state(&self, r: int) -> State {
        State {
            tree: self.tree@,
            bits: self.bits.state(),
            window: self.text_buf@,
            out: self.output@,
            r,
        }
    }

    closed spec fn wf(&self) -> bool {
        &&& self.bits.input() == self.input@
        &&& self.bits.wf()
        &&& tree_wf(self.tree@)
        &&& self.text_buf@.len() == N + F
    }

    /// A decoder for the stream `input`.
    pub fn new(input: &'a [u8]) -> (r: Decoder<'a>)
        ensures
            r.input() == input@,
            r.fresh(),
    {
        Decoder {
            input,
            bits: BitReader::new(input, 0),
            tree: HuffTree::new(),
            text_buf: vec![0u8; N + F],
            output: Vec::new(),
        }
    }

    fn init_output(&mut self, text_size: u32)
        ensures
            final(self).output@.len() == 0,
            final(self).input@ == old(self).input@,
            final(self).bits.state() == old(self).bits.state(),
            final(self).bits.input() == old(self).bits.input(),
            final(self).tree@ == old(self).tree@,
            final(self).text_buf@ == old(self).text_buf@,
    {
        self.output = Vec::with_capacity(text_size as usize);
    }

    fn putb(&mut self, c: u32)
        ensures
            final(self).output@ == old(self).output@.push((c & 0xFF) as u8),
            final(self).input@ == old(self).input@,
            final(self).bits.state() == old(self).bits.state(),
            final(self).bits.input() == old(self).bits.input(),
            final(self).tree@ == old(self).tree@,
            final(self).text_buf@ == old(self).text_buf@,
    {
        self.output.push((c & 0xFF) as u8);
    }

    /// Decodes one symbol: a byte below 256, a match length above.
    fn decode_char(&mut self) -> (r: u32)
        requires
            old(self).wf(),
        ensures
            final(self).wf(),
            final(self).input@ == old(self).input@,
            final(self).text_buf@ == old(self).text_buf@,
            final(self).output@ == old(self).output@,
            (final(self).tree@, final(self).bits.state(), r) == decode_char(
                old(self).input@,
                old(self).tree@,
                old(self).bits.state(),
            ),
            r < N_CHAR,
    {
        let ghost input = self.input@;
        let ghost son = self.tree@.son;
        let ghost target = walk(input, son, self.bits.state(), son[R as int], 0);
        let ghost window = self.text_buf@;
        let ghost out = self.output@;
        let mut c = self.tree.son[R];
        let mut steps: usize = 0;
        while c < T as u32 && steps < T
            invariant
                self.wf(),
                self.input@ == input,
                self.tree@ == old(self).tree@,
                self.tree@.son == son,
                self.text_buf@ == window,
                self.output@ == out,
                son_ok(c),
                steps <= T,
                walk(input, son, self.bits.state(), c, steps as nat) == target,
            decreases T - steps,
        {
            let b = self.bits.get_bit();
            c = self.tree.son[(c + b) as usize];
            steps = steps + 1;
        }
        let sym = if c >= T as u32 {
            c - T as u32
        } else {
            0
        };
        self.tree.update(sym);
        sym
    }

    /// Decodes the distance of a back-reference.
    fn decode_position(&mut self) -> (r: u32)
        requires
            old(self).wf(),
        ensures
            final(self).wf(),
            final(self).input@ == old(self).input@,
            final(self).tree@ == old(self).tree@,
            final(self).text_buf@ == old(self).text_buf@,
            final(self).output@ == old(self).output@,
            (final(self).bits.state(), r) == decode_position(old(self).input@, old(self).bits.state()),
            r < N,
    {
        let ghost input = self.input@;
        let mut i = self.bits.get_byte();
        let code = d_code(i as u8) as u32;
        let c = code << 6;
        let mut j = d_len(i as u8) - 2;
        let ghost target = more_bits(input, self.bits.state(), i, j as nat);
        let ghost window = self.text_buf@;
        let ghost out = self.output@;
        let ghost tree = self.tree@;
        while j > 0
            invariant
                self.wf(),
                self.input@ == input,
                self.text_buf@ == window,
                self.output@ == out,
                self.tree@ == tree,
                more_bits(input, self.bits.state(), i, j as nat) == target,
            decreases j,
        {
            let b = self.bits.get_bit();
            i = (i << 1) | b;
            j = j - 1;
        }
        proof {
            lemma_position_bound(code, i);
        }
        c | (i & 0x3F)
    }

    /// Decodes the whole stream.
    pub fn decode(self) -> (r: Result<Vec<u8>, DecodeError>)
        requires
            self.fresh(),
        ensures
            match r {
                Ok(v) => lzh_decode(self.input()) == Some(v@),
                Err(e) => lzh_decode(self.input()) is None && e == DecodeError::MissingLength,
            },
    {
        let mut d = self;
        let ghost input = d.input@;
        if d.input.len() < 4 {
            return Err(DecodeError::MissingLength);
        }
        let text_size = read_u32_le(d.input, 0);
        d.bits = BitReader::new(d.input, 4);
        let ghost target = run(input, initial_state(), 0, text_size as nat);
        if text_size == 0 {
            return Ok(Vec::new());
        }
        d.init_output(text_size);
        let mut i: usize = 0;
        while i < N - F
            invariant
                i <= N - F,
                d.wf(),
                d.input@ == input,
                d.bits.state() == (Bits { pos: 4, buf: 0, len: 0 }),
                d.tree@ == start_tree(),
                d.output@.len() == 0,
                d.text_buf@.len() == N + F,
                forall|m: int| 0 <= m < i ==> #[trigger] d.text_buf@[m] == 0x20,
                forall|m: int| i <= m < N + F ==> #[trigger] d.text_buf@[m] == 0,
            decreases N - F - i,
        {
            d.text_buf.set(i, 0x20);
            i = i + 1;
        }
        assert(d.text_buf@ =~= initial_window());
        assert(d.output@ =~= Seq::<u8>::empty());
        let mut r: usize = N - F;
        let mut count: u64 = 0;
        while count < text_size as u64
            invariant
                d.wf(),
                d.input@ == input,
                r < N,
                run(input, d.state(r as int), count as nat, text_size as nat) == target,
            decreases (if count < text_size {
                text_size - count
            } else {
                0
            }),
        {
            let c = d.decode_char();
            if c < 256 {
                proof {
                    lemma_low_byte(c);
                }
                d.putb(c);
                d.text_buf.set(r, c as u8);
                r = (r + 1) % N;
                count = count + 1;
            } else {
                let pos = d.decode_position() as usize;
                let i = (r + N - pos - 1) % N;
                let j = c as usize - 255 + THRESHOLD;
                let ghost copied = copy_match(d.text_buf@, d.output@, i as int, r as int, 0, j as nat);
                let ghost tree = d.tree@;
                let ghost bits = d.bits.state();
                let mut k: usize = 0;
                while k < j
                    invariant
                        k <= j <= F,
                        i < N,
                        r < N,
                        d.wf(),
                        d.input@ == input,
                        d.tree@ == tree,
                        d.bits.state() == bits,
                        copy_match(d.text_buf@, d.output@, i as int, r as int, k as nat, j as nat) == copied,
                    decreases j - k,
                {
                    let b = d.text_buf[(i + k) % N];
                    proof {
                        lemma_byte_roundtrip(b);
                    }
                    d.putb(b as u32);
                    d.text_buf.set(r, b);
                    r = (r + 1) % N;
                    k = k + 1;
                }
                count = count + j as u64;
                assert(copied == (d.text_buf@, d.output@, r as int));
            }
        }
        Ok(d.output)
    }
}

/// Decodes the LZH stream `data`: its four-byte length prefix, then its
/// bits.
pub fn decompress(data: &[u8]) -> (r: Result<Vec<u8>, DecodeError>)
    ensures
        match r {
            Ok(v) => lzh_decode(data@) == Some(v@),
            Err(e) => lzh_decode(data@) is None && e == DecodeError::MissingLength,
        },
{
    Decoder::new(data).decode()
}

// ---------------------------------------------------------------------------
// Laws
// ---------------------------------------------------------------------------

/// A match only appends to the output.
pub proof fn lemma_copy_match_appends(window: Seq<u8>, out: Seq<u8>, i: int, r: int, k: nat, j: nat)
    requires
        k <= j,
    ensures
        copy_match(window, out, i, r, k, j).1.len() == out.len() + (j - k),
        forall|m: int| 0 <= m < out.len() ==> #[trigger] copy_match(window, out, i, r, k, j).1[m] == out[m],
    decreases j - k,
{
    if k < j {
        let b = window[(i + k) % (N as int)];
        lemma_copy_match_appends(window.update(r, b), out.push(b), i, (r + 1) % (N as int), k + 1, j);
    }
}

/// Decoding only appends to the output.
pub proof fn lemma_run_appends(input: Seq<u8>, st: State, count: nat, size: nat)
    ensures
        run(input, st, count, size).out.len() >= st.out.len(),
        forall|m: int| 0 <= m < st.out.len() ==> #[trigger] run(input, st, count, size).out[m] == st.out[m],
    decreases (if count < size {
        size - count
    } else {
        0
    }),
{
    if count < size {
        let dc = decode_char(input, st.tree, st.bits);
        let c = dc.2;
        if c < 256 {
            let next = State {
                tree: dc.0,
                bits: dc.1,
                window: st.window.update(st.r, c as u8),
                out: st.out.push(c as u8),
                r: (st.r + 1) % (N as int),
            };
            lemma_run_appends(input, next, count + 1, size);
        } else {
            let dp = decode_position(input, dc.1);
            let i = (st.r + N - dp.1 - 1) % (N as int);
            let j: nat = (c - 253) as nat;
            let m = copy_match(st.window, st.out, i, st.r, 0, j);
            lemma_copy_match_appends(st.window, st.out, i, st.r, 0, j);
            let next = State { tree: dc.0, bits: dp.0, window: m.0, out: m.1, r: m.2 };
            lemma_run_appends(input, next, count + j, size);
        }
    }
}

/// A match whose source lies in the spaces at the start of the window, and
/// whose writes go to its tail, copies only spaces.
proof fn lemma_copy_match_spaces(window: Seq<u8>, out: Seq<u8>, i: int, k: nat, j: nat)
    requires
        k <= j <= F,
        0 <= i,
        i + j <= N - F,
        window.len() == N + F,
        forall|m: int| i + k <= m < i + j ==> #[trigger] window[m] == 0x20,
    ensures
        ({
            let res = copy_match(window, out, i, (N - F + k) as int, k, j).1;
            forall|m: int| out.len() <= m < out.len() + (j - k) ==> #[trigger] res[m] == 0x20
        }),
    decreases j - k,
{
    if k < j {
        let r = (N - F + k) as int;
        let b = window[(i + k) % (N as int)];
        assert((i + k) % (N as int) == i + k);
        let w2 = window.update(r, b);
        lemma_copy_match_appends(w2, out.push(b), i, (r + 1) % (N as int), k + 1, j);
        let res = copy_match(window, out, i, r, k, j).1;
        assert(res == copy_match(w2, out.push(b), i, (r + 1) % (N as int), k + 1, j).1);
        assert(b == 0x20);
        if k + 1 < j {
            assert((r + 1) % (N as int) == N - F + k + 1);
            lemma_copy_match_spaces(w2, out.push(b), i, k + 1, j);
            assert(res == copy_match(w2, out.push(b), i, (N - F + (k + 1)) as int, k + 1, j).1);
        }
        assert forall|m: int| out.len() <= m < out.len() + (j - k) implies #[trigger] res[m] == 0x20 by {
            if m == out.len() {
                assert(out.push(b)[m] == b);
            }
        }
    }
}

/// Where the first symbol of a stream is a back-reference of length `j`
/// whose source lies wholly in the spaces of the initial window (its
/// distance `pos` is below `N - F` and at least `j - 1`), the first `j`
/// bytes of the output are spaces.
pub proof fn lemma_initial_window(input: Seq<u8>)
    requires
        input.len() >= 4,
        spec_u32_le(input, 0) >= 1,
        ({
            let dc = decode_char(input, start_tree(), initial_state().bits);
            let pos = decode_position(input, dc.1).1;
            &&& dc.2 >= 256
            &&& pos < N - F
            &&& dc.2 - 253 <= pos + 1
        }),
    ensures
        ({
            let out = lzh_decode(input)->Some_0;
            let j = decode_char(input, start_tree(), initial_state().bits).2 - 253;
            &&& out.len() >= j
            &&& forall|m: int| 0 <= m < j ==> #[trigger] out[m] == 0x20
        }),
{
    let st = initial_state();
    let size = spec_u32_le(input, 0) as nat;
    let dc = decode_char(input, st.tree, st.bits);
    let c = dc.2;
    let dp = decode_position(input, dc.1);
    let i = (st.r + N - dp.1 - 1) % (N as int);
    assert(i == N - F - dp.1 - 1);
    let j: nat = (c - 253) as nat;
    let m = copy_match(st.window, st.out, i, st.r, 0, j);
    lemma_start_tree_wf();
    lemma_decode_char_bound(input, st.tree, st.bits);
    lemma_copy_match_spaces(st.window, st.out, i, 0, j);
    lemma_copy_match_appends(st.window, st.out, i, st.r, 0, j);
    let next = State { tree: dc.0, bits: dp.0, window: m.0, out: m.1, r: m.2 };
    lemma_run_appends(input, next, j, size);
    assert(run(input, st, 0, size) == run(input, next, j, size));
    assert(lzh_decode(input) == Some(run(input, st, 0, size).out));
    assert(m == copy_match(st.window, st.out, i, (N - F + 0) as int, 0, j));
    assert(st.out.len() == 0);
    assert forall|k: int| 0 <= k < j implies #[trigger] m.1[k] == 0x20 by {
        assert(st.out.len() <= k < st.out.len() + (j - 0));
    }
}

proof fn lemma_init_leaves_wf(t: Tree, i: nat)
    requires
        tree_wf(t),
    ensures
        tree_wf(init_leaves(t, i)),
    decreases N_CHAR - i,
{
    if i < N_CHAR {
        let t1 = Tree {
            freq: t.freq.update(i as int, 1),
            son: t.son.update(i as int, (i + T) as u32),
            parent: t.parent.update(i + T as int, i as u32),
        };
        assert(tree_wf(t1));
        lemma_init_leaves_wf(t1, i + 1);
    }
}

proof fn lemma_init_nodes_wf(t: Tree, i: nat, j: nat)
    requires
        tree_wf(t),
        N_CHAR <= j,
        i == 2 * (j - N_CHAR),
    ensures
        tree_wf(init_nodes(t, i, j)),
    decreases T - j,
{
    if j < T {
        let t1 = Tree {
            freq: t.freq.update(j as int, t.freq[i as int].wrapping_add(t.freq[i + 1int])),
            son: t.son.update(j as int, i as u32),
            parent: t.parent.update(i as int, j as u32).update(i + 1int, j as u32),
        };
        assert(tree_wf(t1));
        lemma_init_nodes_wf(t1, i + 2, j + 1);
    }
}

/// The initial tree has the shape that `tree_wf` asks for.
pub proof fn lemma_start_tree_wf()
    ensures
        tree_wf(start_tree()),
{
    let zero = zero_tree();
    assert(tree_wf(zero));
    lemma_init_leaves_wf(zero, 0);
    lemma_init_nodes_wf(init_leaves(zero, 0), 0, N_CHAR as nat);
}

proof fn lemma_top_bit(x: u32)
    ensures
        (x & 0x8000) >> 15 <= 1,
{
    assert((x & 0x8000) >> 15 <= 1) by (bit_vector);
}

proof fn lemma_walk_ends_at_code(input: Seq<u8>, son: Seq<u32>, b: Bits, c: u32, steps: nat)
    requires
        son.len() == T,
        forall|i: int| 0 <= i < T ==> son_ok(#[trigger] son[i]),
        son_ok(c),
    ensures
        son_ok(walk(input, son, b, c, steps).1),
    decreases T - steps,
{
    if c < T && steps < T {
        let (b1, bit) = read_bit(input, b);
        lemma_top_bit(refill(input, b).buf);
        lemma_walk_ends_at_code(input, son, b1, son[c + bit], steps + 1);
    }
}

/// On a tree of the right shape every decoded symbol is below `N_CHAR`.
pub proof fn lemma_decode_char_bound(input: Seq<u8>, t: Tree, b: Bits)
    requires
        tree_wf(t),
    ensures
        decode_char(input, t, b).2 < N_CHAR,
{
    lemma_walk_ends_at_code(input, t.son, b, t.son[R as int], 0);
}

/// A stream whose length prefix is zero decodes to nothing, whatever
/// follows the prefix.
pub proof fn lemma_empty_stream(input: Seq<u8>)
    requires
        input.len() >= 4,
        spec_u32_le(input, 0) == 0,
    ensures
        lzh_decode(input) == Some(Seq::<u8>::empty()),
{
}

proof fn lemma_search_up_bounds(freq: Seq<u32>, k: u32, from: nat)
    requires
        from <= T,
    ensures
        from <= search_up(freq, k, from) <= T,
    decreases T + 1 - from,
{
    if from < T && k > freq[from as int] {
        lemma_search_up_bounds(freq, k, from + 1);
    }
}

proof fn lemma_bump_wf(t: Tree, c: u32)
    requires
        tree_wf(t),
        c < T,
    ensures
        tree_wf(bump(t, c).0),
        bump(t, c).1 < T,
{
    let k = t.freq[c as int].wrapping_add(1);
    let freq = t.freq.update(c as int, k);
    if c + 1 < T && k > freq[c + 1] {
        lemma_search_up_bounds(freq, k, (c + 2) as nat);
        let l = (search_up(freq, k, (c + 2) as nat) - 1) as int;
        let i = t.son[c as int] as int;
        let j = t.son[l] as int;
        assert(son_ok(t.son[c as int]) && son_ok(t.son[l]));
        let r = bump(t, c).0;
        assert forall|m: int| 0 <= m < T implies son_ok(#[trigger] r.son[m]) by {
            assert(r.son[m] == t.son[m] || r.son[m] == i as u32 || r.son[m] == j as u32);
        }
    }
}

proof fn lemma_climb_wf(t: Tree, c: u32, steps: nat)
    requires
        tree_wf(t),
        c < T,
    ensures
        tree_wf(climb(t, c, steps)),
    decreases T - steps,
{
    if steps < T {
        lemma_bump_wf(t, c);
        let (t1, c1) = bump(t, c);
        let up = t1.parent[c1 as int];
        if up != 0 {
            lemma_climb_wf(t1, up, steps + 1);
        }
    }
}

proof fn lemma_compact_wf(t: Tree, i: nat, j: nat)
    requires
        tree_wf(t),
        j <= i,
    ensures
        tree_wf(compact(t, i, j)),
    decreases T - i,
{
    if i < T {
        if t.son[i as int] >= T {
            let t1 = Tree {
                freq: t.freq.update(j as int, half_up(t.freq[i as int])),
                son: t.son.update(j as int, t.son[i as int]),
                parent: t.parent,
            };
            assert(son_ok(t.son[i as int]));
            assert(tree_wf(t1));
            lemma_compact_wf(t1, i + 1, j + 1);
        } else {
            lemma_compact_wf(t, i + 1, j);
        }
    }
}

proof fn lemma_insertion_point_bound(freq: Seq<u32>, f: u32, k: nat)
    ensures
        insertion_point(freq, f, k) <= k,
    decreases k,
{
    if k > 0 && f < freq[k - 1] {
        lemma_insertion_point_bound(freq, f, (k - 1) as nat);
    }
}

proof fn lemma_insert_at(s: Seq<u32>, k: int, j: int, v: u32)
    requires
        0 <= k <= j < s.len(),
    ensures
        insert_at(s, k, j, v).len() == s.len(),
        forall|m: int|
            0 <= m < s.len() ==> #[trigger] insert_at(s, k, j, v)[m] == v || exists|q: int|
                0 <= q < s.len() && insert_at(s, k, j, v)[m] == s[q],
{
    let r = insert_at(s, k, j, v);
    assert forall|m: int| 0 <= m < s.len() implies #[trigger] r[m] == v || exists|q: int|
        0 <= q < s.len() && r[m] == s[q] by {
        if m < k {
            assert(r[m] == s[m]);
        } else if m == k {
        } else if m <= j {
            assert(r[m] == s[m - 1]);
        } else {
            assert(r[m] == s[m]);
        }
    }
}

proof fn lemma_rebuild_wf(t: Tree, i: nat, j: nat)
    requires
        tree_wf(t),
        N_CHAR <= j,
        i == 2 * (j - N_CHAR),
    ensures
        tree_wf(rebuild(t, i, j)),
    decreases T - j,
{
    if j < T {
        let f = t.freq[i as int].wrapping_add(t.freq[i + 1int]);
        let k = insertion_point(t.freq, f, j);
        lemma_insertion_point_bound(t.freq, f, j);
        lemma_insert_at(t.freq, k as int, j as int, f);
        lemma_insert_at(t.son, k as int, j as int, i as u32);
        let t1 = Tree {
            freq: insert_at(t.freq, k as int, j as int, f),
            son: insert_at(t.son, k as int, j as int, i as u32),
            parent: t.parent,
        };
        assert forall|m: int| 0 <= m < T implies son_ok(#[trigger] t1.son[m]) by {
            if t1.son[m] != i as u32 {
                let q = choose|q: int| 0 <= q < t.son.len() && t1.son[m] == t.son[q];
                assert(son_ok(t.son[q]));
            }
        }
        lemma_rebuild_wf(t1, i + 2, j + 1);
    }
}

proof fn lemma_relink_wf(t: Tree, i: nat)
    requires
        tree_wf(t),
    ensures
        tree_wf(relink(t, i)),
    decreases T - i,
{
    if i < T {
        let k = t.son[i as int] as int;
        assert(son_ok(t.son[i as int]));
        let p = t.parent.update(k, i as u32);
        let t1 = Tree {
            freq: t.freq,
            son: t.son,
            parent: if k < T {
                p.update(k + 1, i as u32)
            } else {
                p
            },
        };
        assert(tree_wf(t1));
        lemma_relink_wf(t1, i + 1);
    }
}

/// Counting a symbol keeps the tree's shape.
pub proof fn lemma_update_wf(t: Tree, c: u32)
    requires
        tree_wf(t),
        c < N_CHAR,
    ensures
        tree_wf(update(t, c)),
{
    let t1 = if t.freq[R as int] == MAX_FREQ {
        lemma_compact_wf(t, 0, 0);
        lemma_rebuild_wf(compact(t, 0, 0), 0, N_CHAR as nat);
        lemma_relink_wf(rebuild(compact(t, 0, 0), 0, N_CHAR as nat), 0);
        reconst(t)
    } else {
        t
    };
    lemma_climb_wf(t1, t1.parent[c + T], 0);
}

proof fn lemma_run_length(input: Seq<u8>, st: State, count: nat, size: nat)
    requires
        tree_wf(st.tree),
        count < size,
    ensures
        st.out.len() + (size - count) <= run(input, st, count, size).out.len(),
        run(input, st, count, size).out.len() < st.out.len() + (size - count) + F,
    decreases size - count,
{
    let dc = decode_char(input, st.tree, st.bits);
    let c = dc.2;
    lemma_decode_char_bound(input, st.tree, st.bits);
    lemma_update_wf(st.tree, c);
    if c < 256 {
        let next = State {
            tree: dc.0,
            bits: dc.1,
            window: st.window.update(st.r, c as u8),
            out: st.out.push(c as u8),
            r: (st.r + 1) % (N as int),
        };
        if count + 1 < size {
            lemma_run_length(input, next, count + 1, size);
        } else {
            assert(run(input, next, count + 1, size) == next);
        }
    } else {
        let dp = decode_position(input, dc.1);
        let i = (st.r + N - dp.1 - 1) % (N as int);
        let j: nat = (c - 253) as nat;
        let m = copy_match(st.window, st.out, i, st.r, 0, j);
        lemma_copy_match_appends(st.window, st.out, i, st.r, 0, j);
        let next = State { tree: dc.0, bits: dp.0, window: m.0, out: m.1, r: m.2 };
        if count + j < size {
            lemma_run_length(input, next, count + j, size);
        } else {
            assert(run(input, next, count + j, size) == next);
        }
    }
}

/// A match that crosses the length prefix is written whole, so a stream
/// decodes to at least as many bytes as its prefix gives, and fewer than
/// `F` more.
pub proof fn lemma_output_length(input: Seq<u8>)
    requires
        input.len() >= 4,
    ensures
        spec_u32_le(input, 0) <= lzh_decode(input)->Some_0.len(),
        lzh_decode(input)->Some_0.len() < spec_u32_le(input, 0) + F,
        spec_u32_le(input, 0) == 0 ==> lzh_decode(input)->Some_0.len() == 0,
{
    let size = spec_u32_le(input, 0) as nat;
    if size > 0 {
        lemma_start_tree_wf();
        lemma_run_length(input, initial_state(), 0, size);
    }
}

} // verus!
