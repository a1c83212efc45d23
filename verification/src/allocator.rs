//! Hierarchical free-block allocator: a base-64 bitmap tree over the
//! container's blocks. Layer 0 holds one bit per block (1 = occupied,
//! 0 = free); a bit of layer `k + 1` is 1 exactly when the 64 bits below
//! it are all 1, so a top-down walk finds the first free block in one
//! word load per layer. The words of all layers live in one flat store,
//! chunked into fixed-capacity pages.

use vstd::prelude::*;

verus! {

/// Words per page of the chunked word store.
pub const PAGE_CAPACITY: usize = 0x0400_0000;

/// Shift from a flat word index to its page number.
pub const PAGE_SHIFT: usize = 26;

/// Largest supported block count; keeps every word index and bit shift
/// comfortably inside 64-bit arithmetic.
pub const MAX_BLOCK_COUNT: u64 = 0x0100_0000_0000_0000;

/// Number of 64-bit words needed for `n` bits.
pub open spec fn ceil64(n: nat) -> nat {
    ((n + 63) / 64) as nat
}

/// 64 to the power `k`.
pub open spec fn pow64(k: nat) -> nat
    decreases k,
{
    if k == 0 {
        1
    } else {
        64 * pow64((k - 1) as nat)
    }
}

/// Number of bits of layer `k` for a map of `size` blocks: layer 0 has
/// one bit per block, and each layer above has one bit per word below.
pub open spec fn layer_bits(size: nat, k: nat) -> nat
    decreases k,
{
    if k == 0 {
        size
    } else {
        ceil64(layer_bits(size, (k - 1) as nat))
    }
}

/// Number of words of layer `k`.
pub open spec fn layer_words(size: nat, k: nat) -> nat {
    ceil64(layer_bits(size, k))
}

/// Flat word index at which layer `k` starts.
pub open spec fn layer_offset(size: nat, k: nat) -> nat
    decreases k,
{
    if k == 0 {
        0
    } else {
        layer_offset(size, (k - 1) as nat) + layer_words(size, (k - 1) as nat)
    }
}

proof fn lemma_ceil64_le(n: nat)
    ensures
        n >= 1 ==> 1 <= ceil64(n) <= n,
        n == 0 ==> ceil64(n) == 0,
        64 * (ceil64(n) - 1) < n <= 64 * ceil64(n),
{
}

proof fn lemma_layer_bits_ge_1(size: nat, k: nat)
    requires
        size >= 1,
    ensures
        layer_bits(size, k) >= 1,
    decreases k,
{
    if k > 0 {
        lemma_layer_bits_ge_1(size, (k - 1) as nat);
    }
}

/// Once a layer shrinks to one bit, all layers above stay at one bit.
proof fn lemma_layer_bits_stay_1(size: nat, k: nat, k2: nat)
    requires
        layer_bits(size, k) == 1,
        k <= k2,
    ensures
        layer_bits(size, k2) == 1,
    decreases k2 - k,
{
    if k < k2 {
        lemma_layer_bits_stay_1(size, (k + 1) as nat, k2);
    }
}

/// The layer count is pinned: there is exactly one `l >= 1` whose layer
/// has one bit while the layer below it has more.
pub proof fn lemma_layer_count_unique(size: nat, l1: int, l2: int)
    requires
        size >= 1,
        1 <= l1,
        1 <= l2,
        layer_bits(size, l1 as nat) == 1,
        l1 > 1 ==> layer_bits(size, (l1 - 1) as nat) > 1,
        layer_bits(size, l2 as nat) == 1,
        l2 > 1 ==> layer_bits(size, (l2 - 1) as nat) > 1,
    ensures
        l1 == l2,
{
    if l1 < l2 {
        lemma_layer_bits_stay_1(size, l1 as nat, (l2 - 1) as nat);
    }
    if l2 < l1 {
        lemma_layer_bits_stay_1(size, l2 as nat, (l1 - 1) as nat);
    }
}

/// Each layer has at most as many words as the one below it.
proof fn lemma_layer_words_mono(size: nat, k: nat)
    requires
        size >= 1,
    ensures
        layer_words(size, (k + 1) as nat) <= layer_words(size, k),
        layer_words(size, k) >= 1,
    decreases k,
{
    lemma_layer_bits_ge_1(size, k);
    lemma_layer_bits_ge_1(size, (k + 1) as nat);
}

/// Every layer is no wider than layer 0.
proof fn lemma_layer_words_le_first(size: nat, k: nat)
    requires
        size >= 1,
    ensures
        1 <= layer_words(size, k) <= layer_words(size, 0),
    decreases k,
{
    if k == 0 {
        lemma_layer_bits_ge_1(size, 0);
        lemma_layer_words_mono(size, 0);
    } else {
        lemma_layer_words_le_first(size, (k - 1) as nat);
        lemma_layer_words_mono(size, (k - 1) as nat);
    }
}

/// Layer starts are bounded by the number of layers times the width of
/// layer 0.
proof fn lemma_layer_offset_bound(size: nat, k: nat)
    requires
        size >= 1,
    ensures
        layer_offset(size, k) <= k * layer_words(size, 0),
    decreases k,
{
    if k > 0 {
        lemma_layer_offset_bound(size, (k - 1) as nat);
        lemma_layer_words_le_first(size, (k - 1) as nat);
        assert((k - 1) * layer_words(size, 0) + layer_words(size, 0) == k * layer_words(
            size,
            0,
        )) by (nonlinear_arith);
    }
}

/// Layer starts grow with the layer number.
proof fn lemma_layer_offset_mono(size: nat, k1: nat, k2: nat)
    requires
        size >= 1,
        k1 <= k2,
    ensures
        layer_offset(size, k1) <= layer_offset(size, k2),
    decreases k2 - k1,
{
    if k1 < k2 {
        lemma_layer_offset_mono(size, k1, (k2 - 1) as nat);
        lemma_layer_bits_ge_1(size, (k2 - 1) as nat);
    }
}

/// A map of `size` blocks covers at most `bits * 64^k` blocks seen from
/// layer `k`.
proof fn lemma_size_le_bits_pow(size: nat, k: nat)
    requires
        size >= 1,
    ensures
        size <= layer_bits(size, k) * pow64(k),
    decreases k,
{
    if k > 0 {
        lemma_size_le_bits_pow(size, (k - 1) as nat);
        let b = layer_bits(size, (k - 1) as nat);
        lemma_layer_bits_ge_1(size, (k - 1) as nat);
        lemma_ceil64_le(b);
        assert(b <= 64 * ceil64(b));
        assert(b * pow64((k - 1) as nat) <= (64 * ceil64(b)) * pow64((k - 1) as nat))
            by (nonlinear_arith)
            requires
                b <= 64 * ceil64(b),
                pow64((k - 1) as nat) >= 0,
        ;
        assert((64 * ceil64(b)) * pow64((k - 1) as nat) == ceil64(b) * (64 * pow64(
            (k - 1) as nat,
        ))) by (nonlinear_arith);
        assert(layer_bits(size, k) == ceil64(b));
        assert(pow64(k) == 64 * pow64((k - 1) as nat));
        assert(size <= ceil64(b) * (64 * pow64((k - 1) as nat)));
        assert(ceil64(b) * (64 * pow64((k - 1) as nat)) == layer_bits(size, k) * pow64(k))
            by (nonlinear_arith)
            requires
                layer_bits(size, k) == ceil64(b),
                pow64(k) == 64 * pow64((k - 1) as nat),
        ;
    } else {
        assert(pow64(k) == 1);
        assert(layer_bits(size, k) == size);
        assert(size * 1 == size) by (nonlinear_arith);
    }
}

/// `pow64` grows with its argument.
proof fn lemma_pow64_mono(k1: nat, k2: nat)
    requires
        k1 <= k2,
    ensures
        pow64(k1) <= pow64(k2),
        pow64(k1) >= 1,
    decreases k2 - k1,
{
    if k1 == k2 {
        lemma_pow64_pos(k1);
    } else {
        lemma_pow64_mono(k1, (k2 - 1) as nat);
        lemma_pow64_pos(k2);
    }
}

proof fn lemma_pow64_pos(k: nat)
    ensures
        pow64(k) >= 1,
    decreases k,
{
    if k > 0 {
        lemma_pow64_pos((k - 1) as nat);
    }
}

/// A layer with at least `m + 1` bits needs more than `m * 64^k` blocks.
proof fn lemma_bits_lower_bound(size: nat, k: nat)
    requires
        size >= 1,
    ensures
        size > (layer_bits(size, k) - 1) * pow64(k),
    decreases k,
{
    if k == 0 {
        lemma_pow64_pos(0);
        assert(pow64(k) == 1);
        assert(layer_bits(size, k) == size);
        assert((size - 1) * 1 == size - 1) by (nonlinear_arith);
    } else {
        lemma_bits_lower_bound(size, (k - 1) as nat);
        let b = layer_bits(size, (k - 1) as nat);
        let c = ceil64(b);
        lemma_ceil64_le(b);
        assert(64 * (c - 1) < b);
        assert((c - 1) * pow64(k) == (64 * (c - 1)) * pow64((k - 1) as nat))
            by (nonlinear_arith)
            requires
                pow64(k) == 64 * pow64((k - 1) as nat),
        ;
        assert((64 * (c - 1)) * pow64((k - 1) as nat) <= (b - 1) * pow64((k - 1) as nat))
            by (nonlinear_arith)
            requires
                64 * (c - 1) <= b - 1,
                pow64((k - 1) as nat) >= 0,
        ;
        lemma_pow64_pos((k - 1) as nat);
        assert(layer_bits(size, k) == c);
        assert(size > (b - 1) * pow64((k - 1) as nat));
        assert(size > (c - 1) * pow64(k));
    }
}

/// Pages are full except the last, which may be partial.
pub open spec fn pages_wf(pages: Seq<Vec<u64>>) -> bool {
    &&& pages.len() >= 1
    &&& forall|p: int|
        0 <= p < pages.len() - 1 ==> (#[trigger] pages[p])@.len() == PAGE_CAPACITY
    &&& pages[pages.len() - 1]@.len() <= PAGE_CAPACITY
}

/// Total number of words in a page store.
pub open spec fn pages_words(pages: Seq<Vec<u64>>) -> int {
    (pages.len() - 1) * (PAGE_CAPACITY as int) + pages[pages.len() - 1]@.len()
}

/// The word at flat index `w` of a page store.
pub open spec fn pages_word_at(pages: Seq<Vec<u64>>, w: int) -> u64 {
    pages[w / (PAGE_CAPACITY as int)]@[w % (PAGE_CAPACITY as int)]
}

/// A flat word index in range addresses a valid page and slot.
proof fn lemma_pages_index(pages: Seq<Vec<u64>>, w: int)
    requires
        pages_wf(pages),
        0 <= w < pages_words(pages),
    ensures
        0 <= w / (PAGE_CAPACITY as int) < pages.len(),
        0 <= w % (PAGE_CAPACITY as int) < pages[w / (PAGE_CAPACITY as int)]@.len(),
{
    let cap = PAGE_CAPACITY as int;
    let d = w / cap;
    let m = w % cap;
    let np = pages.len() as int;
    assert(w == cap * d + m && 0 <= m < cap) by (nonlinear_arith)
        requires
            w >= 0,
            cap == 0x0400_0000,
            d == w / cap,
            m == w % cap,
    ;
    if d >= np {
        assert(cap * d >= cap * np) by (nonlinear_arith)
            requires
                d >= np,
                cap > 0,
        ;
        assert(cap * np >= (np - 1) * cap + pages[np - 1]@.len()) by (nonlinear_arith)
            requires
                pages[np - 1]@.len() <= cap,
                cap > 0,
        ;
        assert(false);
    }
    if d == np - 1 {
        assert(m == w - cap * (np - 1));
        assert((np - 1) * cap == cap * (np - 1)) by (nonlinear_arith);
    } else {
        assert(pages[d]@.len() == PAGE_CAPACITY);
    }
}

/// Append one word at the end of the store, opening a new page when the
/// last one is full.
fn push_word(pages: &mut Vec<Vec<u64>>, w: u64)
    requires
        pages_wf(old(pages)@),
        pages_words(old(pages)@) < 0x0040_0000_0000_0000,
    ensures
        pages_wf(final(pages)@),
        pages_words(final(pages)@) == pages_words(old(pages)@) + 1,
        forall|x: int|
            0 <= x < pages_words(old(pages)@) ==> pages_word_at(final(pages)@, x)
                == pages_word_at(old(pages)@, x),
        pages_word_at(final(pages)@, pages_words(old(pages)@)) == w,
{
    let ghost pre = pages@;
    let ghost cap = PAGE_CAPACITY as int;
    let ghost np = pre.len() as int;
    let ghost old_words = pages_words(pre);
    let n = pages.len();
    let last_len = pages[n - 1].len();
    if last_len == PAGE_CAPACITY {
        let mut v: Vec<u64> = Vec::new();
        v.push(w);
        pages.push(v);
        proof {
            assert(old_words == (np - 1) * cap + cap);
            assert((np - 1) * cap + cap == cap * np) by (nonlinear_arith);
            assert(pages_words(pages@) == np * cap + 1);
            assert(np * cap == cap * np) by (nonlinear_arith);
            assert(old_words / cap == np && old_words % cap == 0) by (nonlinear_arith)
                requires
                    old_words == cap * np,
                    cap > 0,
                    np >= 1,
            ;
            assert(pages_word_at(pages@, old_words) == w);
            assert forall|x: int|
                0 <= x < old_words implies pages_word_at(pages@, x) == pages_word_at(
                pre,
                x,
            ) by {
                lemma_pages_index(pre, x);
            }
        }
    } else {
        let pv = &mut pages[n - 1];
        pv.push(w);
        proof {
            assert(pages@[np - 1]@ == pre[np - 1]@.push(w));
            assert(pages@.len() == pre.len());
            assert(pages_words(pages@) == old_words + 1);
            assert(old_words / cap == np - 1 && old_words % cap == last_len)
                by (nonlinear_arith)
                requires
                    old_words == (np - 1) * cap + last_len,
                    cap > 0,
                    np >= 1,
                    0 <= last_len < cap,
            ;
            assert(pages_word_at(pages@, old_words) == w);
            assert forall|x: int|
                0 <= x < old_words implies pages_word_at(pages@, x) == pages_word_at(
                pre,
                x,
            ) by {
                lemma_pages_index(pre, x);
                if x / cap == np - 1 {
                    assert(x == cap * (np - 1) + x % cap) by (nonlinear_arith)
                        requires
                            cap > 0,
                            x >= 0,
                            x / cap == np - 1,
                    ;
                    assert((np - 1) * cap == cap * (np - 1)) by (nonlinear_arith);
                    assert(x % cap < last_len);
                }
            }
        }
    }
}

/// The intended initial word `i` of layer `k`: zero, except that the last
/// word carries 1-bits for the tail past the layer's width.
pub open spec fn init_word(size: nat, k: nat, i: int) -> u64 {
    if i == layer_words(size, k) - 1 && layer_bits(size, k) % 64 != 0 {
        (!0u64) << ((layer_bits(size, k) % 64) as u64)
    } else {
        0u64
    }
}

proof fn lemma_bit_of_zero(t: u64)
    requires
        t < 64,
    ensures
        (0u64 >> t) & 1 == 0,
{
    assert((0u64 >> t) & 1 == 0) by (bit_vector);
}

proof fn lemma_bit_of_mask(m: u64, t: u64)
    requires
        1 <= m < 64,
        t < 64,
    ensures
        ((!0u64 << m) >> t) & 1 == (if t >= m {
            1u64
        } else {
            0u64
        }),
        (!0u64 << m) != u64::MAX,
{
    assert(((!0u64 << m) >> t) & 1 == (if t >= m {
        1u64
    } else {
        0u64
    })) by (bit_vector)
        requires
            1 <= m < 64,
            t < 64,
    ;
    assert((!0u64 << m) != 0xffff_ffff_ffff_ffffu64) by (bit_vector)
        requires
            1 <= m < 64,
    ;
}

proof fn lemma_bit_of_max(t: u64)
    requires
        t < 64,
    ensures
        (u64::MAX >> t) & 1 == 1,
{
    assert((0xffff_ffff_ffff_ffffu64 >> t) & 1 == 1) by (bit_vector)
        requires
            t < 64,
    ;
}

/// Bits of the initial words: 0 inside the layer's width, 1 in the tail;
/// and no initial word is all ones.
proof fn lemma_init_bit(size: nat, k: nat, b: int)
    requires
        size >= 1,
        0 <= b < 64 * layer_words(size, k),
    ensures
        ((init_word(size, k, b / 64) >> ((b % 64) as u64)) & 1) == (if b < layer_bits(
            size,
            k,
        ) {
            0u64
        } else {
            1u64
        }),
        init_word(size, k, b / 64) != u64::MAX,
{
    let bits = layer_bits(size, k);
    let wn = layer_words(size, k);
    let j = b / 64;
    let t = b % 64;
    lemma_layer_bits_ge_1(size, k);
    lemma_ceil64_le(bits);
    assert(0 <= t < 64);
    assert(j < wn);
    if bits % 64 == 0 {
        assert(64 * wn == bits);
        assert(b < bits);
        assert(init_word(size, k, j) == 0u64);
        lemma_bit_of_zero(t as u64);
    } else {
        assert(wn - 1 == bits / 64);
        let m = bits % 64;
        assert(1 <= m < 64);
        if j == wn - 1 {
            assert(init_word(size, k, j) == (!0u64) << (m as u64));
            lemma_bit_of_mask(m as u64, t as u64);
            assert(b == 64 * j + t);
            assert(bits == 64 * (wn - 1) + m);
            assert(b < bits <==> t < m);
        } else {
            assert(init_word(size, k, j) == 0u64);
            assert(b < 64 * (wn - 1));
            assert(64 * (wn - 1) < bits);
            lemma_bit_of_zero(t as u64);
        }
    }
}

/// The bit index of block `blk` seen from layer `k`.
pub open spec fn tree_path(blk: int, k: nat) -> int {
    blk / pow64(k) as int
}

proof fn lemma_or_bit(w: u64, m: u64)
    requires
        m < 64,
    ensures
        forall|t: u64|
            t < 64 && t != m ==> #[trigger] (((w | (1u64 << m)) >> t) & 1) == ((w >> t)
                & 1),
        ((w | (1u64 << m)) >> m) & 1 == 1,
        w == u64::MAX ==> (w | (1u64 << m)) == u64::MAX,
        (w | (1u64 << m)) != u64::MAX ==> w != u64::MAX,
{
    assert forall|t: u64| t < 64 && t != m implies #[trigger] (((w | (1u64 << m)) >> t)
        & 1) == ((w >> t) & 1) by {
        assert((((w | (1u64 << m)) >> t) & 1) == ((w >> t) & 1)) by (bit_vector)
            requires
                m < 64,
                t < 64,
                t != m,
        ;
    }
    assert(((w | (1u64 << m)) >> m) & 1 == 1) by (bit_vector)
        requires
            m < 64,
    ;
    assert(w == 0xffff_ffff_ffff_ffffu64 ==> (w | (1u64 << m)) == 0xffff_ffff_ffff_ffffu64)
        by (bit_vector);
}

proof fn lemma_andnot_bit(w: u64, m: u64)
    requires
        m < 64,
    ensures
        forall|t: u64|
            t < 64 && t != m ==> #[trigger] (((w & !(1u64 << m)) >> t) & 1) == ((w >> t)
                & 1),
        ((w & !(1u64 << m)) >> m) & 1 == 0,
        (w & !(1u64 << m)) != u64::MAX,
{
    assert forall|t: u64| t < 64 && t != m implies #[trigger] (((w & !(1u64 << m)) >> t)
        & 1) == ((w >> t) & 1) by {
        assert((((w & !(1u64 << m)) >> t) & 1) == ((w >> t) & 1)) by (bit_vector)
            requires
                m < 64,
                t < 64,
                t != m,
        ;
    }
    assert(((w & !(1u64 << m)) >> m) & 1 == 0) by (bit_vector)
        requires
            m < 64,
    ;
    assert((w & !(1u64 << m)) != 0xffff_ffff_ffff_ffffu64) by (bit_vector)
        requires
            m < 64,
    ;
}

/// Where block `blk` sits at layer `k`: a real bit of that layer, whose
/// word index is in range, and whose view from the next layer up is the
/// bit index divided by 64.
proof fn lemma_block_position(size: nat, blk: int, k: nat)
    requires
        size >= 1,
        0 <= blk < size,
    ensures
        0 <= tree_path(blk, k),
        tree_path(blk, k) < layer_bits(size, k),
        tree_path(blk, k) / 64 < layer_words(size, k),
        tree_path(blk, (k + 1) as nat) == tree_path(blk, k) / 64,
{
    let p = pow64(k) as int;
    lemma_pow64_pos(k);
    lemma_size_le_bits_pow(size, k);
    let bits = layer_bits(size, k) as int;
    assert(bits * p == p * bits) by (nonlinear_arith);
    vstd::arithmetic::div_mod::lemma_multiply_divide_lt(blk, p, bits);
    vstd::arithmetic::div_mod::lemma_div_pos_is_pos(blk, p);
    lemma_ceil64_le(layer_bits(size, k));
    lemma_layer_bits_ge_1(size, k);
    assert(tree_path(blk, k) <= bits - 1);
    vstd::arithmetic::div_mod::lemma_div_is_ordered(tree_path(blk, k), bits - 1, 64);
    assert((bits - 1) / 64 < ceil64(bits as nat));
    vstd::arithmetic::div_mod::lemma_div_denominator(blk, p, 64);
    assert(pow64((k + 1) as nat) == 64 * pow64(k));
    assert(p * 64 == 64 * p) by (nonlinear_arith);
}

/// The free map: a page-chunked flat array of 64-bit words holding every
/// layer of the base-64 tree, leaf layer first.
pub struct FreeMap {
    /// The word store: pages of up to `PAGE_CAPACITY` words each.
    pub pow_map: Vec<Vec<u64>>,
    /// Number of blocks tracked (bits of layer 0).
    pub size: u64,
    /// Number of layers of the tree.
    pub layer_num: usize,
}

impl FreeMap {
    /// Number of pages of the word store.
    pub open spec fn n_pages(&self) -> int {
        self.pow_map@.len() as int
    }

    /// Pages are full except the last, which may be partial.
    pub open spec fn pages_ok(&self) -> bool {
        pages_wf(self.pow_map@)
    }

    /// Total number of words stored.
    pub open spec fn n_words(&self) -> int {
        pages_words(self.pow_map@)
    }

    /// The word at flat index `w`.
    pub open spec fn wordv(&self, w: int) -> u64 {
        pages_word_at(self.pow_map@, w)
    }

    /// Word `i` of layer `k`.
    pub open spec fn word_in_layer(&self, k: int, i: int) -> u64 {
        self.wordv(layer_offset(self.size as nat, k as nat) as int + i)
    }

    /// Bit `b` of layer `k` (1 = occupied or subtree full).
    pub open spec fn bit_in_layer(&self, k: int, b: int) -> bool {
        ((self.word_in_layer(k, b / 64) >> ((b % 64) as u64)) & 1) == 1
    }

    /// True when block `b` is marked occupied in the leaf layer.
    pub open spec fn block_used(&self, b: int) -> bool {
        self.bit_in_layer(0, b)
    }

    /// Shape of the store: sizes, layer count, and page layout agree.
    pub open spec fn geometry_ok(&self) -> bool {
        &&& 1 <= self.size <= MAX_BLOCK_COUNT
        &&& 1 <= self.layer_num <= 11
        &&& layer_bits(self.size as nat, self.layer_num as nat) == 1
        &&& self.pages_ok()
        &&& self.n_words() == layer_offset(self.size as nat, self.layer_num as nat)
    }

    /// Bits past a layer's logical width are always 1, so the tail never
    /// looks free.
    pub open spec fn tail_ok(&self) -> bool {
        forall|k: int, b: int|
            0 <= k < self.layer_num && layer_bits(self.size as nat, k as nat) <= b < 64
                * layer_words(self.size as nat, k as nat) ==> #[trigger] self.bit_in_layer(
                k,
                b,
            )
    }

    /// A bit of an upper layer is 1 exactly when the word below it is
    /// all ones.
    pub open spec fn coherent(&self) -> bool {
        forall|k: int, b: int|
            1 <= k < self.layer_num && 0 <= b < layer_bits(self.size as nat, k as nat)
                ==> (#[trigger] self.bit_in_layer(k, b) <==> self.word_in_layer(k - 1, b)
                == u64::MAX)
    }

    /// The full invariant of the free map.
    pub open spec fn wf(&self) -> bool {
        &&& self.geometry_ok()
        &&& self.tail_ok()
        &&& self.coherent()
    }

    /// A flat word index in range addresses a valid page and slot.
    proof fn lemma_page_index(&self, w: int)
        requires
            self.pages_ok(),
            0 <= w < self.n_words(),
        ensures
            0 <= w / (PAGE_CAPACITY as int) < self.n_pages(),
            0 <= w % (PAGE_CAPACITY as int) < self.pow_map@[w / (PAGE_CAPACITY as int)]@.len(),
    {
        lemma_pages_index(self.pow_map@, w);
    }

    /// Distinct flat indices address distinct page slots.
    proof fn lemma_page_index_distinct(w1: int, w2: int)
        requires
            w1 != w2,
        ensures
            w1 / (PAGE_CAPACITY as int) != w2 / (PAGE_CAPACITY as int) || w1 % (
            PAGE_CAPACITY as int) != w2 % (PAGE_CAPACITY as int),
    {
        let cap = PAGE_CAPACITY as int;
        assert(w1 == cap * (w1 / cap) + w1 % cap) by (nonlinear_arith)
            requires
                cap > 0,
        ;
        assert(w2 == cap * (w2 / cap) + w2 % cap) by (nonlinear_arith)
            requires
                cap > 0,
        ;
    }

    /// Word indices of different layers, or different slots of one
    /// layer, map to different flat indices.
    proof fn lemma_layer_slot_distinct(size: nat, k1: nat, i1: int, k2: nat, i2: int)
        requires
            size >= 1,
            0 <= i1 < layer_words(size, k1),
            0 <= i2 < layer_words(size, k2),
            k1 < k2 || (k1 == k2 && i1 != i2),
        ensures
            layer_offset(size, k1) + i1 != layer_offset(size, k2) + i2,
    {
        if k1 < k2 {
            assert(layer_offset(size, (k1 + 1) as nat) == layer_offset(size, k1)
                + layer_words(size, k1));
            lemma_layer_offset_mono(size, (k1 + 1) as nat, k2);
        }
    }

    /// Ceiling division of a positive word count by 64.
    fn ceil64_u64(x: u64) -> (r: u64)
        requires
            1 <= x,
        ensures
            r == ceil64(x as nat),
    {
        let y = x - 1;
        proof {
            assert(y >> 6 == y / 64) by (bit_vector);
        }
        (y >> 6) + 1
    }

    /// Number of layers needed for `size` blocks: the least `l >= 1` with
    /// one bit left at layer `l`.
    fn log64_ceil(size: u64) -> (r: usize)
        requires
            1 <= size <= MAX_BLOCK_COUNT,
        ensures
            1 <= r <= 11,
            layer_bits(size as nat, r as nat) == 1,
            r > 1 ==> layer_bits(size as nat, (r - 1) as nat) > 1,
    {
        let mut l: usize = 1;
        let mut bits: u64 = size;
        while bits > 64
            invariant
                1 <= size <= MAX_BLOCK_COUNT,
                1 <= l <= 11,
                1 <= bits <= size,
                bits == layer_bits(size as nat, (l - 1) as nat),
                l > 1 ==> bits > 1,
            decreases bits,
        {
            proof {
                lemma_bits_lower_bound(size as nat, (l - 1) as nat);
                lemma_pow64_pos((l - 1) as nat);
                if l >= 11 {
                    lemma_pow64_mono(10, (l - 1) as nat);
                    assert(pow64(10) == 0x1000_0000_0000_0000) by {
                        reveal_with_fuel(pow64, 12);
                    }
                    assert(64 * pow64((l - 1) as nat) <= (bits - 1) * pow64(
                        (l - 1) as nat,
                    )) by (nonlinear_arith)
                        requires
                            64 <= bits - 1,
                            pow64((l - 1) as nat) >= 1,
                    ;
                    assert(false);
                }
                lemma_ceil64_le(bits as nat);
            }
            bits = Self::ceil64_u64(bits);
            l = l + 1;
        }
        proof {
            lemma_ceil64_le(bits as nat);
        }
        l
    }

    /// Flat word index at which layer `deep` starts.
    fn precomputed_offset(&self, deep: usize) -> (r: u64)
        requires
            self.geometry_ok(),
            deep <= self.layer_num,
        ensures
            r == layer_offset(self.size as nat, deep as nat),
    {
        let mut sz: u64 = self.size;
        let mut offset: u64 = 0;
        let mut d: usize = 0;
        while d < deep
            invariant
                self.geometry_ok(),
                d <= deep <= self.layer_num,
                sz == layer_bits(self.size as nat, d as nat),
                offset == layer_offset(self.size as nat, d as nat),
            decreases deep - d,
        {
            proof {
                lemma_layer_bits_ge_1(self.size as nat, d as nat);
                lemma_layer_offset_bound(self.size as nat, (d + 1) as nat);
                lemma_layer_words_le_first(self.size as nat, d as nat);
                let w0 = layer_words(self.size as nat, 0);
                assert((d + 1) * w0 <= 11 * w0) by (nonlinear_arith)
                    requires
                        d + 1 <= 11,
                        w0 >= 0,
                ;
                lemma_ceil64_le(self.size as nat);
            }
            sz = Self::ceil64_u64(sz);
            offset = offset + sz;
            d = d + 1;
        }
        offset
    }

    /// The word of layer `deep` at word index `index`.
    ///
    /// # Arguments
    /// * `deep` - the layer
    /// * `index` - the word index within the layer
    #[inline(always)]
    pub fn c(&self, deep: usize, index: u64) -> (r: u64)
        requires
            self.geometry_ok(),
            deep < self.layer_num,
            index < layer_words(self.size as nat, deep as nat),
        ensures
            r == self.word_in_layer(deep as int, index as int),
    {
        proof {
            self.lemma_flat_index_bound(deep as int, index as int);
        }
        let offset = self.precomputed_offset(deep);
        let raw: u64 = offset + index;
        let (page, idx) = Self::locate(raw);
        proof {
            self.lemma_page_index(raw as int);
        }
        self.pow_map[page][idx]
    }

    /// Page number and slot of a flat word index.
    fn locate(raw: u64) -> (r: (usize, usize))
        requires
            raw < 0x0040_0000_0000_0000,
        ensures
            r.0 as int == raw as int / (PAGE_CAPACITY as int),
            r.1 as int == raw as int % (PAGE_CAPACITY as int),
    {
        proof {
            assert(raw >> 26 == raw / 0x0400_0000u64) by (bit_vector);
            assert(raw & 0x03FF_FFFFu64 == raw % 0x0400_0000u64) by (bit_vector);
            assert(raw / 0x0400_0000u64 < 0x1000_0000u64) by (bit_vector)
                requires
                    raw < 0x0040_0000_0000_0000u64,
            ;
            assert(raw % 0x0400_0000u64 < 0x0400_0000u64) by (bit_vector);
        }
        ((raw >> 26) as usize, (raw & 0x03FF_FFFF) as usize)
    }

    /// A layer slot's flat index is inside the store, which itself stays
    /// well below 64-bit arithmetic limits.
    proof fn lemma_flat_index_bound(&self, deep: int, index: int)
        requires
            self.geometry_ok(),
            0 <= deep < self.layer_num,
            0 <= index < layer_words(self.size as nat, deep as nat),
        ensures
            0 <= layer_offset(self.size as nat, deep as nat) + index < self.n_words(),
            self.n_words() < 0x0040_0000_0000_0000,
    {
        let size = self.size as nat;
        let ln = self.layer_num as nat;
        lemma_layer_offset_mono(size, (deep + 1) as nat, ln);
        lemma_layer_offset_bound(size, ln);
        let w0 = layer_words(size, 0);
        assert(ln * w0 <= 11 * w0) by (nonlinear_arith)
            requires
                ln <= 11,
                w0 >= 0,
        ;
        assert(w0 <= 0x0004_0000_0000_0000);
    }

    /// Store `val` as the word of layer `deep` at word index `index`.
    fn set_c(&mut self, deep: usize, index: u64, val: u64)
        requires
            old(self).geometry_ok(),
            deep < old(self).layer_num,
            index < layer_words(old(self).size as nat, deep as nat),
        ensures
            final(self).size == old(self).size,
            final(self).layer_num == old(self).layer_num,
            final(self).geometry_ok(),
            final(self).n_words() == old(self).n_words(),
            final(self).word_in_layer(deep as int, index as int) == val,
            forall|w: int|
                0 <= w < old(self).n_words() && w != layer_offset(old(self).size as nat,
                    deep as nat) + index ==> final(self).wordv(w) == old(self).wordv(w),
    {
        let ghost pre = *self;
        proof {
            self.lemma_flat_index_bound(deep as int, index as int);
        }
        let offset = self.precomputed_offset(deep);
        let raw: u64 = offset + index;
        let (page, idx) = Self::locate(raw);
        proof {
            self.lemma_page_index(raw as int);
        }
        let page_vec = &mut self.pow_map[page];
        page_vec[idx] = val;
        proof {
            assert(self.pow_map@[page as int]@ == pre.pow_map@[page as int]@.update(
                idx as int, val));
            assert(self.pow_map@.len() == pre.pow_map@.len());
            assert forall|p: int| 0 <= p < self.n_pages() implies (self.pow_map@[p])@.len()
                == (pre.pow_map@[p])@.len() by {}
            assert forall|w: int|
                0 <= w < pre.n_words() && w != raw implies self.wordv(w) == pre.wordv(
                w,
            ) by {
                Self::lemma_page_index_distinct(w, raw as int);
                pre.lemma_page_index(w);
            }
            assert(self.wordv(raw as int) == val);
        }
    }

    /// Mark one block occupied and propagate subtree-full bits upward
    /// while words keep becoming all ones.
    #[inline(always)]
    pub fn fill_free_block(&mut self, block_index: u64)
        requires
            old(self).wf(),
            block_index < old(self).size,
        ensures
            final(self).wf(),
            final(self).size == old(self).size,
            final(self).layer_num == old(self).layer_num,
            final(self).block_used(block_index as int),
            forall|b: int|
                0 <= b < old(self).size && b != block_index ==> final(self).block_used(b)
                    == old(self).block_used(b),
    {
        let ghost pre = *self;
        let ghost blk = block_index as int;
        let ghost sz = pre.size as nat;
        proof {
            assert(block_index >> 6 == block_index / 64) by (bit_vector);
            assert(block_index & 0x3F == block_index % 64) by (bit_vector);
            lemma_pow64_pos(0);
            vstd::arithmetic::div_mod::lemma_div_basics(blk);
            assert(tree_path(blk, 0) == blk);
            assert(FreeMap::fill_pending(pre, pre, blk, 0));
        }
        let mut index: u64 = block_index >> 6;
        let mut mode: u64 = block_index & 0x3F;
        let mut i: usize = 0;
        loop
            invariant_except_break
                i < pre.layer_num,
                index == tree_path(blk, i as nat) / 64,
                mode == tree_path(blk, i as nat) % 64,
                FreeMap::fill_pending(pre, *self, blk, i as int),
            invariant
                pre.wf(),
                sz == pre.size as nat,
                blk == block_index as int,
                0 <= blk < pre.size,
            ensures
                FreeMap::fill_done(pre, *self, blk),
            decreases pre.layer_num - i,
        {
            let ghost s0 = *self;
            let ghost tp = tree_path(blk, i as nat);
            proof {
                lemma_block_position(sz, blk, i as nat);
            }
            let cur = self.c(i, index);
            let neww = cur | (1u64 << mode);
            self.set_c(i, index, neww);
            proof {
                assert forall|k: nat, j: int|
                    #![trigger self.word_in_layer(k as int, j)]
                    k < pre.layer_num && 0 <= j < layer_words(sz, k) && !(k == i && j
                        == tp / 64) implies self.word_in_layer(k as int, j)
                    == s0.word_in_layer(k as int, j) by {
                    if k < i {
                        FreeMap::lemma_layer_slot_distinct(sz, k, j, i as nat, tp / 64);
                    } else if k as int > i {
                        FreeMap::lemma_layer_slot_distinct(sz, i as nat, tp / 64, k, j);
                    } else {
                        FreeMap::lemma_layer_slot_distinct(sz, k, j, i as nat, tp / 64);
                    }
                    s0.lemma_flat_index_bound(k as int, j);
                    s0.lemma_flat_index_bound(i as int, tp / 64);
                }
                assert(self.word_in_layer(i as int, tp / 64) == neww);
                FreeMap::lemma_fill_step(pre, s0, *self, blk, i as int, cur, neww);
            }
            if neww != u64::MAX {
                break;
            }
            i = i + 1;
            if i == self.layer_num {
                break;
            }
            proof {
                lemma_block_position(sz, blk, i as nat);
                assert(index & 0x3F == index % 64) by (bit_vector);
                assert(index >> 6 == index / 64) by (bit_vector);
            }
            mode = index & 0x3F;
            index = index >> 6;
        }
        proof {
            lemma_or_bit(pre.word_in_layer(0, blk / 64), (blk % 64) as u64);
            lemma_block_position(sz, blk, 0);
            vstd::arithmetic::div_mod::lemma_div_basics(blk);
            assert(tree_path(blk, 0) == blk);
            assert(self.block_used(blk));
            assert forall|b: int|
                0 <= b < pre.size && b != blk implies self.block_used(b)
                == pre.block_used(b) by {
                lemma_block_position(sz, b, 0);
                if b / 64 == blk / 64 {
                    assert(b % 64 != blk % 64);
                    assert((b % 64) as u64 != (blk % 64) as u64);
                }
            }
        }
    }

    /// Mark one block free again and clear subtree-full bits upward
    /// while the words passed were all ones.
    #[inline(always)]
    pub fn release_free_block(&mut self, block_index: u64)
        requires
            old(self).wf(),
            block_index < old(self).size,
        ensures
            final(self).wf(),
            final(self).size == old(self).size,
            final(self).layer_num == old(self).layer_num,
            !final(self).block_used(block_index as int),
            forall|b: int|
                0 <= b < old(self).size && b != block_index ==> final(self).block_used(b)
                    == old(self).block_used(b),
    {
        let ghost pre = *self;
        let ghost blk = block_index as int;
        let ghost sz = pre.size as nat;
        proof {
            assert(block_index >> 6 == block_index / 64) by (bit_vector);
            assert(block_index & 0x3F == block_index % 64) by (bit_vector);
            lemma_pow64_pos(0);
            vstd::arithmetic::div_mod::lemma_div_basics(blk);
            assert(tree_path(blk, 0) == blk);
            assert(FreeMap::release_pending(pre, pre, blk, 0));
        }
        let mut index: u64 = block_index >> 6;
        let mut mode: u64 = block_index & 0x3F;
        let mut i: usize = 0;
        loop
            invariant_except_break
                i < pre.layer_num,
                index == tree_path(blk, i as nat) / 64,
                mode == tree_path(blk, i as nat) % 64,
                FreeMap::release_pending(pre, *self, blk, i as int),
            invariant
                pre.wf(),
                sz == pre.size as nat,
                blk == block_index as int,
                0 <= blk < pre.size,
            ensures
                FreeMap::release_done(pre, *self, blk),
            decreases pre.layer_num - i,
        {
            let ghost s0 = *self;
            let ghost tp = tree_path(blk, i as nat);
            proof {
                lemma_block_position(sz, blk, i as nat);
            }
            let cur = self.c(i, index);
            let neww = cur & !(1u64 << mode);
            self.set_c(i, index, neww);
            proof {
                assert forall|k: nat, j: int|
                    #![trigger self.word_in_layer(k as int, j)]
                    k < pre.layer_num && 0 <= j < layer_words(sz, k) && !(k == i && j
                        == tp / 64) implies self.word_in_layer(k as int, j)
                    == s0.word_in_layer(k as int, j) by {
                    if k < i {
                        FreeMap::lemma_layer_slot_distinct(sz, k, j, i as nat, tp / 64);
                    } else if k as int > i {
                        FreeMap::lemma_layer_slot_distinct(sz, i as nat, tp / 64, k, j);
                    } else {
                        FreeMap::lemma_layer_slot_distinct(sz, k, j, i as nat, tp / 64);
                    }
                    s0.lemma_flat_index_bound(k as int, j);
                    s0.lemma_flat_index_bound(i as int, tp / 64);
                }
                assert(self.word_in_layer(i as int, tp / 64) == neww);
                FreeMap::lemma_release_step(pre, s0, *self, blk, i as int, cur, neww);
            }
            if cur != u64::MAX {
                break;
            }
            i = i + 1;
            if i == self.layer_num {
                break;
            }
            proof {
                lemma_block_position(sz, blk, i as nat);
                assert(index & 0x3F == index % 64) by (bit_vector);
                assert(index >> 6 == index / 64) by (bit_vector);
            }
            mode = index & 0x3F;
            index = index >> 6;
        }
        proof {
            lemma_andnot_bit(pre.word_in_layer(0, blk / 64), (blk % 64) as u64);
            lemma_block_position(sz, blk, 0);
            vstd::arithmetic::div_mod::lemma_div_basics(blk);
            assert(tree_path(blk, 0) == blk);
            assert(!self.block_used(blk));
            assert forall|b: int|
                0 <= b < pre.size && b != blk implies self.block_used(b)
                == pre.block_used(b) by {
                lemma_block_position(sz, b, 0);
                vstd::arithmetic::div_mod::lemma_div_basics(b);
                if b / 64 == blk / 64 {
                    assert(b % 64 != blk % 64);
                    assert((b % 64) as u64 != (blk % 64) as u64);
                }
            }
        }
    }

    /// Mark `r_size` consecutive blocks occupied.
    #[inline(always)]
    pub fn fill_blocks(&mut self, block_index: u64, r_size: u64)
        requires
            old(self).wf(),
            block_index + r_size <= old(self).size,
        ensures
            final(self).wf(),
            final(self).size == old(self).size,
            final(self).layer_num == old(self).layer_num,
            forall|b: int|
                block_index <= b < block_index + r_size ==> final(self).block_used(b),
            forall|b: int|
                0 <= b < old(self).size && !(block_index <= b < block_index + r_size)
                    ==> final(self).block_used(b) == old(self).block_used(b),
    {
        let ghost pre = *self;
        let mut j: u64 = 0;
        while j < r_size
            invariant
                pre.wf(),
                block_index + r_size <= pre.size,
                j <= r_size,
                self.wf(),
                self.size == pre.size,
                self.layer_num == pre.layer_num,
                forall|b: int| block_index <= b < block_index + j ==> self.block_used(b),
                forall|b: int|
                    0 <= b < pre.size && !(block_index <= b < block_index + j)
                        ==> self.block_used(b) == pre.block_used(b),
            decreases r_size - j,
        {
            self.fill_free_block(block_index + j);
            j = j + 1;
        }
    }

    /// Mark `r_size` consecutive blocks free again.
    #[inline(always)]
    pub fn release_blocks(&mut self, block_index: u64, r_size: u64)
        requires
            old(self).wf(),
            block_index + r_size <= old(self).size,
        ensures
            final(self).wf(),
            final(self).size == old(self).size,
            final(self).layer_num == old(self).layer_num,
            forall|b: int|
                block_index <= b < block_index + r_size ==> !final(self).block_used(b),
            forall|b: int|
                0 <= b < old(self).size && !(block_index <= b < block_index + r_size)
                    ==> final(self).block_used(b) == old(self).block_used(b),
    {
        let ghost pre = *self;
        let mut j: u64 = 0;
        while j < r_size
            invariant
                pre.wf(),
                block_index + r_size <= pre.size,
                j <= r_size,
                self.wf(),
                self.size == pre.size,
                self.layer_num == pre.layer_num,
                forall|b: int| block_index <= b < block_index + j ==> !self.block_used(b),
                forall|b: int|
                    0 <= b < pre.size && !(block_index <= b < block_index + j)
                        ==> self.block_used(b) == pre.block_used(b),
            decreases r_size - j,
        {
            self.release_free_block(block_index + j);
            j = j + 1;
        }
    }

    /// A set bit at layer `k` means every tracked block under it is
    /// occupied.
    proof fn lemma_subtree_full(m: &FreeMap, k: int, j: int)
        requires
            m.wf(),
            0 <= k < m.layer_num,
            0 <= j < 64 * layer_words(m.size as nat, k as nat),
            m.bit_in_layer(k, j),
        ensures
            forall|b: int|
                j * pow64(k as nat) <= b < (j + 1) * pow64(k as nat) && 0 <= b < m.size
                    ==> #[trigger] m.block_used(b),
        decreases k,
    {
        let sz = m.size as nat;
        if k == 0 {
            lemma_pow64_pos(0);
            assert forall|b: int|
                j * pow64(0) <= b < (j + 1) * pow64(0) && 0 <= b < m.size implies #[trigger] m.block_used(
                b,
            ) by {
                assert(j * 1 == j) by (nonlinear_arith);
                assert((j + 1) * 1 == j + 1) by (nonlinear_arith);
                assert(b == j);
            }
        } else {
            let p = pow64((k - 1) as nat) as int;
            let bigp = pow64(k as nat) as int;
            lemma_pow64_pos((k - 1) as nat);
            assert(bigp == 64 * p);
            if j < layer_bits(sz, k as nat) {
                assert(m.bit_in_layer(k, j) <==> m.word_in_layer(k - 1, j) == u64::MAX);
                assert(layer_bits(sz, k as nat) == layer_words(sz, (k - 1) as nat));
                assert forall|b: int|
                    j * pow64(k as nat) <= b < (j + 1) * pow64(k as nat) && 0 <= b
                        < m.size implies #[trigger] m.block_used(b) by {
                    let sub = b / p;
                    assert(j * bigp == (64 * j) * p) by (nonlinear_arith)
                        requires
                            bigp == 64 * p,
                    ;
                    assert((j + 1) * bigp == (64 * j + 64) * p) by (nonlinear_arith)
                        requires
                            bigp == 64 * p,
                    ;
                    assert(sub >= 64 * j) by {
                        vstd::arithmetic::div_mod::lemma_div_by_multiple(64 * j, p);
                        vstd::arithmetic::div_mod::lemma_div_is_ordered((64 * j) * p, b,
                            p);
                    }
                    assert(sub < 64 * j + 64) by {
                        assert(b < (64 * j + 64) * p == p * (64 * j + 64))
                            by (nonlinear_arith)
                            requires
                                b < (64 * j + 64) * p,
                        ;
                        vstd::arithmetic::div_mod::lemma_multiply_divide_lt(b, p, 64 * j
                            + 64);
                    }
                    let t = sub - 64 * j;
                    assert(sub / 64 == j && sub % 64 == t) by (nonlinear_arith)
                        requires
                            sub == 64 * j + t,
                            0 <= t < 64,
                    ;
                    lemma_bit_of_max(t as u64);
                    assert(m.bit_in_layer(k - 1, sub));
                    assert(sub < 64 * layer_words(sz, (k - 1) as nat));
                    Self::lemma_subtree_full(m, k - 1, sub);
                    vstd::arithmetic::div_mod::lemma_fundamental_div_mod(b, p);
                    assert(sub * p <= b < (sub + 1) * p) by (nonlinear_arith)
                        requires
                            b == p * sub + b % p,
                            0 <= b % p < p,
                    ;
                    assert(m.block_used(b));
                }
            } else {
                lemma_size_le_bits_pow(sz, k as nat);
                assert forall|b: int|
                    j * pow64(k as nat) <= b < (j + 1) * pow64(k as nat) && 0 <= b
                        < m.size implies #[trigger] m.block_used(b) by {
                    assert(j * bigp >= layer_bits(sz, k as nat) * bigp)
                        by (nonlinear_arith)
                        requires
                            j >= layer_bits(sz, k as nat),
                            bigp >= 1,
                    ;
                    assert(false);
                }
            }
        }
    }

    /// The lowest-indexed free block, if any: walk from the top layer
    /// down, descending into the first zero bit of each word.
    #[inline(always)]
    #[verifier::rlimit(100)]
    pub fn search_free_block(&self) -> (r: Option<u64>)
        requires
            self.wf(),
        ensures
            match r {
                Some(i) => {
                    &&& i < self.size
                    &&& !self.block_used(i as int)
                    &&& forall|b: int| 0 <= b < i ==> self.block_used(b)
                },
                None => forall|b: int| 0 <= b < self.size ==> self.block_used(b),
            },
    {
        let ghost sz = self.size as nat;
        let mut block_index: u64 = 0;
        let mut i: usize = self.layer_num;
        while i > 0
            invariant
                self.wf(),
                sz == self.size as nat,
                0 <= i <= self.layer_num,
                i == self.layer_num ==> block_index == 0,
                i >= 1 ==> block_index < layer_words(sz, (i - 1) as nat),
                i < self.layer_num ==> block_index < layer_bits(sz, i as nat),
                i < self.layer_num ==> !self.bit_in_layer(i as int, block_index as int),
                i == 0 ==> block_index < sz,
                i == 0 ==> !self.block_used(block_index as int),
                block_index < 0x0200_0000_0000_0000,
                forall|b: int|
                    0 <= b < block_index * pow64(i as nat) && b < self.size
                        ==> #[trigger] self.block_used(b),
            decreases i,
        {
            let ghost pre_bi = block_index as int;
            let d = i - 1;
            let w = self.c(d, block_index);
            let c32 = w.trailing_ones();
            proof {
                vstd::std_specs::bits::axiom_u64_trailing_ones(w);
            }
            let c: u64 = c32 as u64;
            if c == 64 {
                proof {
                    if i < self.layer_num {
                        assert(self.bit_in_layer(i as int, pre_bi) <==> self.word_in_layer(
                            i - 1,
                            pre_bi,
                        ) == u64::MAX);
                        assert(self.word_in_layer(i - 1, pre_bi) != u64::MAX);
                        assert(w == u64::MAX);
                        assert(false);
                    }
                    let top = (self.layer_num - 1) as int;
                    let p = pow64(top as nat) as int;
                    lemma_pow64_pos(top as nat);
                    lemma_layer_bits_ge_1(sz, top as nat);
                    lemma_ceil64_le(layer_bits(sz, top as nat));
                    assert(layer_bits(sz, self.layer_num as nat) == 1);
                    assert(layer_bits(sz, top as nat) <= 64);
                    lemma_size_le_bits_pow(sz, top as nat);
                    assert forall|b: int| 0 <= b < self.size implies self.block_used(
                        b,
                    ) by {
                        let t = b / p;
                        assert(b < 64 * p) by (nonlinear_arith)
                            requires
                                b < layer_bits(sz, top as nat) * p,
                                layer_bits(sz, top as nat) <= 64,
                                p >= 1,
                        ;
                        assert(b < p * 64) by (nonlinear_arith)
                            requires
                                b < 64 * p,
                        ;
                        vstd::arithmetic::div_mod::lemma_multiply_divide_lt(b, p, 64);
                        vstd::arithmetic::div_mod::lemma_div_pos_is_pos(b, p);
                        assert(t / 64 == 0 && t % 64 == t);
                        lemma_bit_of_max(t as u64);
                        assert(self.word_in_layer(top, 0) == u64::MAX);
                        assert(self.bit_in_layer(top, t));
                        assert(layer_words(sz, top as nat) >= 1);
                        Self::lemma_subtree_full(self, top, t);
                        vstd::arithmetic::div_mod::lemma_fundamental_div_mod(b, p);
                        assert(t * p <= b < (t + 1) * p) by (nonlinear_arith)
                            requires
                                b == p * t + b % p,
                                0 <= b % p < p,
                        ;
                        assert(self.block_used(b));
                    }
                }
                return None;
            }
            proof {
                let dd = d as int;
                let p = pow64(d as nat) as int;
                lemma_pow64_pos(d as nat);
                assert((block_index << 6) | c == 64 * block_index + c) by (bit_vector)
                    requires
                        block_index < 0x0200_0000_0000_0000u64,
                        c < 64,
                ;
                // bits before the zero bit are set, so their subtrees are full
                assert forall|b: int|
                    0 <= b < (64 * pre_bi + c) * p && b < self.size implies #[trigger] self.block_used(
                    b,
                ) by {
                    if b < pre_bi * pow64(i as nat) {
                    } else {
                        assert(pre_bi * pow64(i as nat) == (64 * pre_bi) * p)
                            by (nonlinear_arith)
                            requires
                                pow64(i as nat) == 64 * pow64(d as nat),
                                p == pow64(d as nat),
                        ;
                        let sub = b / p;
                        assert(sub >= 64 * pre_bi) by {
                            vstd::arithmetic::div_mod::lemma_div_by_multiple(64 * pre_bi,
                                p);
                            if b > (64 * pre_bi) * p {
                                vstd::arithmetic::div_mod::lemma_div_is_ordered(
                                    (64 * pre_bi) * p, b, p);
                            }
                        }
                        assert(sub < 64 * pre_bi + c) by {
                            assert(b < p * (64 * pre_bi + c)) by (nonlinear_arith)
                                requires
                                    b < (64 * pre_bi + c) * p,
                            ;
                            vstd::arithmetic::div_mod::lemma_multiply_divide_lt(b, p, 64
                                * pre_bi + c);
                        }
                        let t = sub - 64 * pre_bi;
                        assert(sub / 64 == pre_bi && sub % 64 == t) by (nonlinear_arith)
                            requires
                                sub == 64 * pre_bi + t,
                                0 <= t < 64,
                        ;
                        assert((w >> (t as u64)) & 1 == 1);
                        assert(self.bit_in_layer(dd, sub));
                        assert(sub < 64 * layer_words(sz, d as nat));
                        Self::lemma_subtree_full(self, dd, sub);
                        vstd::arithmetic::div_mod::lemma_fundamental_div_mod(b, p);
                        assert(sub * p <= b < (sub + 1) * p) by (nonlinear_arith)
                            requires
                                b == p * sub + b % p,
                                0 <= b % p < p,
                        ;
                        assert(self.block_used(b));
                    }
                }
                // the zero bit is a real bit of layer d
                let nb = 64 * pre_bi + c;
                assert((w >> c) & 1 == 0);
                assert(nb / 64 == pre_bi && nb % 64 == c) by (nonlinear_arith)
                    requires
                        nb == 64 * pre_bi + c,
                        0 <= c < 64,
                ;
                assert(!self.bit_in_layer(dd, nb));
                assert(nb < 64 * layer_words(sz, d as nat));
                if nb >= layer_bits(sz, d as nat) {
                    assert(self.bit_in_layer(dd, nb));
                    assert(false);
                }
                if d >= 1 {
                    lemma_layer_bits_ge_1(sz, (d - 1) as nat);
                    lemma_ceil64_le(layer_bits(sz, (d - 1) as nat));
                    assert(layer_bits(sz, d as nat) == layer_words(sz, (d - 1) as nat));
                }
                lemma_layer_words_le_first(sz, d as nat);
                lemma_ceil64_le(sz);
                assert(layer_words(sz, 0) == ceil64(sz));
                assert(ceil64(sz) <= 0x0004_0000_0000_0000);
                assert(nb < 64 * 0x0004_0000_0000_0000);
            }
            block_index = (block_index << 6) | c;
            i = d;
        }
        proof {
            lemma_pow64_pos(0);
            assert forall|b: int| 0 <= b < block_index implies self.block_used(b) by {
                assert(b < block_index * pow64(0)) by (nonlinear_arith)
                    requires
                        b < block_index,
                        pow64(0) == 1,
                ;
            }
        }
        Some(block_index)
    }

    /// True when `n` consecutive blocks starting at `s` are all free.
    pub open spec fn free_run(&self, s: int, n: int) -> bool {
        forall|b: int| s <= b < s + n ==> !(#[trigger] self.block_used(b))
    }

    /// 64 to the power `k`, computed.
    fn pow64_exec(k: usize) -> (r: u64)
        requires
            k <= 10,
        ensures
            r == pow64(k as nat),
            1 <= r <= 0x1000_0000_0000_0000,
    {
        proof {
            assert(pow64(10) == 0x1000_0000_0000_0000) by {
                reveal_with_fuel(pow64, 12);
            }
        }
        let mut acc: u64 = 1;
        let mut j: usize = 0;
        while j < k
            invariant
                j <= k <= 10,
                acc == pow64(j as nat),
                pow64(10) == 0x1000_0000_0000_0000,
            decreases k - j,
        {
            proof {
                lemma_pow64_mono((j + 1) as nat, 10);
            }
            acc = acc * 64;
            j = j + 1;
        }
        proof {
            lemma_pow64_mono(k as nat, 10);
            lemma_pow64_pos(k as nat);
        }
        acc
    }

    /// When the cursor is aligned to a full subtree of some upper layer,
    /// report that subtree's width so the scan can jump over it.
    fn try_skip(&self, i: u64) -> (r: Option<u64>)
        requires
            self.wf(),
            i < self.size,
        ensures
            match r {
                Some(step) => {
                    &&& 1 <= step <= 0x1000_0000_0000_0000
                    &&& forall|b: int|
                        i <= b < i + step && b < self.size ==> #[trigger] self.block_used(
                            b,
                        )
                },
                None => true,
            },
    {
        let ghost sz = self.size as nat;
        let mut k: usize = self.layer_num - 1;
        while k >= 1
            invariant
                self.wf(),
                sz == self.size as nat,
                i < self.size,
                k <= self.layer_num - 1,
            decreases k,
        {
            let step = Self::pow64_exec(k);
            if i % step == 0 {
                let idx = i / step;
                proof {
                    lemma_block_position(sz, i as int, k as nat);
                }
                let w = self.c(k, idx / 64);
                if (w >> (idx % 64)) & 1 == 1 {
                    proof {
                        let kk = k as int;
                        let p = step as int;
                        assert(self.bit_in_layer(kk, idx as int));
                        assert(idx < 64 * layer_words(sz, k as nat));
                        Self::lemma_subtree_full(self, kk, idx as int);
                        vstd::arithmetic::div_mod::lemma_fundamental_div_mod(i as int, p);
                        assert(i == p * idx) by (nonlinear_arith)
                            requires
                                i == p * (i as int / p) + (i as int % p),
                                i as int % p == 0,
                                idx == i as int / p,
                        ;
                        assert(idx * p == p * idx) by (nonlinear_arith);
                        assert((idx + 1) * p == idx * p + p) by (nonlinear_arith);
                        assert forall|b: int|
                            i <= b < i + step && b < self.size implies #[trigger] self.block_used(
                            b,
                        ) by {
                            assert(idx * p <= b < (idx + 1) * p);
                        }
                    }
                    return Some(step);
                }
            }
            k = k - 1;
        }
        None
    }

    /// The lowest start of `r_size` consecutive free blocks, if any: a
    /// linear scan of the leaf layer that jumps over full upper-layer
    /// subtrees.
    #[inline(always)]
    #[verifier::rlimit(100)]
    pub fn search_free_blocks(&self, r_size: u64) -> (r: Option<u64>)
        requires
            self.wf(),
            1 <= r_size <= self.size,
        ensures
            match r {
                Some(s) => {
                    &&& s + r_size <= self.size
                    &&& self.free_run(s as int, r_size as int)
                    &&& forall|s2: int|
                        0 <= s2 < s ==> !(#[trigger] self.free_run(s2, r_size as int))
                },
                None => forall|s2: int|
                    0 <= s2 <= self.size - r_size ==> !(#[trigger] self.free_run(s2,
                    r_size as int)),
            },
    {
        let ghost sz = self.size as nat;
        let ghost n = r_size as int;
        let mut i: u64 = 0;
        let mut count: u64 = 0;
        while i < self.size
            invariant
                self.wf(),
                sz == self.size as nat,
                1 <= r_size <= self.size,
                n == r_size as int,
                count <= i,
                count < r_size,
                i <= self.size + 0x1000_0000_0000_0000,
                i > self.size ==> count == 0,
                forall|b: int| i - count <= b < i ==> !(#[trigger] self.block_used(b)),
                forall|s2: int|
                    0 <= s2 < i - count && s2 + n <= self.size ==> !(
                    #[trigger] self.free_run(s2, n)),
            decreases self.size + 0x1000_0000_0000_0000 - i,
        {
            if i - count > self.size - r_size {
                proof {
                    assert forall|s2: int|
                        0 <= s2 <= self.size - r_size implies !(#[trigger] self.free_run(
                        s2,
                        n,
                    )) by {
                        assert(s2 < i - count);
                    }
                }
                return None;
            }
            match self.try_skip(i) {
                Some(step) => {
                    proof {
                        assert forall|s2: int|
                            0 <= s2 < i + step && s2 + n <= self.size implies !(
                        #[trigger] self.free_run(s2, n)) by {
                            if s2 < i - count {
                            } else {
                                if s2 + n <= i {
                                    assert forall|b: int|
                                        s2 <= b < s2 + n implies !self.block_used(b) by {}
                                    assert(self.free_run(s2, n));
                                    assert(!self.block_used(s2));
                                    assert(n <= count);
                                    assert(false);
                                } else {
                                    let b0 = if s2 >= i {
                                        s2
                                    } else {
                                        i as int
                                    };
                                    assert(i <= b0 < i + step);
                                    assert(b0 < self.size);
                                    assert(self.block_used(b0));
                                    assert(s2 <= b0 < s2 + n);
                                }
                            }
                        }
                    }
                    i = i + step;
                    count = 0;
                },
                None => {
                    proof {
                        lemma_block_position(sz, i as int, 0);
                        vstd::arithmetic::div_mod::lemma_div_basics(i as int);
                    }
                    let w = self.c(0, i / 64);
                    let used_bit = ((w >> (i % 64)) & 1) != 0;
                    proof {
                        assert(tree_path(i as int, 0) == i as int);
                        assert((i as int) % 64 == (i % 64) as int);
                        assert(((w >> (i % 64)) & 1) == 0 || ((w >> (i % 64)) & 1) == 1)
                            by (bit_vector);
                        assert(used_bit == self.block_used(i as int));
                    }
                    if used_bit {
                        proof {
                            assert forall|s2: int|
                                0 <= s2 < i + 1 && s2 + n <= self.size implies !(
                            #[trigger] self.free_run(s2, n)) by {
                                if s2 < i - count {
                                } else {
                                    if s2 + n <= i {
                                        assert(self.free_run(s2, n));
                                        assert(!self.block_used(s2));
                                        assert(n <= count);
                                        assert(false);
                                    } else {
                                        assert(s2 <= i < s2 + n);
                                        assert(self.block_used(i as int));
                                    }
                                }
                            }
                        }
                        count = 0;
                        i = i + 1;
                    } else {
                        count = count + 1;
                        if count == r_size {
                            proof {
                                let st = i + 1 - n;
                                assert forall|b: int| st <= b < st + n implies !(
                                #[trigger] self.block_used(b)) by {}
                                assert(self.free_run(st, n));
                            }
                            return Some(i + 1 - r_size);
                        }
                        i = i + 1;
                    }
                },
            }
        }
        proof {
            assert forall|s2: int|
                0 <= s2 <= self.size - r_size implies !(#[trigger] self.free_run(s2,
                n,
            )) by {
                if s2 >= i - count {
                    assert(s2 + n <= self.size <= i);
                    assert forall|b: int| s2 <= b < s2 + n implies !self.block_used(b) by {}
                    assert(!self.block_used(s2));
                    assert(n <= count);
                    assert(false);
                }
            }
        }
        None
    }

    /// The store during downward-started clearing of a release: the words
    /// on the path below layer `i` have their path bit cleared, everything
    /// else is untouched, and only the path bit of layer `i` may still
    /// disagree with the word below it.
    pub open spec fn release_pending(pre: FreeMap, s: FreeMap, blk: int, i: int) -> bool {
        let sz = pre.size as nat;
        &&& s.size == pre.size
        &&& s.layer_num == pre.layer_num
        &&& s.geometry_ok()
        &&& 0 <= i < s.layer_num
        &&& forall|k: nat, j: int|
            #![trigger s.word_in_layer(k as int, j)]
            k < pre.layer_num && 0 <= j < layer_words(sz, k) && !(k < i && j == tree_path(
                blk,
                k,
            ) / 64) ==> s.word_in_layer(k as int, j) == pre.word_in_layer(k as int, j)
        &&& forall|k: nat|
            k < i ==> #[trigger] s.word_in_layer(k as int, tree_path(blk, k) / 64) == (
            pre.word_in_layer(k as int, tree_path(blk, k) / 64) & !(1u64 << ((tree_path(
                blk,
                k,
            ) % 64) as u64)))
        &&& s.tail_ok()
        &&& forall|k: int, b: int|
            1 <= k < s.layer_num && 0 <= b < layer_bits(sz, k as nat) && !(k == i && b
                == tree_path(blk, i as nat)) ==> (#[trigger] s.bit_in_layer(k, b)
                <==> s.word_in_layer(k - 1, b) == u64::MAX)
        &&& i >= 1 ==> s.word_in_layer(i - 1, tree_path(blk, i as nat)) != u64::MAX
    }

    /// The store after a release has come to rest: well formed again,
    /// with the one leaf word changed by clearing the block's bit.
    pub open spec fn release_done(pre: FreeMap, s: FreeMap, blk: int) -> bool {
        let sz = pre.size as nat;
        &&& s.size == pre.size
        &&& s.layer_num == pre.layer_num
        &&& s.geometry_ok()
        &&& s.tail_ok()
        &&& s.coherent()
        &&& s.word_in_layer(0, blk / 64) == (pre.word_in_layer(0, blk / 64) & !(1u64 << ((
        blk % 64) as u64)))
        &&& forall|j: int|
            0 <= j < layer_words(sz, 0) && j != blk / 64 ==> #[trigger] s.word_in_layer(
                0,
                j,
            ) == pre.word_in_layer(0, j)
    }

    /// One step of release propagation: clearing the path bit of layer
    /// `i` either finishes the release (the word was not all ones, or the
    /// top was reached) or moves the pending disagreement one layer up.
    proof fn lemma_release_step(pre: FreeMap, s0: FreeMap, fin: FreeMap, blk: int, i: int,
        cur: u64, neww: u64)
        requires
            pre.wf(),
            0 <= blk < pre.size,
            FreeMap::release_pending(pre, s0, blk, i),
            cur == s0.word_in_layer(i, tree_path(blk, i as nat) / 64),
            neww == (cur & !(1u64 << ((tree_path(blk, i as nat) % 64) as u64))),
            fin.size == s0.size,
            fin.layer_num == s0.layer_num,
            fin.geometry_ok(),
            fin.word_in_layer(i, tree_path(blk, i as nat) / 64) == neww,
            forall|k: nat, j: int|
                #![trigger fin.word_in_layer(k as int, j)]
                k < pre.layer_num && 0 <= j < layer_words(pre.size as nat, k) && !(k == i
                    && j == tree_path(blk, i as nat) / 64) ==> fin.word_in_layer(
                    k as int,
                    j,
                ) == s0.word_in_layer(k as int, j),
        ensures
            cur == u64::MAX && i + 1 < pre.layer_num ==> FreeMap::release_pending(pre,
                fin, blk, i + 1),
            cur != u64::MAX || i + 1 == pre.layer_num ==> FreeMap::release_done(pre, fin,
                blk),
    {
        let sz = pre.size as nat;
        let tp = tree_path(blk, i as nat);
        let wi = tp / 64;
        let m = tp % 64;
        lemma_block_position(sz, blk, i as nat);
        lemma_andnot_bit(cur, m as u64);
        if i + 1 < pre.layer_num {
            lemma_block_position(sz, blk, (i + 1) as nat);
        }
        assert(((neww >> (m as u64)) & 1) == 0);
        assert(!fin.bit_in_layer(i, tp));
        // words relative to pre
        assert forall|k: nat, j: int|
            #![trigger fin.word_in_layer(k as int, j)]
            k < pre.layer_num && 0 <= j < layer_words(sz, k) && !(k < i + 1 && j
                == tree_path(blk, k) / 64) implies fin.word_in_layer(k as int, j)
            == pre.word_in_layer(k as int, j) by {
            lemma_block_position(sz, blk, k);
            assert(s0.word_in_layer(k as int, j) == pre.word_in_layer(k as int, j));
        }
        assert forall|k: nat|
            k < i + 1 implies #[trigger] fin.word_in_layer(k as int, tree_path(blk, k)
                / 64) == (pre.word_in_layer(k as int, tree_path(blk, k) / 64) & !(1u64
                << ((tree_path(blk, k) % 64) as u64))) by {
            lemma_block_position(sz, blk, k);
            if k < i {
                assert(s0.word_in_layer(k as int, tree_path(blk, k) / 64)
                    == fin.word_in_layer(k as int, tree_path(blk, k) / 64));
            } else {
                assert(s0.word_in_layer(i, wi) == pre.word_in_layer(i, wi));
            }
        }
        // tail bits unaffected: the cleared bit is a real bit
        assert forall|k: int, b: int|
            0 <= k < fin.layer_num && layer_bits(sz, k as nat) <= b < 64 * layer_words(
                sz,
                k as nat,
            ) implies #[trigger] fin.bit_in_layer(k, b) by {
            assert(s0.bit_in_layer(k, b));
            if k == i && b / 64 == wi {
                assert(b != tp);
                assert(b % 64 != m);
                assert((b % 64) as u64 != m as u64);
            } else {
                assert(fin.word_in_layer(k, b / 64) == s0.word_in_layer(k, b / 64));
            }
        }
        // coherence, except one layer up when the word had been all ones
        assert forall|k: int, b: int|
            1 <= k < fin.layer_num && 0 <= b < layer_bits(sz, k as nat) && !(k == i + 1
                && b == tree_path(blk, (i + 1) as nat)) implies (
        #[trigger] fin.bit_in_layer(k, b) <==> fin.word_in_layer(k - 1, b) == u64::MAX) by {
            if k == i && b == tp {
                assert(!fin.bit_in_layer(k, b));
                assert(fin.word_in_layer(i - 1, tp) == s0.word_in_layer(i - 1, tp));
                assert(s0.word_in_layer(i - 1, tp) != u64::MAX);
            } else {
                if k == i && b / 64 == wi {
                    assert(b % 64 != m);
                    assert((b % 64) as u64 != m as u64);
                    assert(fin.bit_in_layer(k, b) == s0.bit_in_layer(k, b));
                } else {
                    assert(fin.word_in_layer(k, b / 64) == s0.word_in_layer(k, b / 64));
                    assert(fin.bit_in_layer(k, b) == s0.bit_in_layer(k, b));
                }
                assert(fin.word_in_layer(k - 1, b) == s0.word_in_layer(k - 1, b));
                assert(s0.bit_in_layer(k, b) <==> s0.word_in_layer(k - 1, b) == u64::MAX);
            }
        }
        if cur == u64::MAX && i + 1 < pre.layer_num {
            assert(tree_path(blk, (i + 1) as nat) == wi);
            assert(fin.word_in_layer(i, tree_path(blk, (i + 1) as nat)) != u64::MAX);
            assert(FreeMap::release_pending(pre, fin, blk, i + 1));
        }
        if cur != u64::MAX || i + 1 == pre.layer_num {
            if i + 1 < pre.layer_num {
                lemma_block_position(sz, blk, (i + 1) as nat);
                assert(tree_path(blk, (i + 1) as nat) == wi);
                assert(fin.word_in_layer(i + 1, wi / 64) == s0.word_in_layer(i + 1, wi
                    / 64));
                assert(fin.bit_in_layer(i + 1, wi) == s0.bit_in_layer(i + 1, wi));
                assert(s0.bit_in_layer(i + 1, wi) <==> (cur == u64::MAX));
                assert(cur != u64::MAX);
                assert(fin.word_in_layer(i, wi) == neww);
                assert(neww != u64::MAX);
                assert(fin.bit_in_layer(i + 1, wi) <==> fin.word_in_layer(i, wi)
                    == u64::MAX);
            }
            assert(fin.coherent());
            lemma_pow64_pos(0);
            vstd::arithmetic::div_mod::lemma_div_basics(blk);
            assert(tree_path(blk, 0) == blk);
            if i == 0 {
                assert(fin.word_in_layer(0, blk / 64) == neww);
            } else {
                assert(fin.word_in_layer(0, tree_path(blk, 0) / 64) == (
                pre.word_in_layer(0, tree_path(blk, 0) / 64) & !(1u64 << ((tree_path(blk,
                    0,
                ) % 64) as u64))));
            }
            assert forall|j: int|
                0 <= j < layer_words(sz, 0) && j != blk / 64 implies #[trigger] fin.word_in_layer(
                0,
                j,
            ) == pre.word_in_layer(0, j) by {
                assert(tree_path(blk, 0) / 64 == blk / 64);
            }
            assert(FreeMap::release_done(pre, fin, blk));
        }
    }

    /// The store during upward propagation of a fill: the words on the
    /// path below layer `i` are set and all ones, everything else is
    /// untouched, and only the path bit of layer `i` may still disagree
    /// with the word below it.
    pub open spec fn fill_pending(pre: FreeMap, s: FreeMap, blk: int, i: int) -> bool {
        let sz = pre.size as nat;
        &&& s.size == pre.size
        &&& s.layer_num == pre.layer_num
        &&& s.geometry_ok()
        &&& 0 <= i < s.layer_num
        &&& forall|k: nat, j: int|
            #![trigger s.word_in_layer(k as int, j)]
            k < pre.layer_num && 0 <= j < layer_words(sz, k) && !(k < i && j == tree_path(
                blk,
                k,
            ) / 64) ==> s.word_in_layer(k as int, j) == pre.word_in_layer(k as int, j)
        &&& forall|k: nat|
            k < i ==> #[trigger] s.word_in_layer(k as int, tree_path(blk, k) / 64) == (
            pre.word_in_layer(k as int, tree_path(blk, k) / 64) | (1u64 << ((tree_path(
                blk,
                k,
            ) % 64) as u64)))
        &&& forall|k: nat|
            k < i ==> #[trigger] s.word_in_layer(k as int, tree_path(blk, k) / 64)
                == u64::MAX
        &&& s.tail_ok()
        &&& forall|k: int, b: int|
            1 <= k < s.layer_num && 0 <= b < layer_bits(sz, k as nat) && !(k == i && b
                == tree_path(blk, i as nat)) ==> (#[trigger] s.bit_in_layer(k, b)
                <==> s.word_in_layer(k - 1, b) == u64::MAX)
        &&& i >= 1 ==> s.word_in_layer(i - 1, tree_path(blk, i as nat)) == u64::MAX
    }

    /// The store after a fill has come to rest: well formed again, with
    /// the one leaf word changed by the block's bit.
    pub open spec fn fill_done(pre: FreeMap, s: FreeMap, blk: int) -> bool {
        let sz = pre.size as nat;
        &&& s.size == pre.size
        &&& s.layer_num == pre.layer_num
        &&& s.geometry_ok()
        &&& s.tail_ok()
        &&& s.coherent()
        &&& s.word_in_layer(0, blk / 64) == (pre.word_in_layer(0, blk / 64) | (1u64 << ((
        blk % 64) as u64)))
        &&& forall|j: int|
            0 <= j < layer_words(sz, 0) && j != blk / 64 ==> #[trigger] s.word_in_layer(
                0,
                j,
            ) == pre.word_in_layer(0, j)
    }

    /// One step of fill propagation: setting the path bit of layer `i`
    /// either finishes the fill (word not all ones, or top reached) or
    /// moves the pending disagreement one layer up.
    proof fn lemma_fill_step(pre: FreeMap, s0: FreeMap, fin: FreeMap, blk: int, i: int,
        cur: u64, neww: u64)
        requires
            pre.wf(),
            0 <= blk < pre.size,
            FreeMap::fill_pending(pre, s0, blk, i),
            cur == s0.word_in_layer(i, tree_path(blk, i as nat) / 64),
            neww == (cur | (1u64 << ((tree_path(blk, i as nat) % 64) as u64))),
            fin.size == s0.size,
            fin.layer_num == s0.layer_num,
            fin.geometry_ok(),
            fin.word_in_layer(i, tree_path(blk, i as nat) / 64) == neww,
            forall|k: nat, j: int|
                #![trigger fin.word_in_layer(k as int, j)]
                k < pre.layer_num && 0 <= j < layer_words(pre.size as nat, k) && !(k == i
                    && j == tree_path(blk, i as nat) / 64) ==> fin.word_in_layer(
                    k as int,
                    j,
                ) == s0.word_in_layer(k as int, j),
        ensures
            neww == u64::MAX && i + 1 < pre.layer_num ==> FreeMap::fill_pending(pre, fin,
                blk, i + 1),
            neww != u64::MAX || i + 1 == pre.layer_num ==> FreeMap::fill_done(pre, fin,
                blk),
    {
        let sz = pre.size as nat;
        let tp = tree_path(blk, i as nat);
        let wi = tp / 64;
        let m = tp % 64;
        lemma_block_position(sz, blk, i as nat);
        lemma_or_bit(cur, m as u64);
        if i + 1 < pre.layer_num {
            lemma_block_position(sz, blk, (i + 1) as nat);
        }
        assert(fin.bit_in_layer(i, tp) == (((neww >> ((tp % 64) as u64)) & 1) == 1));
        assert(((neww >> (m as u64)) & 1) == 1);
        // words relative to pre
        assert forall|k: nat, j: int|
            #![trigger fin.word_in_layer(k as int, j)]
            k < pre.layer_num && 0 <= j < layer_words(sz, k) && !(k < i + 1 && j
                == tree_path(blk, k) / 64) implies fin.word_in_layer(k as int, j)
            == pre.word_in_layer(k as int, j) by {
            lemma_block_position(sz, blk, k);
            assert(s0.word_in_layer(k as int, j) == pre.word_in_layer(k as int, j));
        }
        assert forall|k: nat|
            k < i + 1 implies #[trigger] fin.word_in_layer(k as int, tree_path(blk, k)
                / 64) == (pre.word_in_layer(k as int, tree_path(blk, k) / 64) | (1u64 << ((
        tree_path(blk, k) % 64) as u64))) by {
            lemma_block_position(sz, blk, k);
            if k < i {
                assert(s0.word_in_layer(k as int, tree_path(blk, k) / 64)
                    == fin.word_in_layer(k as int, tree_path(blk, k) / 64));
            } else {
                assert(s0.word_in_layer(i, wi) == pre.word_in_layer(i, wi));
            }
        }
        // tail bits survive an OR
        assert forall|k: int, b: int|
            0 <= k < fin.layer_num && layer_bits(sz, k as nat) <= b < 64 * layer_words(
                sz,
                k as nat,
            ) implies #[trigger] fin.bit_in_layer(k, b) by {
            assert(s0.bit_in_layer(k, b));
            if k == i && b / 64 == wi {
                assert(b != tp);
                assert(b % 64 != m);
                assert((b % 64) as u64 != m as u64);
            } else {
                assert(fin.word_in_layer(k, b / 64) == s0.word_in_layer(k, b / 64));
            }
        }
        // coherence, except one layer up when the word filled
        assert forall|k: int, b: int|
            1 <= k < fin.layer_num && 0 <= b < layer_bits(sz, k as nat) && !(k == i + 1
                && b == tree_path(blk, (i + 1) as nat)) implies (
        #[trigger] fin.bit_in_layer(k, b) <==> fin.word_in_layer(k - 1, b) == u64::MAX) by {
            if k == i && b == tp {
                assert(fin.bit_in_layer(k, b));
                assert(fin.word_in_layer(i - 1, tp) == s0.word_in_layer(i - 1, tp));
                assert(s0.word_in_layer(i - 1, tp) == u64::MAX);
            } else {
                if k == i && b / 64 == wi {
                    assert(b % 64 != m);
                    assert((b % 64) as u64 != m as u64);
                    assert(fin.bit_in_layer(k, b) == s0.bit_in_layer(k, b));
                } else {
                    assert(fin.word_in_layer(k, b / 64) == s0.word_in_layer(k, b / 64));
                    assert(fin.bit_in_layer(k, b) == s0.bit_in_layer(k, b));
                }
                if k - 1 == i && b == wi {
                    assert(b == tree_path(blk, (i + 1) as nat));
                    assert(k == i + 1);
                    assert(neww != u64::MAX);
                    assert(cur != u64::MAX);
                    assert(s0.bit_in_layer(k, b) <==> (cur == u64::MAX));
                    assert(!fin.bit_in_layer(k, b));
                } else {
                    assert(fin.word_in_layer(k - 1, b) == s0.word_in_layer(k - 1, b));
                    assert(s0.bit_in_layer(k, b) <==> s0.word_in_layer(k - 1, b)
                        == u64::MAX);
                }
            }
        }
        if neww == u64::MAX && i + 1 < pre.layer_num {
            assert(tree_path(blk, (i + 1) as nat) == wi);
            assert(fin.word_in_layer(i, tree_path(blk, (i + 1) as nat)) == u64::MAX);
            assert forall|k: nat|
                k < i + 1 implies #[trigger] fin.word_in_layer(k as int, tree_path(blk,
                k,
            ) / 64) == u64::MAX by {
                lemma_block_position(sz, blk, k);
                if k < i {
                    assert(s0.word_in_layer(k as int, tree_path(blk, k) / 64)
                        == fin.word_in_layer(k as int, tree_path(blk, k) / 64));
                }
            }
            assert(FreeMap::fill_pending(pre, fin, blk, i + 1));
        }
        if neww != u64::MAX || i + 1 == pre.layer_num {
            if i + 1 < pre.layer_num {
                lemma_block_position(sz, blk, (i + 1) as nat);
                assert(tree_path(blk, (i + 1) as nat) == wi);
                assert(fin.word_in_layer(i + 1, wi / 64) == s0.word_in_layer(i + 1, wi
                    / 64));
                assert(fin.bit_in_layer(i + 1, wi) == s0.bit_in_layer(i + 1, wi));
                assert(s0.bit_in_layer(i + 1, wi) <==> (cur == u64::MAX));
                assert(cur != u64::MAX);
                assert(fin.word_in_layer(i, wi) == neww);
                assert(fin.bit_in_layer(i + 1, wi) <==> fin.word_in_layer(i, wi)
                    == u64::MAX);
            }
            assert(fin.coherent());
            lemma_pow64_pos(0);
            vstd::arithmetic::div_mod::lemma_div_basics(blk);
            assert(tree_path(blk, 0) == blk);
            if i == 0 {
                assert(fin.word_in_layer(0, blk / 64) == neww);
            } else {
                assert(fin.word_in_layer(0, tree_path(blk, 0) / 64) == (
                pre.word_in_layer(0, tree_path(blk, 0) / 64) | (1u64 << ((tree_path(blk,
                    0,
                ) % 64) as u64))));
            }
            assert forall|j: int|
                0 <= j < layer_words(sz, 0) && j != blk / 64 implies #[trigger] fin.word_in_layer(
                0,
                j,
            ) == pre.word_in_layer(0, j) by {
                assert(tree_path(blk, 0) / 64 == blk / 64);
            }
            assert(FreeMap::fill_done(pre, fin, blk));
        }
    }

    /// A fresh map for `r_size` blocks: every block free, every layer's
    /// tail bits set so the fullness invariant holds from the start, with
    /// the least layer count that brings the tree down to one bit.
    pub fn new(r_size: u64) -> (r: Self)
        requires
            1 <= r_size <= MAX_BLOCK_COUNT,
        ensures
            r.wf(),
            r.size == r_size,
            r.layer_num > 1 ==> layer_bits(r_size as nat, (r.layer_num - 1) as nat) > 1,
            forall|b: int| 0 <= b < r_size ==> !r.block_used(b),
    {
        let layer_num = Self::log64_ceil(r_size);
        let mut pow_map: Vec<Vec<u64>> = Vec::new();
        let first: Vec<u64> = Vec::new();
        pow_map.push(first);
        let ghost sz = r_size as nat;
        let mut bits: u64 = r_size;
        let mut l: usize = 0;
        while l < layer_num
            invariant
                1 <= r_size <= MAX_BLOCK_COUNT,
                1 <= layer_num <= 11,
                layer_bits(sz, layer_num as nat) == 1,
                sz == r_size as nat,
                l <= layer_num,
                bits == layer_bits(sz, l as nat),
                pages_wf(pow_map@),
                pages_words(pow_map@) == layer_offset(sz, l as nat),
                forall|k: nat, j: int|
                    #![trigger init_word(sz, k, j)]
                    k < l && 0 <= j < layer_words(sz, k) ==> pages_word_at(pow_map@,
                        layer_offset(sz, k) + j) == init_word(sz, k, j),
            decreases layer_num - l,
        {
            proof {
                lemma_layer_bits_ge_1(sz, l as nat);
                lemma_layer_offset_bound(sz, (l + 1) as nat);
                lemma_ceil64_le(sz);
                let w0 = layer_words(sz, 0);
                assert((l + 1) * w0 <= 11 * w0) by (nonlinear_arith)
                    requires
                        l + 1 <= 11,
                        w0 >= 0,
                ;
                lemma_layer_words_le_first(sz, l as nat);
                assert(bits & 0x3F == bits % 64) by (bit_vector);
                assert(bits & 0x3F < 64) by (bit_vector);
            }
            let layer_mode = bits & 0x3F;
            let layer_size = Self::ceil64_u64(bits);
            let mut i: u64 = 0;
            while i < layer_size
                invariant
                    1 <= r_size <= MAX_BLOCK_COUNT,
                    sz == r_size as nat,
                    l < layer_num <= 11,
                    bits == layer_bits(sz, l as nat),
                    layer_mode == bits % 64,
                    layer_mode < 64,
                    layer_size == layer_words(sz, l as nat),
                    layer_offset(sz, (l + 1) as nat) < 0x0040_0000_0000_0000,
                    i <= layer_size,
                    pages_wf(pow_map@),
                    pages_words(pow_map@) == layer_offset(sz, l as nat) + i,
                    forall|k: nat, j: int|
                        #![trigger init_word(sz, k, j)]
                        k < l && 0 <= j < layer_words(sz, k) ==> pages_word_at(pow_map@,
                            layer_offset(sz, k) + j) == init_word(sz, k, j),
                    forall|j: int|
                        0 <= j < i ==> pages_word_at(pow_map@, layer_offset(sz, l as nat)
                            + j) == #[trigger] init_word(sz, l as nat, j),
                decreases layer_size - i,
            {
                let w: u64 = if layer_mode != 0 && i == layer_size - 1 {
                    (!0u64) << layer_mode
                } else {
                    0u64
                };
                proof {
                    assert(w == init_word(sz, l as nat, i as int));
                }
                push_word(&mut pow_map, w);
                i = i + 1;
                proof {
                    assert forall|k: nat, j: int|
                        k < l && 0 <= j < layer_words(sz, k) implies pages_word_at(
                        pow_map@,
                        layer_offset(sz, k) + j,
                    ) == init_word(sz, k, j) by {
                        lemma_layer_offset_mono(sz, (k + 1) as nat, l as nat);
                        assert(layer_offset(sz, k) + j < layer_offset(sz, l as nat));
                    }
                }
            }
            bits = layer_size;
            l = l + 1;
        }
        let r = FreeMap { pow_map, size: r_size, layer_num };
        proof {
            assert(r.geometry_ok());
            assert forall|k: int, j: int|
                0 <= k < r.layer_num && 0 <= j < layer_words(sz, k as nat) implies {
                &&& #[trigger] r.word_in_layer(k, j) == init_word(sz, k as nat, j)
                &&& r.word_in_layer(k, j) != u64::MAX
            } by {
                assert(init_word(sz, k as nat, j) == init_word(sz, k as nat, j));
                assert(0 <= 64 * j < 64 * layer_words(sz, k as nat)) by (nonlinear_arith)
                    requires
                        0 <= j < layer_words(sz, k as nat),
                ;
                vstd::arithmetic::div_mod::lemma_div_multiples_vanish(j, 64);
                assert((64 * j) / 64 == j);
                lemma_init_bit(sz, k as nat, 64 * j);
            }
            assert forall|k: int, b: int|
                0 <= k < r.layer_num && 0 <= b < 64 * layer_words(sz, k as nat) implies (
            #[trigger] r.bit_in_layer(k, b) <==> b >= layer_bits(sz, k as nat)) by {
                assert(b / 64 < layer_words(sz, k as nat));
                assert(r.word_in_layer(k, b / 64) == init_word(sz, k as nat, b / 64));
                lemma_init_bit(sz, k as nat, b);
            }
            assert(r.tail_ok());
            assert forall|k: int, b: int|
                1 <= k < r.layer_num && 0 <= b < layer_bits(sz, k as nat) implies (
            r.bit_in_layer(k, b) <==> r.word_in_layer(k - 1, b) == u64::MAX) by {
                assert(layer_bits(sz, k as nat) == layer_words(sz, (k - 1) as nat));
                assert(!r.bit_in_layer(k, b));
                assert(r.word_in_layer(k - 1, b) != u64::MAX);
            }
            assert(r.coherent());
            assert forall|b: int| 0 <= b < r_size implies !r.block_used(b) by {
                lemma_ceil64_le(sz);
                assert(0 <= b < 64 * layer_words(sz, 0));
            }
        }
        r
    }

    /// The upper layers are a function of the leaf layer: two well-formed
    /// maps of the same shape that agree on every leaf bit agree on every
    /// bit of layer `k`.
    pub proof fn lemma_layers_determined(m1: &FreeMap, m2: &FreeMap, k: int)
        requires
            m1.wf(),
            m2.wf(),
            m1.size == m2.size,
            m1.layer_num == m2.layer_num,
            0 <= k < m1.layer_num,
            forall|b: int|
                0 <= b < 64 * layer_words(m1.size as nat, 0) ==> (#[trigger] m1.bit_in_layer(
                    0,
                    b,
                ) <==> m2.bit_in_layer(0, b)),
        ensures
            forall|b: int|
                0 <= b < 64 * layer_words(m1.size as nat, k as nat) ==> (
                #[trigger] m1.bit_in_layer(k, b) <==> m2.bit_in_layer(k, b)),
        decreases k,
    {
        let sz = m1.size as nat;
        if k > 0 {
            Self::lemma_layers_determined(m1, m2, k - 1);
            assert(layer_bits(sz, k as nat) == layer_words(sz, (k - 1) as nat));
            assert forall|b: int|
                0 <= b < 64 * layer_words(sz, k as nat) implies (#[trigger] m1.bit_in_layer(
                k,
                b,
            ) <==> m2.bit_in_layer(k, b)) by {
                if b < layer_bits(sz, k as nat) {
                    let w1 = m1.word_in_layer(k - 1, b);
                    let w2 = m2.word_in_layer(k - 1, b);
                    assert(m1.bit_in_layer(k, b) <==> w1 == u64::MAX);
                    assert(m2.bit_in_layer(k, b) <==> w2 == u64::MAX);
                    if w1 == u64::MAX && w2 != u64::MAX {
                        vstd::std_specs::bits::axiom_u64_trailing_ones(w2);
                        let t0 = vstd::std_specs::bits::u64_trailing_ones(w2) as int;
                        assert((w2 >> (t0 as u64)) & 1 == 0);
                        lemma_bit_of_max(t0 as u64);
                        assert((64 * b + t0) / 64 == b && (64 * b + t0) % 64 == t0)
                            by (nonlinear_arith)
                            requires
                                0 <= t0 < 64,
                                0 <= b,
                        ;
                        assert(m1.bit_in_layer(k - 1, 64 * b + t0));
                        assert(!m2.bit_in_layer(k - 1, 64 * b + t0));
                        assert(0 <= 64 * b + t0 < 64 * layer_words(sz, (k - 1) as nat))
                            by (nonlinear_arith)
                            requires
                                0 <= b < layer_words(sz, (k - 1) as nat),
                                0 <= t0 < 64,
                        ;
                        assert(false);
                    }
                    if w2 == u64::MAX && w1 != u64::MAX {
                        vstd::std_specs::bits::axiom_u64_trailing_ones(w1);
                        let t0 = vstd::std_specs::bits::u64_trailing_ones(w1) as int;
                        assert((w1 >> (t0 as u64)) & 1 == 0);
                        lemma_bit_of_max(t0 as u64);
                        assert((64 * b + t0) / 64 == b && (64 * b + t0) % 64 == t0)
                            by (nonlinear_arith)
                            requires
                                0 <= t0 < 64,
                                0 <= b,
                        ;
                        assert(m2.bit_in_layer(k - 1, 64 * b + t0));
                        assert(!m1.bit_in_layer(k - 1, 64 * b + t0));
                        assert(0 <= 64 * b + t0 < 64 * layer_words(sz, (k - 1) as nat))
                            by (nonlinear_arith)
                            requires
                                0 <= b < layer_words(sz, (k - 1) as nat),
                                0 <= t0 < 64,
                        ;
                        assert(false);
                    }
                } else {
                    assert(m1.bit_in_layer(k, b));
                    assert(m2.bit_in_layer(k, b));
                }
            }
        }
    }

    /// Filling a free block and then releasing it restores the map
    /// bit-for-bit: with the contracts of `fill_free_block` and
    /// `release_free_block` as hypotheses, every bit of every layer of
    /// the final map equals the map before the fill.
    pub proof fn lemma_fill_release_restores(m0: &FreeMap, m1: &FreeMap, m2: &FreeMap,
        blk: int)
        requires
            m0.wf(),
            m1.wf(),
            m2.wf(),
            0 <= blk < m0.size,
            !m0.block_used(blk),
            m1.size == m0.size,
            m1.layer_num == m0.layer_num,
            forall|b: int|
                0 <= b < m0.size && b != blk ==> (#[trigger] m1.block_used(b)
                    == m0.block_used(b)),
            m2.size == m1.size,
            m2.layer_num == m1.layer_num,
            !m2.block_used(blk),
            forall|b: int|
                0 <= b < m1.size && b != blk ==> (#[trigger] m2.block_used(b)
                    == m1.block_used(b)),
        ensures
            forall|k: int, b: int|
                0 <= k < m0.layer_num && 0 <= b < 64 * layer_words(m0.size as nat,
                    k as nat) ==> (#[trigger] m2.bit_in_layer(k, b) <==> m0.bit_in_layer(
                    k,
                    b,
                )),
    {
        let sz = m0.size as nat;
        assert forall|b: int|
            0 <= b < 64 * layer_words(sz, 0) implies (#[trigger] m0.bit_in_layer(0, b)
            <==> m2.bit_in_layer(0, b)) by {
            if b < m0.size {
                if b == blk {
                    assert(!m0.block_used(b));
                    assert(!m2.block_used(b));
                } else {
                    assert(m2.block_used(b) == m1.block_used(b));
                    assert(m1.block_used(b) == m0.block_used(b));
                }
            } else {
                assert(m0.bit_in_layer(0, b));
                assert(m2.bit_in_layer(0, b));
            }
        }
        assert forall|k: int, b: int|
            0 <= k < m0.layer_num && 0 <= b < 64 * layer_words(sz, k as nat) implies (
        #[trigger] m2.bit_in_layer(k, b) <==> m0.bit_in_layer(k, b)) by {
            Self::lemma_layers_determined(m0, m2, k);
        }
    }
}

} // verus!
