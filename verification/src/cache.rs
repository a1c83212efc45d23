//! Block cache over a direct-I/O file: fixed-size slabs held in an LRU
//! map keyed by block index, with an unsorted pending-write list that a
//! sync drains in ascending block order. The file itself is driven by
//! the caller; this module owns the residency and staging logic.

use crate::error::IDVDError;
use vstd::prelude::*;

verus! {

/// An owned byte buffer holding exactly one block. The alignment that
/// direct I/O would need is recorded, not enforced: this type models the
/// slab's bytes, and a caller doing real unbuffered I/O must provide the
/// aligned storage itself.
pub struct CacheEntry {
    buf: Vec<u8>,
    align: usize,
}

impl View for CacheEntry {
    type V = Seq<u8>;

    closed spec fn view(&self) -> Seq<u8> {
        self.buf@
    }
}

impl CacheEntry {
    /// The alignment the buffer was requested with.
    pub closed spec fn spec_align(&self) -> usize {
        self.align
    }

    /// A zero-filled buffer of `size` bytes, recording the requested
    /// power-of-two alignment.
    pub fn with_size_aligned(size: usize, align: usize) -> (r: Self)
        requires
            align >= 1,
            (align & (align - 1) as usize) == 0,
        ensures
            r@.len() == size,
            forall|i: int| 0 <= i < size ==> r@[i] == 0u8,
            r.spec_align() == align,
    {
        let mut buf: Vec<u8> = Vec::new();
        let mut i: usize = 0;
        while i < size
            invariant
                i <= size,
                buf@.len() == i,
                forall|j: int| 0 <= j < i ==> buf@[j] == 0u8,
            decreases size - i,
        {
            buf.push(0u8);
            i = i + 1;
        }
        CacheEntry { buf, align }
    }

    /// Number of bytes held.
    pub fn len(&self) -> (r: usize)
        ensures
            r == self@.len(),
    {
        self.buf.len()
    }

    /// The byte at offset `i`.
    pub fn byte(&self, i: usize) -> (r: u8)
        requires
            i < self@.len(),
        ensures
            r == self@[i as int],
    {
        self.buf[i]
    }

    /// Replace the byte at offset `i`.
    pub fn set_byte(&mut self, i: usize, v: u8)
        requires
            i < old(self)@.len(),
        ensures
            final(self)@ == old(self)@.update(i as int, v),
            final(self).spec_align() == old(self).spec_align(),
    {
        self.buf[i] = v;
    }

    /// A borrowed view of the bytes.
    pub fn as_slice(&self) -> (r: &[u8])
        ensures
            r@ == self@,
    {
        self.buf.as_slice()
    }

    /// A mutable view of the bytes.
    pub fn as_mut_slice(&mut self) -> (r: &mut [u8])
        ensures
            r@ == old(self)@,
            final(r)@ == final(self)@,
            final(self).spec_align() == old(self).spec_align(),
    {
        self.buf.as_mut_slice()
    }
}

impl Clone for CacheEntry {
    /// A deep copy: same bytes, same alignment, fresh storage.
    fn clone(&self) -> (r: Self)
        ensures
            r@ == self@,
            r.spec_align() == self.spec_align(),
    {
        CacheEntry { buf: self.buf.clone(), align: self.align }
    }
}

/// Declares lru's `LruCache` so it can be held in a field; values of it
/// are opaque to the verifier and reached through the wrappers below.
#[verifier::external_type_specification]
#[verifier::external_body]
#[verifier::reject_recursive_types(K)]
#[verifier::reject_recursive_types(V)]
#[verifier::reject_recursive_types(S)]
pub struct ExLruCache<K, V, S>(lru::LruCache<K, V, S>);

/// Declares the default hasher type that `LruCache` is parameterized
/// over.
#[verifier::external_type_specification]
#[verifier::external_body]
pub struct ExDefaultHasher(lru::DefaultHasher);

/// The blocks resident in an LRU cache, as a map from block index to
/// the block's bytes.
pub uninterp spec fn lru_view(m: lru::LruCache<u64, CacheEntry>) -> Map<u64, Seq<u8>>;

/// The capacity the LRU cache was created with.
pub uninterp spec fn lru_cap(m: lru::LruCache<u64, CacheEntry>) -> usize;

/// Relies on lru's `LruCache::new`: an empty cache that holds at most
/// `cap` entries.
#[verifier::external_body]
fn lru_new(cap: usize) -> (m: lru::LruCache<u64, CacheEntry>)
    requires
        cap >= 1,
    ensures
        lru_view(m).dom().finite(),
        lru_view(m).len() == 0,
        lru_cap(m) == cap,
{
    lru::LruCache::new(std::num::NonZeroUsize::new(cap).unwrap())
}

/// Relies on lru's `LruCache::contains`: whether a key is resident.
#[verifier::external_body]
fn lru_contains(m: &lru::LruCache<u64, CacheEntry>, k: u64) -> (r: bool)
    ensures
        r == lru_view(*m).contains_key(k),
{
    m.contains(&k)
}

/// Relies on lru's `LruCache::get`: the resident value for a key, or
/// `None`; promotes the entry to most recently used, leaving the
/// contents unchanged.
#[verifier::external_body]
fn lru_get(m: &mut lru::LruCache<u64, CacheEntry>, k: u64) -> (r: Option<CacheEntry>)
    ensures
        lru_view(*final(m)) == lru_view(*old(m)),
        lru_cap(*final(m)) == lru_cap(*old(m)),
        match r {
            Some(e) => lru_view(*old(m)).contains_key(k) && e@ == lru_view(*old(m))[k],
            None => !lru_view(*old(m)).contains_key(k),
        },
{
    m.get(&k).cloned()
}

/// Relies on lru's `LruCache::put`: stores the value as most recently
/// used. A present key is overwritten, its old value returned; a new key
/// on a full cache evicts the least recently used entry.
#[verifier::external_body]
fn lru_put(m: &mut lru::LruCache<u64, CacheEntry>, k: u64, v: CacheEntry) -> (r: Option<
    CacheEntry,
>)
    requires
        lru_view(*old(m)).dom().finite(),
        lru_view(*old(m)).len() <= lru_cap(*old(m)),
    ensures
        lru_cap(*final(m)) == lru_cap(*old(m)),
        lru_view(*final(m)).dom().finite(),
        lru_view(*final(m)).contains_key(k),
        lru_view(*final(m))[k] == v@,
        forall|k2: u64|
            k2 != k && #[trigger] lru_view(*final(m)).contains_key(k2) ==> lru_view(*old(m)).contains_key(k2) && lru_view(*final(m))[k2] == lru_view(*old(m))[k2],
        lru_view(*old(m)).contains_key(k) ==> lru_view(*final(m)) == lru_view(*old(m)).insert(
            k,
            v@,
        ),
        !lru_view(*old(m)).contains_key(k) && lru_view(*old(m)).len() < lru_cap(*old(m))
            ==> lru_view(*final(m)) == lru_view(*old(m)).insert(k, v@),
        lru_view(*final(m)).len() <= lru_cap(*final(m)),
        match r {
            Some(o) => lru_view(*old(m)).contains_key(k) && o@ == lru_view(*old(m))[k],
            None => !lru_view(*old(m)).contains_key(k),
        },
{
    m.put(k, v)
}

/// Relies on lru's `LruCache::pop`: removes and returns the resident
/// value for a key.
#[verifier::external_body]
fn lru_pop(m: &mut lru::LruCache<u64, CacheEntry>, k: u64) -> (r: Option<CacheEntry>)
    ensures
        lru_cap(*final(m)) == lru_cap(*old(m)),
        lru_view(*final(m)) == lru_view(*old(m)).remove(k),
        match r {
            Some(e) => lru_view(*old(m)).contains_key(k) && e@ == lru_view(*old(m))[k],
            None => !lru_view(*old(m)).contains_key(k),
        },
{
    m.pop(&k)
}

/// The staged writes of a pending list, as (block index, bytes) pairs.
pub open spec fn pend_view(s: Seq<(u64, CacheEntry)>) -> Seq<(u64, Seq<u8>)> {
    s.map_values(|p: (u64, CacheEntry)| (p.0, p.1@))
}

/// Selects the staged writes of one block.
pub open spec fn key_is(key: u64) -> spec_fn((u64, Seq<u8>)) -> bool {
    |p: (u64, Seq<u8>)| p.0 == key
}

/// Filtering after appending one element appends it exactly when it
/// matches.
proof fn lemma_filter_push(
    s: Seq<(u64, Seq<u8>)>,
    pred: spec_fn((u64, Seq<u8>)) -> bool,
    x: (u64, Seq<u8>),
)
    ensures
        s.push(x).filter(pred) == (if pred(x) {
            s.filter(pred).push(x)
        } else {
            s.filter(pred)
        }),
{
    reveal(Seq::filter);
    assert(s.push(x).drop_last() =~= s);
    assert(s.push(x).last() == x);
}

/// The filter of a one-element list keeps or drops that element.
proof fn lemma_filter_singleton(pred: spec_fn((u64, Seq<u8>)) -> bool, x: (u64, Seq<u8>))
    ensures
        seq![x].filter(pred) == (if pred(x) {
            seq![x]
        } else {
            Seq::<(u64, Seq<u8>)>::empty()
        }),
{
    reveal(Seq::filter);
    assert(Seq::<(u64, Seq<u8>)>::empty().push(x) =~= seq![x]);
    lemma_filter_push(Seq::<(u64, Seq<u8>)>::empty(), pred, x);
}

/// Block-granular cache driver: an LRU of resident blocks plus the
/// unsorted list of staged writes awaiting a sync.
pub struct DriverCash {
    /// Capacity of the resident map, in blocks.
    pub cashed_max_blocks: usize,
    /// Size of every block, in bytes.
    pub block_size: u64,
    /// The resident blocks, most recently used first.
    pub map: lru::LruCache<u64, CacheEntry>,
    /// Staged writes, in the order they were issued.
    pub write_buf: Vec<(u64, CacheEntry)>,
}

impl DriverCash {
    /// The resident blocks as a map from block index to bytes.
    pub open spec fn cache_view(&self) -> Map<u64, Seq<u8>> {
        lru_view(self.map)
    }

    /// The staged writes as (block index, bytes) pairs.
    pub open spec fn pending(&self) -> Seq<(u64, Seq<u8>)> {
        pend_view(self.write_buf@)
    }

    /// Well-formed: positive geometry, the map within its capacity, and
    /// every resident or staged slab exactly one block long.
    pub open spec fn wf(&self) -> bool {
        &&& self.block_size >= 1
        &&& self.block_size <= 0x4000_0000
        &&& (self.block_size & (self.block_size - 1) as u64) == 0
        &&& self.cashed_max_blocks >= 1
        &&& lru_cap(self.map) == self.cashed_max_blocks
        &&& self.cache_view().dom().finite()
        &&& self.cache_view().len() <= self.cashed_max_blocks
        &&& forall|k: u64|
            #[trigger] self.cache_view().contains_key(k) ==> self.cache_view()[k].len()
                == self.block_size
        &&& forall|i: int|
            0 <= i < self.pending().len() ==> (#[trigger] self.pending()[i]).1.len()
                == self.block_size
    }

    /// An empty driver for blocks of `block_size` bytes, caching at most
    /// `cashed_max_blocks` of them.
    pub fn new(cashed_max_blocks: usize, block_size: u64) -> (r: Self)
        requires
            cashed_max_blocks >= 1,
            1 <= block_size <= 0x4000_0000,
            (block_size & (block_size - 1) as u64) == 0,
        ensures
            r.wf(),
            r.cashed_max_blocks == cashed_max_blocks,
            r.block_size == block_size,
            r.cache_view() == Map::<u64, Seq<u8>>::empty(),
            r.pending() == Seq::<(u64, Seq<u8>)>::empty(),
    {
        let r = DriverCash {
            cashed_max_blocks,
            block_size,
            map: lru_new(cashed_max_blocks),
            write_buf: Vec::new(),
        };
        proof {
            assert(r.pending() =~= Seq::<(u64, Seq<u8>)>::empty());
            assert(r.cache_view().dom() =~= Set::<u64>::empty()) by {
                if exists|k: u64| r.cache_view().dom().contains(k) {
                    let k = choose|k: u64| r.cache_view().dom().contains(k);
                    vstd::set_lib::lemma_set_empty_equivalency_len(r.cache_view().dom());
                }
            }
            assert(r.cache_view() =~= Map::<u64, Seq<u8>>::empty());
        }
        r
    }

    /// Whether a block is resident.
    pub fn contain(&self, block_pos: u64) -> (r: bool)
        ensures
            r == self.cache_view().contains_key(block_pos),
    {
        lru_contains(&self.map, block_pos)
    }

    /// A copy of a resident block, promoting it to most recently used;
    /// `None` when the block is not resident and must be read from the
    /// backing file.
    pub fn read_block(&mut self, block_pos: u64) -> (r: Option<CacheEntry>)
        requires
            old(self).wf(),
        ensures
            final(self).wf(),
            final(self).cache_view() == old(self).cache_view(),
            final(self).pending() == old(self).pending(),
            final(self).block_size == old(self).block_size,
            final(self).cashed_max_blocks == old(self).cashed_max_blocks,
            match r {
                Some(e) => {
                    &&& old(self).cache_view().contains_key(block_pos)
                    &&& e@ == old(self).cache_view()[block_pos]
                    &&& e@.len() == old(self).block_size
                },
                None => !old(self).cache_view().contains_key(block_pos),
            },
    {
        let r = lru_get(&mut self.map, block_pos);
        proof {
            assert(self.write_buf == old(self).write_buf);
            assert(self.pending() == old(self).pending());
        }
        r
    }

    /// Make a block resident, evicting the least recently used entry if
    /// the cache is full.
    pub fn insert_block(&mut self, block_pos: u64, entry: CacheEntry)
        requires
            old(self).wf(),
            entry@.len() == old(self).block_size,
        ensures
            final(self).wf(),
            final(self).pending() == old(self).pending(),
            final(self).block_size == old(self).block_size,
            final(self).cashed_max_blocks == old(self).cashed_max_blocks,
            final(self).cache_view().contains_key(block_pos),
            final(self).cache_view()[block_pos] == entry@,
            forall|k2: u64|
                k2 != block_pos && #[trigger] final(self).cache_view().contains_key(k2)
                    ==> old(self).cache_view().contains_key(k2) && final(self).cache_view()[k2] == old(self).cache_view()[k2],
            old(self).cache_view().contains_key(block_pos) || old(self).cache_view().len()
                < old(self).cashed_max_blocks ==> final(self).cache_view() == old(self).cache_view().insert(block_pos, entry@),
    {
        let _old = lru_put(&mut self.map, block_pos, entry);
        proof {
            assert(self.write_buf == old(self).write_buf);
            assert(self.pending() == old(self).pending());
        }
    }

    /// Stage a write: remember the slab for the next sync, and if the
    /// block is resident overwrite the resident copy too. A slab whose
    /// length is not the block size is rejected and nothing changes.
    pub fn write_block(&mut self, block_pos: u64, data: CacheEntry) -> (r: Result<
        (),
        IDVDError,
    >)
        requires
            old(self).wf(),
        ensures
            final(self).wf(),
            final(self).block_size == old(self).block_size,
            final(self).cashed_max_blocks == old(self).cashed_max_blocks,
            data@.len() != old(self).block_size <==> r is Err,
            r is Err ==> final(self).cache_view() == old(self).cache_view() && final(self).pending() == old(self).pending(),
            r is Ok ==> final(self).pending() == old(self).pending().push(
                (block_pos, data@),
            ),
            r is Ok && old(self).cache_view().contains_key(block_pos) ==> final(self).cache_view() == old(self).cache_view().insert(block_pos, data@),
            r is Ok && !old(self).cache_view().contains_key(block_pos) ==> final(self).cache_view() == old(self).cache_view(),
    {
        if data.len() as u64 != self.block_size {
            return Err(IDVDError::Other("Invalid block size".to_string()));
        }
        if lru_contains(&self.map, block_pos) {
            let copy = data.clone();
            let _old = lru_put(&mut self.map, block_pos, copy);
        }
        proof {
            assert(self.write_buf == old(self).write_buf);
        }
        let ghost pre_pend = self.pending();
        let ghost pre_map = self.map;
        self.write_buf.push((block_pos, data));
        proof {
            assert(self.map == pre_map);
            assert(pre_pend == old(self).pending());
            assert(self.pending() =~= pre_pend.push((block_pos, data@)));
            assert forall|i: int|
                0 <= i < self.pending().len() implies (#[trigger] self.pending()[i]).1.len()
                == self.block_size by {
                if i < pre_pend.len() {
                    assert(self.pending()[i] == pre_pend[i]);
                    assert(old(self).pending()[i].1.len() == old(self).block_size);
                } else {
                    assert(self.pending()[i] == (block_pos, data@));
                    assert(data@.len() == old(self).block_size);
                }
            }
        }
        Ok(())
    }

    /// Drop a block from the resident map.
    pub fn drop_block(&mut self, block_pos: u64)
        requires
            old(self).wf(),
        ensures
            final(self).wf(),
            final(self).cache_view() == old(self).cache_view().remove(block_pos),
            final(self).pending() == old(self).pending(),
            final(self).block_size == old(self).block_size,
            final(self).cashed_max_blocks == old(self).cashed_max_blocks,
    {
        let _e = lru_pop(&mut self.map, block_pos);
        proof {
            assert(self.write_buf == old(self).write_buf);
            assert(self.pending() == old(self).pending());
            vstd::set_lib::lemma_len_subset(self.cache_view().dom(),
                old(self).cache_view().dom());
        }
    }

    /// Empty the resident map; staged writes stay.
    pub fn clear(&mut self)
        requires
            old(self).wf(),
        ensures
            final(self).wf(),
            final(self).cache_view() == Map::<u64, Seq<u8>>::empty(),
            final(self).pending() == old(self).pending(),
            final(self).block_size == old(self).block_size,
            final(self).cashed_max_blocks == old(self).cashed_max_blocks,
    {
        self.map = lru_new(self.cashed_max_blocks);
        proof {
            assert(self.write_buf == old(self).write_buf);
            assert(self.pending() == old(self).pending());
            assert(self.cache_view().dom() =~= Set::<u64>::empty()) by {
                if exists|k: u64| self.cache_view().dom().contains(k) {
                    let k = choose|k: u64| self.cache_view().dom().contains(k);
                    vstd::set_lib::lemma_set_empty_equivalency_len(
                        self.cache_view().dom(),
                    );
                }
            }
            assert(self.cache_view() =~= Map::<u64, Seq<u8>>::empty());
        }
    }

    /// The staged writes, copied out in ascending block order; what a
    /// sync hands to the file.
    pub fn sorted_pending(&self) -> (r: Vec<(u64, CacheEntry)>)
        requires
            self.wf(),
        ensures
            pend_view(r@).to_multiset() == self.pending().to_multiset(),
            forall|a: int, b: int| 0 <= a < b < r@.len() ==> r@[a].0 <= r@[b].0,
            forall|key: u64|
                #[trigger] pend_view(r@).filter(key_is(key)) == self.pending().filter(
                    key_is(key),
                ),
            forall|i: int|
                0 <= i < r@.len() ==> (#[trigger] r@[i]).1@.len() == self.block_size,
    {
        let mut rest: Vec<(u64, CacheEntry)> = Vec::new();
        let mut i: usize = 0;
        while i < self.write_buf.len()
            invariant
                self.wf(),
                i <= self.write_buf@.len(),
                rest@.len() == i,
                forall|j: int| 0 <= j < i ==> pend_view(rest@)[j] == self.pending()[j],
            decreases self.write_buf@.len() - i,
        {
            let p = &self.write_buf[i];
            rest.push((p.0, p.1.clone()));
            i = i + 1;
        }
        proof {
            assert(pend_view(rest@) =~= self.pending());
        }
        let mut out: Vec<(u64, CacheEntry)> = Vec::new();
        proof {
            broadcast use vstd::multiset::group_multiset_axioms;
            broadcast use vstd::seq_lib::group_to_multiset_ensures;

            assert forall|i2: int|
                0 <= i2 < rest@.len() implies (#[trigger] rest@[i2]).1@.len()
                == self.block_size by {
                assert(pend_view(rest@)[i2] == self.pending()[i2]);
                assert(self.pending()[i2].1.len() == self.block_size);
            }
            assert(pend_view(out@) =~= Seq::<(u64, Seq<u8>)>::empty());
            assert(pend_view(out@).to_multiset().len() == 0);
            vstd::multiset::lemma_multiset_empty_len(pend_view(out@).to_multiset());
            assert(pend_view(out@).to_multiset().add(pend_view(rest@).to_multiset())
                =~= pend_view(rest@).to_multiset());
            assert forall|key: u64|
                #[trigger] pend_view(out@).filter(key_is(key)) + pend_view(rest@).filter(
                    key_is(key),
                ) == self.pending().filter(key_is(key)) by {
                reveal(Seq::filter);
                assert(pend_view(out@).filter(key_is(key)) =~= Seq::<(
                    u64,
                    Seq<u8>,
                )>::empty());
                assert(pend_view(out@).filter(key_is(key)) + pend_view(rest@).filter(
                    key_is(key),
                ) =~= pend_view(rest@).filter(key_is(key)));
                assert(pend_view(rest@) == self.pending());
            }
        }
        while rest.len() > 0
            invariant
                self.wf(),
                pend_view(out@).to_multiset().add(pend_view(rest@).to_multiset())
                    == self.pending().to_multiset(),
                forall|key: u64|
                    #[trigger] pend_view(out@).filter(key_is(key)) + pend_view(
                        rest@,
                    ).filter(key_is(key)) == self.pending().filter(key_is(key)),
                forall|a: int, b: int| 0 <= a < b < out@.len() ==> out@[a].0 <= out@[b].0,
                forall|a: int, b: int|
                    0 <= a < out@.len() && 0 <= b < rest@.len() ==> out@[a].0
                        <= rest@[b].0,
                forall|i2: int|
                    0 <= i2 < out@.len() ==> (#[trigger] out@[i2]).1@.len()
                        == self.block_size,
                forall|i2: int|
                    0 <= i2 < rest@.len() ==> (#[trigger] rest@[i2]).1@.len()
                        == self.block_size,
            decreases rest@.len(),
        {
            let mut mi: usize = 0;
            let mut j: usize = 1;
            while j < rest.len()
                invariant
                    mi < j <= rest@.len(),
                    forall|t: int| 0 <= t < mi ==> rest@[t].0 > rest@[mi as int].0,
                    forall|t: int| mi <= t < j ==> rest@[mi as int].0 <= rest@[t].0,
                decreases rest@.len() - j,
            {
                if rest[j].0 < rest[mi].0 {
                    proof {
                        assert forall|t: int|
                            0 <= t < j implies rest@[t].0 > rest@[j as int].0 by {
                            if t < mi {
                                assert(rest@[t].0 > rest@[mi as int].0);
                            } else {
                                assert(rest@[mi as int].0 <= rest@[t].0);
                            }
                        }
                    }
                    mi = j;
                }
                j = j + 1;
            }
            let ghost pre_rest = rest@;
            let e = rest.remove(mi);
            let ghost pre_out = out@;
            out.push(e);
            proof {
                broadcast use vstd::multiset::group_multiset_axioms;
                broadcast use vstd::seq_lib::group_to_multiset_ensures;

                assert(pend_view(pre_out.push(e)) =~= pend_view(pre_out).push(
                    (e.0, e.1@),
                ));
                assert(pend_view(pre_rest.remove(mi as int)) =~= pend_view(
                    pre_rest,
                ).remove(mi as int));
                pend_view(pre_rest).to_multiset_ensures();
                pend_view(pre_out).to_multiset_ensures();
                assert(pend_view(pre_rest)[mi as int] == (e.0, e.1@));
                assert(pend_view(pre_rest).remove(mi as int).to_multiset() == pend_view(
                    pre_rest,
                ).to_multiset().remove((e.0, e.1@)));
                assert(pend_view(pre_out).push((e.0, e.1@)).to_multiset() == pend_view(
                    pre_out,
                ).to_multiset().insert((e.0, e.1@)));
                assert(pend_view(pre_rest).to_multiset().contains((e.0, e.1@)));
                assert(pend_view(out@).to_multiset().add(pend_view(rest@).to_multiset())
                    =~= self.pending().to_multiset());
                let k0 = e.0;
                let pv = pend_view(pre_rest);
                let prefix = pv.subrange(0, mi as int);
                let suffix = pv.subrange(mi as int + 1, pv.len() as int);
                assert(pv =~= prefix + seq![(e.0, e.1@)] + suffix);
                assert(pv.remove(mi as int) =~= prefix + suffix);
                assert(pend_view(rest@) == prefix + suffix);
                assert(pend_view(out@) == pend_view(pre_out).push((e.0, e.1@)));
                assert forall|key: u64|
                    #[trigger] pend_view(out@).filter(key_is(key)) + pend_view(
                        rest@,
                    ).filter(key_is(key)) == self.pending().filter(key_is(key)) by {
                    let p = key_is(key);
                    assert(pend_view(pre_out).filter(p) + pv.filter(p)
                        == self.pending().filter(p));
                    Seq::filter_distributes_over_add(prefix + seq![(e.0, e.1@)], suffix,
                        p);
                    Seq::filter_distributes_over_add(prefix, seq![(e.0, e.1@)], p);
                    Seq::filter_distributes_over_add(prefix, suffix, p);
                    lemma_filter_singleton(p, (e.0, e.1@));
                    lemma_filter_push(pend_view(pre_out), p, (e.0, e.1@));
                    if key == k0 {
                        assert forall|t: int|
                            0 <= t < prefix.len() implies !p(prefix[t]) by {
                            assert(prefix[t] == pv[t]);
                            assert(pv[t].0 == pre_rest[t].0);
                            assert(pre_rest[t].0 > pre_rest[mi as int].0);
                        }
                        assert(prefix.all(|q: (u64, Seq<u8>)| !p(q)));
                        prefix.lemma_all_neg_filter_empty(p);
                        assert(prefix.filter(p) =~= Seq::<(u64, Seq<u8>)>::empty());
                        assert(p((e.0, e.1@)));
                        assert(pv.filter(p) =~= seq![(e.0, e.1@)] + suffix.filter(p));
                        assert((prefix + suffix).filter(p) =~= suffix.filter(p));
                        assert(pend_view(out@).filter(p) == pend_view(pre_out).filter(
                            p,
                        ).push((e.0, e.1@)));
                        assert(pend_view(pre_out).filter(p).push((e.0, e.1@))
                            + suffix.filter(p) =~= pend_view(pre_out).filter(p) + (seq![
                            (e.0, e.1@),
                        ] + suffix.filter(p)));
                    } else {
                        assert(!p((e.0, e.1@)));
                        assert(seq![(e.0, e.1@)].filter(p) =~= Seq::<(
                            u64,
                            Seq<u8>,
                        )>::empty());
                        assert(pv.filter(p) =~= prefix.filter(p) + suffix.filter(p));
                        assert((prefix + suffix).filter(p) =~= prefix.filter(p)
                            + suffix.filter(p));
                        assert(pend_view(out@).filter(p) == pend_view(pre_out).filter(p));
                    }
                }
            }
        }
        proof {
            broadcast use vstd::multiset::group_multiset_axioms;

            vstd::multiset::lemma_multiset_empty_len(pend_view(rest@).to_multiset());
            assert(pend_view(rest@).to_multiset().len() == 0) by {
                broadcast use vstd::seq_lib::group_to_multiset_ensures;

                assert(pend_view(rest@) =~= Seq::<(u64, Seq<u8>)>::empty());
            }
            assert(pend_view(out@).to_multiset() =~= self.pending().to_multiset());
            assert forall|key: u64|
                #[trigger] pend_view(out@).filter(key_is(key)) == self.pending().filter(
                    key_is(key),
                ) by {
                reveal(Seq::filter);
                assert(pend_view(rest@) =~= Seq::<(u64, Seq<u8>)>::empty());
                assert(pend_view(rest@).filter(key_is(key)) =~= Seq::<(
                    u64,
                    Seq<u8>,
                )>::empty());
                assert(pend_view(out@).filter(key_is(key)) + pend_view(rest@).filter(
                    key_is(key),
                ) =~= pend_view(out@).filter(key_is(key)));
            }
        }
        out
    }

    /// Forget the staged writes; called after a sync has made them
    /// durable.
    pub fn clear_pending(&mut self)
        requires
            old(self).wf(),
        ensures
            final(self).wf(),
            final(self).cache_view() == old(self).cache_view(),
            final(self).pending() == Seq::<(u64, Seq<u8>)>::empty(),
            final(self).block_size == old(self).block_size,
            final(self).cashed_max_blocks == old(self).cashed_max_blocks,
    {
        self.write_buf.clear();
        proof {
            assert(final(self).pending() =~= Seq::<(u64, Seq<u8>)>::empty());
        }
    }
}

/// Byte-granular window over the block cache: reads assemble bytes from
/// resident blocks; writes split the byte range into a read-modify-write
/// head, whole middle blocks built fresh, and a read-modify-write tail,
/// staging each block for the next sync.
pub struct Cash {
    pub driver: DriverCash,
}

impl Cash {
    pub open spec fn wf(&self) -> bool {
        self.driver.wf()
    }

    /// The byte at absolute position `p` as held by a block store.
    pub open spec fn cache_byte(view: Map<u64, Seq<u8>>, bs: int, p: int) -> u8 {
        view[(p / bs) as u64][p % bs]
    }

    /// The content staged for block `b` by a write of `data` at `pos`:
    /// the written bytes where the block overlaps the window, the prior
    /// content of the block elsewhere.
    pub open spec fn staged_block(
        view: Map<u64, Seq<u8>>,
        bs: int,
        pos: int,
        data: Seq<u8>,
        b: int,
    ) -> Seq<u8> {
        Seq::new(
            bs as nat,
            |j: int|
                if pos <= b * bs + j < pos + data.len() {
                    data[b * bs + j - pos]
                } else {
                    view[b as u64][j]
                },
        )
    }

    /// A window over a fresh driver.
    pub fn new(cashed_max_blocks: usize, block_size: u64) -> (r: Self)
        requires
            cashed_max_blocks >= 1,
            1 <= block_size <= 0x4000_0000,
            (block_size & (block_size - 1) as u64) == 0,
        ensures
            r.wf(),
            r.driver.cashed_max_blocks == cashed_max_blocks,
            r.driver.block_size == block_size,
            r.driver.cache_view() == Map::<u64, Seq<u8>>::empty(),
            r.driver.pending() == Seq::<(u64, Seq<u8>)>::empty(),
    {
        Cash { driver: DriverCash::new(cashed_max_blocks, block_size) }
    }

    /// Fill the buffer from byte position `pos`, block by block; every
    /// block the range touches must be resident.
    pub fn read(&mut self, buffer: &mut [u8], pos: u64) -> (r: Result<(), IDVDError>)
        requires
            old(self).wf(),
            pos + old(buffer)@.len() <= 0x1000_0000_0000_0000,
            forall|b: u64|
                pos as int / old(self).driver.block_size as int <= b <= (pos + old(
                    buffer,
                )@.len() - 1) / old(self).driver.block_size as int
                    ==> #[trigger] old(self).driver.cache_view().contains_key(b),
        ensures
            final(self).wf(),
            final(self).driver.cache_view() == old(self).driver.cache_view(),
            final(self).driver.pending() == old(self).driver.pending(),
            final(self).driver.block_size == old(self).driver.block_size,
            final(self).driver.cashed_max_blocks == old(self).driver.cashed_max_blocks,
            r is Ok,
            final(buffer)@.len() == old(buffer)@.len(),
            forall|i: int|
                0 <= i < old(buffer)@.len() ==> final(buffer)@[i] == Self::cache_byte(
                    old(self).driver.cache_view(),
                    old(self).driver.block_size as int,
                    pos + i,
                ),
    {
        let ghost bs = self.driver.block_size as int;
        let ghost view0 = self.driver.cache_view();
        let ghost len = buffer@.len() as int;
        let mut done: usize = 0;
        while done < buffer.len()
            invariant
                self.wf(),
                self.driver.cache_view() == view0,
                self.driver.pending() == old(self).driver.pending(),
                self.driver.block_size == old(self).driver.block_size,
                self.driver.cashed_max_blocks == old(self).driver.cashed_max_blocks,
                bs == self.driver.block_size as int,
                view0 == old(self).driver.cache_view(),
                len == old(buffer)@.len(),
                buffer@.len() == len,
                done <= len,
                pos + len <= 0x1000_0000_0000_0000,
                forall|b: u64|
                    pos as int / bs <= b <= (pos + len - 1) / bs
                        ==> #[trigger] view0.contains_key(b),
                forall|i: int|
                    0 <= i < done ==> buffer@[i] == Self::cache_byte(view0, bs, pos + i),
            decreases len - done,
        {
            let p: u64 = pos + done as u64;
            let bidx: u64 = p / self.driver.block_size;
            let off: usize = (p % self.driver.block_size) as usize;
            proof {
                vstd::arithmetic::div_mod::lemma_div_is_ordered(pos as int, p as int, bs);
                vstd::arithmetic::div_mod::lemma_div_is_ordered(p as int, pos + len - 1,
                    bs);
                assert(view0.contains_key(bidx));
            }
            match self.driver.read_block(bidx) {
                Some(e) => {
                    let v = e.byte(off);
                    buffer[done] = v;
                    proof {
                        assert(buffer@[done as int] == Self::cache_byte(view0, bs,
                            p as int));
                    }
                },
                None => {
                    proof {
                        assert(false);
                    }
                    return Err(IDVDError::InvalidFormat);
                },
            }
            done = done + 1;
        }
        Ok(())
    }

    /// Where the blocks of a write window sit: the head block starts at
    /// or before `pos`, the tail block ends at or after the last byte,
    /// and every middle block lies entirely inside the window.
    proof fn lemma_block_span(bs: int, pos: int, len: int, b: int)
        requires
            bs >= 1,
            pos >= 0,
            len >= 1,
            pos / bs <= b <= (pos + len - 1) / bs,
        ensures
            b >= 0,
            b * bs <= pos + len - 1,
            b * bs + bs > pos,
            b > pos / bs ==> b * bs >= pos,
            b < (pos + len - 1) / bs ==> b * bs + bs <= pos + len - 1,
    {
        let first = pos / bs;
        let last = (pos + len - 1) / bs;
        vstd::arithmetic::div_mod::lemma_div_pos_is_pos(pos, bs);
        vstd::arithmetic::div_mod::lemma_fundamental_div_mod(pos, bs);
        vstd::arithmetic::div_mod::lemma_fundamental_div_mod(pos + len - 1, bs);
        assert(first * bs == bs * first) by (nonlinear_arith);
        assert(last * bs == bs * last) by (nonlinear_arith);
        assert(b * bs <= last * bs) by (nonlinear_arith)
            requires
                b <= last,
                bs >= 1,
        ;
        assert(b * bs >= first * bs) by (nonlinear_arith)
            requires
                b >= first,
                bs >= 1,
        ;
        assert((first + 1) * bs == first * bs + bs) by (nonlinear_arith);
        assert(b >= first + 1 ==> b * bs >= (first + 1) * bs) by (nonlinear_arith)
            requires
                bs >= 1,
        ;
        assert(b <= last - 1 ==> b * bs <= (last - 1) * bs) by (nonlinear_arith)
            requires
                bs >= 1,
        ;
        assert((last - 1) * bs == last * bs - bs) by (nonlinear_arith);
    }

    /// Write the buffer at byte position `pos`: patch the head and tail
    /// blocks over their resident contents, build the middle blocks from
    /// the buffer alone, and stage every touched block in ascending
    /// order. The head and tail blocks must be resident.
    #[verifier::rlimit(100)]
    pub fn write(&mut self, buffer: &[u8], pos: u64) -> (r: Result<(), IDVDError>)
        requires
            old(self).wf(),
            1 <= buffer@.len(),
            pos + buffer@.len() <= 0x1000_0000_0000_0000,
            old(self).driver.cache_view().contains_key(
                (pos / old(self).driver.block_size) as u64,
            ),
            old(self).driver.cache_view().contains_key(
                ((pos + buffer@.len() - 1) / old(self).driver.block_size as int) as u64,
            ),
        ensures
            final(self).wf(),
            final(self).driver.block_size == old(self).driver.block_size,
            final(self).driver.cashed_max_blocks == old(self).driver.cashed_max_blocks,
            r is Ok,
            ({
                let bs = old(self).driver.block_size as int;
                let view0 = old(self).driver.cache_view();
                let data = buffer@;
                let first = pos as int / bs;
                let last = (pos + data.len() - 1) / bs;
                &&& final(self).driver.pending() == old(self).driver.pending() + Seq::new(
                    (last - first + 1) as nat,
                    |k: int|
                        (
                            (first + k) as u64,
                            Self::staged_block(view0, bs, pos as int, data, first + k),
                        ),
                )
                &&& forall|k2: u64|
                    #[trigger] final(self).driver.cache_view().contains_key(k2)
                        == view0.contains_key(k2)
                &&& forall|k2: u64|
                    view0.contains_key(k2) && !(first <= k2 <= last) ==> final(self).driver.cache_view()[k2] == view0[k2]
                &&& forall|k2: u64|
                    view0.contains_key(k2) && first <= k2 <= last ==> final(self).driver.cache_view()[k2] == Self::staged_block(view0, bs, pos as int,
                        data, k2 as int)
            }),
    {
        let ghost bs = self.driver.block_size as int;
        let ghost view0 = self.driver.cache_view();
        let ghost pend0 = self.driver.pending();
        let ghost data = buffer@;
        let len: usize = buffer.len();
        let first: u64 = pos / self.driver.block_size;
        let last: u64 = (pos + (len as u64 - 1)) / self.driver.block_size;
        proof {
            vstd::arithmetic::div_mod::lemma_div_is_ordered(pos as int, pos + len - 1,
                bs);
            vstd::arithmetic::div_mod::lemma_div_pos_is_pos(pos as int, bs);
        }
        let mut b: u64 = first;
        while b <= last
            invariant
                self.wf(),
                self.driver.block_size == old(self).driver.block_size,
                self.driver.cashed_max_blocks == old(self).driver.cashed_max_blocks,
                bs == self.driver.block_size as int,
                view0 == old(self).driver.cache_view(),
                pend0 == old(self).driver.pending(),
                data == buffer@,
                len == buffer@.len(),
                1 <= len,
                pos + len <= 0x1000_0000_0000_0000,
                first == pos as int / bs,
                last == (pos + len - 1) / bs,
                first <= b <= last + 1,
                view0.contains_key(first),
                view0.contains_key(last),
                self.driver.pending() == pend0 + Seq::new((b - first) as nat,
                    |k: int|
                        (
                            (first + k) as u64,
                            Self::staged_block(view0, bs, pos as int, data, first + k),
                        ),
                ),
                forall|k2: u64|
                    #[trigger] self.driver.cache_view().contains_key(k2)
                        == view0.contains_key(k2),
                forall|k2: u64|
                    view0.contains_key(k2) && !(first <= k2 < b) ==> #[trigger] self.driver.cache_view()[k2]
                        == view0[k2],
                forall|k2: u64|
                    view0.contains_key(k2) && first <= k2 < b ==> #[trigger] self.driver.cache_view()[k2]
                        == Self::staged_block(view0, bs, pos as int, data, k2 as int),
            decreases last + 1 - b,
        {
            proof {
                Self::lemma_block_span(bs, pos as int, len as int, b as int);
            }
            let base: CacheEntry = if b == first || b == last {
                match self.driver.read_block(b) {
                    Some(e) => e,
                    None => {
                        proof {
                            assert(false);
                        }
                        return Err(IDVDError::InvalidFormat);
                    },
                }
            } else {
                CacheEntry::with_size_aligned(
                    self.driver.block_size as usize,
                    self.driver.block_size as usize,
                )
            };
            let ghost base0 = base@;
            let mut e = base;
            let mut j: usize = 0;
            while j < self.driver.block_size as usize
                invariant
                    self.wf(),
                    bs == self.driver.block_size as int,
                    data == buffer@,
                    len == buffer@.len(),
                    1 <= len,
                    pos + len <= 0x1000_0000_0000_0000,
                    b * bs <= pos + len - 1,
                    b * bs + bs > pos,
                    b >= 0,
                    j <= bs,
                    e@.len() == bs,
                    base0.len() == bs,
                    forall|t: int| j <= t < bs ==> e@[t] == base0[t],
                    forall|t: int|
                        0 <= t < j ==> e@[t] == (if pos <= b * bs + t < pos + len {
                            data[b * bs + t - pos]
                        } else {
                            base0[t]
                        }),
                decreases bs - j,
            {
                let p_abs: u64 = b * self.driver.block_size + j as u64;
                if pos <= p_abs && p_abs < pos + len as u64 {
                    let v = buffer[(p_abs - pos) as usize];
                    e.set_byte(j, v);
                }
                j = j + 1;
            }
            let ghost pend_before = self.driver.pending();
            match self.driver.write_block(b, e) {
                Ok(()) => {},
                Err(_) => {
                    proof {
                        assert(false);
                    }
                    return Err(IDVDError::InvalidFormat);
                },
            }
            proof {
                let st = Self::staged_block(view0, bs, pos as int, data, b as int);
                assert forall|t: int| 0 <= t < bs implies e@[t] == st[t] by {
                    if b == first || b == last {
                        assert(base0 == view0[b]);
                    } else {
                        assert(b > first && b < last);
                        assert(b * bs >= pos);
                        assert(b * bs + bs <= pos + len - 1);
                        assert(pos <= b * bs + t < pos + len);
                    }
                }
                assert(e@ =~= st);
                assert(self.driver.pending() =~= pend0 + Seq::new((b + 1 - first) as nat,
                    |k: int|
                        (
                            (first + k) as u64,
                            Self::staged_block(view0, bs, pos as int, data, first + k),
                        ),
                ));
            }
            b = b + 1;
        }
        Ok(())
    }

    /// Empty the resident map; staged writes stay.
    pub fn clear(&mut self) -> (r: Result<(), IDVDError>)
        requires
            old(self).wf(),
        ensures
            final(self).wf(),
            r is Ok,
            final(self).driver.cache_view() == Map::<u64, Seq<u8>>::empty(),
            final(self).driver.pending() == old(self).driver.pending(),
            final(self).driver.block_size == old(self).driver.block_size,
            final(self).driver.cashed_max_blocks == old(self).driver.cashed_max_blocks,
    {
        self.driver.clear();
        Ok(())
    }

    /// Writing a buffer and then reading those bytes back returns the
    /// buffer: any store (the file after a sync, or the cache) that
    /// holds, for every block the write touched, exactly the content the
    /// write staged, yields the written bytes at the written positions.
    pub proof fn lemma_write_then_read(
        view0: Map<u64, Seq<u8>>,
        store: Map<u64, Seq<u8>>,
        bs: int,
        pos: int,
        data: Seq<u8>,
    )
        requires
            bs >= 1,
            pos >= 0,
            data.len() >= 1,
            forall|b: int|
                pos / bs <= b <= (pos + data.len() - 1) / bs ==> store.contains_key(
                    b as u64,
                ) && store[b as u64] == Self::staged_block(view0, bs, pos, data, b),
        ensures
            forall|i: int|
                0 <= i < data.len() ==> Self::cache_byte(store, bs, pos + i) == data[i],
    {
        assert forall|i: int| 0 <= i < data.len() implies Self::cache_byte(store, bs, pos
            + i) == data[i] by {
            let p = pos + i;
            let b = p / bs;
            let j = p % bs;
            vstd::arithmetic::div_mod::lemma_div_is_ordered(pos, p, bs);
            vstd::arithmetic::div_mod::lemma_div_is_ordered(p, pos + data.len() - 1, bs);
            vstd::arithmetic::div_mod::lemma_fundamental_div_mod(p, bs);
            assert(store[b as u64] == Self::staged_block(view0, bs, pos, data, b));
            assert(b * bs + j == p) by (nonlinear_arith)
                requires
                    p == bs * b + j,
            ;
            assert(store[b as u64][j] == data[i]);
        }
    }
}

/// Two key-sorted lists of staged writes with the same multiset of
/// pairs and pairwise distinct keys are the same list: sorting a batch
/// of writes to distinct blocks determines it completely.
pub proof fn lemma_sorted_batch_unique(s1: Seq<(u64, Seq<u8>)>, s2: Seq<(u64, Seq<u8>)>)
    requires
        s1.to_multiset() == s2.to_multiset(),
        forall|a: int, b: int| 0 <= a < b < s1.len() ==> (#[trigger] s1[a]).0 <= (
        #[trigger] s1[b]).0,
        forall|a: int, b: int| 0 <= a < b < s2.len() ==> (#[trigger] s2[a]).0 <= (
        #[trigger] s2[b]).0,
        forall|a: int, b: int| 0 <= a < b < s1.len() ==> (#[trigger] s1[a]).0 != (
        #[trigger] s1[b]).0,
    ensures
        s1 =~= s2,
    decreases s1.len(),
{
    broadcast use vstd::multiset::group_multiset_axioms;
    broadcast use vstd::seq_lib::group_to_multiset_ensures;

    s1.to_multiset_ensures();
    s2.to_multiset_ensures();
    if s1.len() == 0 {
        assert(s2.to_multiset().len() == 0);
        assert(s2.len() == 0);
    } else {
        assert(s2.to_multiset().len() == s1.to_multiset().len());
        assert(s2.len() == s1.len());
        assert(s1.to_multiset().contains(s1[0]));
        assert(s2.to_multiset().contains(s1[0]));
        assert(s2.contains(s1[0]));
        let j = choose|j: int| 0 <= j < s2.len() && s2[j] == s1[0];
        assert(s2.to_multiset().contains(s2[0]));
        assert(s1.to_multiset().contains(s2[0]));
        assert(s1.contains(s2[0]));
        let i = choose|i: int| 0 <= i < s1.len() && s1[i] == s2[0];
        assert(s1[0].0 <= s1[i].0);
        assert(s2[0].0 <= s2[j].0);
        assert(s1[0].0 == s2[0].0);
        assert(s1[i].0 == s1[0].0);
        if i != 0 {
            assert(s1[0].0 != s1[i].0);
            assert(false);
        }
        assert(s1[0] == s2[0]);
        let r1 = s1.drop_first();
        let r2 = s2.drop_first();
        assert(s1 =~= seq![s1[0]] + r1);
        assert(s2 =~= seq![s2[0]] + r2);
        assert(r1 =~= s1.remove(0));
        assert(r2 =~= s2.remove(0));
        assert(r1.to_multiset() == s1.to_multiset().remove(s1[0]));
        assert(r2.to_multiset() == s2.to_multiset().remove(s2[0]));
        assert(r1.to_multiset() == r2.to_multiset());
        assert forall|a: int, b: int|
            0 <= a < b < r1.len() implies (#[trigger] r1[a]).0 <= (#[trigger] r1[b]).0 && (
        r1[a]).0 != (r1[b]).0 by {
            assert(r1[a] == s1[a + 1]);
            assert(r1[b] == s1[b + 1]);
        }
        assert forall|a: int, b: int|
            0 <= a < b < r2.len() implies (#[trigger] r2[a]).0 <= (#[trigger] r2[b]).0 by {
            assert(r2[a] == s2[a + 1]);
            assert(r2[b] == s2[b + 1]);
        }
        lemma_sorted_batch_unique(r1, r2);
        assert forall|k: int| 0 <= k < s1.len() implies s1[k] == s2[k] by {
            if k > 0 {
                assert(r1[k - 1] == r2[k - 1]);
            }
        }
    }
}

/// A block store after a list of writes has been applied in order: each
/// pair replaces the content of its block.
pub open spec fn apply_writes(store: Map<u64, Seq<u8>>, ws: Seq<(u64, Seq<u8>)>) -> Map<
    u64,
    Seq<u8>,
>
    decreases ws.len(),
{
    if ws.len() == 0 {
        store
    } else {
        apply_writes(store.insert(ws[0].0, ws[0].1), ws.drop_first())
    }
}

/// Applying writes with pairwise distinct block indices stores each
/// pair's content at its block and leaves every other block alone.
pub proof fn lemma_apply_writes_distinct(store: Map<u64, Seq<u8>>, ws: Seq<(u64, Seq<u8>)>)
    requires
        forall|a: int, b: int| 0 <= a < b < ws.len() ==> (#[trigger] ws[a]).0 != (
        #[trigger] ws[b]).0,
    ensures
        forall|i: int|
            0 <= i < ws.len() ==> apply_writes(store, ws).contains_key((#[trigger] ws[i]).0)
                && apply_writes(store, ws)[ws[i].0] == ws[i].1,
        forall|k: u64|
            (forall|i: int| 0 <= i < ws.len() ==> (#[trigger] ws[i]).0 != k) ==> (
            #[trigger] apply_writes(store, ws).contains_key(k) == store.contains_key(k)
                && (store.contains_key(k) ==> apply_writes(store, ws)[k] == store[k])),
    decreases ws.len(),
{
    if ws.len() > 0 {
        let store2 = store.insert(ws[0].0, ws[0].1);
        let rest = ws.drop_first();
        assert forall|a: int, b: int|
            0 <= a < b < rest.len() implies (#[trigger] rest[a]).0 != (
        #[trigger] rest[b]).0 by {
            assert(rest[a] == ws[a + 1]);
            assert(rest[b] == ws[b + 1]);
        }
        lemma_apply_writes_distinct(store2, rest);
        assert(apply_writes(store, ws) == apply_writes(store2, rest));
        assert forall|i: int|
            0 <= i < ws.len() implies apply_writes(store, ws).contains_key(
            (#[trigger] ws[i]).0,
        ) && apply_writes(store, ws)[ws[i].0] == ws[i].1 by {
            if i == 0 {
                assert forall|j: int| 0 <= j < rest.len() implies (#[trigger] rest[j]).0
                    != ws[0].0 by {
                    assert(rest[j] == ws[j + 1]);
                }
                assert(store2.contains_key(ws[0].0) && store2[ws[0].0] == ws[0].1);
            } else {
                assert(rest[i - 1] == ws[i]);
            }
        }
        assert forall|k: u64|
            (forall|i: int| 0 <= i < ws.len() ==> (#[trigger] ws[i]).0 != k) implies (
        #[trigger] apply_writes(store, ws).contains_key(k) == store.contains_key(k) && (
        store.contains_key(k) ==> apply_writes(store, ws)[k] == store[k])) by {
            assert(ws[0].0 != k);
            assert forall|i: int| 0 <= i < rest.len() implies (#[trigger] rest[i]).0
                != k by {
                assert(rest[i] == ws[i + 1]);
            }
        }
    }
}

impl Cash {
    /// A write followed by a sync followed by a read returns the written
    /// bytes: take any store holding the file (every touched block
    /// present), apply the blocks that `write` staged, as `sync` does;
    /// the bytes at the written positions are then exactly the buffer.
    pub proof fn lemma_write_sync_read(
        view0: Map<u64, Seq<u8>>,
        file: Map<u64, Seq<u8>>,
        bs: int,
        pos: int,
        data: Seq<u8>,
    )
        requires
            bs >= 1,
            pos >= 0,
            data.len() >= 1,
            pos + data.len() <= 0x1000_0000_0000_0000,
            forall|b: int|
                pos / bs <= b <= (pos + data.len() - 1) / bs ==> #[trigger] file.contains_key(
                    b as u64,
                ),
        ensures
            ({
                let first = pos / bs;
                let last = (pos + data.len() - 1) / bs;
                let staged = Seq::new(
                    (last - first + 1) as nat,
                    |k: int|
                        (
                            (first + k) as u64,
                            Self::staged_block(view0, bs, pos, data, first + k),
                        ),
                );
                let synced = apply_writes(file, staged);
                forall|i: int|
                    0 <= i < data.len() ==> Self::cache_byte(synced, bs, pos + i)
                        == data[i]
            }),
    {
        let first = pos / bs;
        let last = (pos + data.len() - 1) / bs;
        vstd::arithmetic::div_mod::lemma_div_is_ordered(pos, pos + data.len() - 1, bs);
        let staged = Seq::new(
            (last - first + 1) as nat,
            |k: int| ((first + k) as u64, Self::staged_block(view0, bs, pos, data, first + k)),
        );
        let synced = apply_writes(file, staged);
        vstd::arithmetic::div_mod::lemma_div_pos_is_pos(pos, bs);
        vstd::arithmetic::div_mod::lemma_div_nonincreasing(pos + data.len() - 1, bs);
        assert forall|a: int, b: int|
            0 <= a < b < staged.len() implies (#[trigger] staged[a]).0 != (
        #[trigger] staged[b]).0 by {
            assert(first + a < first + b <= last);
        }
        lemma_apply_writes_distinct(file, staged);
        assert forall|b: int|
            first <= b <= last implies synced.contains_key(b as u64) && synced[b as u64]
            == Self::staged_block(view0, bs, pos, data, b) by {
            let i = b - first;
            assert(staged[i] == ((b as u64), Self::staged_block(view0, bs, pos, data, b)));
        }
        Self::lemma_write_then_read(view0, synced, bs, pos, data);
    }
}

} // verus!
