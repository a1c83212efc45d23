//! Filesystem-index records of the container: the record shape, its link
//! table, and the permission store kept as sorted parallel arrays for
//! binary-search lookup by RUID.

use vstd::prelude::*;

verus! {

/// Map from RUIDs to block indexes; a block index table per identifier.
pub struct RuidIndex {
    pub ruid: Vec<u128>,
    pub value: Vec<BlockIndex>,
}

/// The block runs backing one object.
pub struct BlockIndex {
    pub value: Vec<BlockIndexData>,
}

/// One contiguous block run: start position and length, in blocks.
pub struct BlockIndexData {
    pub pos: u64,
    pub len: u64,
}

/// One filesystem-index record: type flag, parent and self RUID, four
/// POSIX-second timestamps, name, data pointer, links, and permissions.
pub struct FSIndex {
    /// Type flag of the node.
    pub type_flag: u8,
    /// RUID of the parent directory.
    pub referrer: u128,
    /// RUID of this node.
    pub ruid: u128,
    /// Latest access timestamp.
    pub timestamp_la: u64,
    /// Creation timestamp.
    pub timestamp_ct: u64,
    /// Latest modify timestamp.
    pub timestamp_lm: u64,
    /// Latest change (metadata or permission) timestamp.
    pub timestamp_lc: u64,
    /// Directory or file name.
    pub name: String,
    /// Cluster address of the data.
    pub data_addr: u64,
    pub links: FSLink,
    pub perm: FSPermission,
}

/// Link table as parallel arrays: name hashes and target RUIDs.
pub struct FSLink {
    /// Hash of the linked name.
    pub hash: Vec<u128>,
    /// RUID of the linked node.
    pub ruid: Vec<u128>,
}

/// True when the sequence is strictly increasing.
pub open spec fn strictly_sorted(s: Seq<u128>) -> bool {
    forall|i: int, j: int| 0 <= i < j < s.len() ==> s[i] < s[j]
}

/// Permission store: RUIDs sorted strictly ascending, with the matching
/// 8-bit capability flag at the same position of the parallel array.
pub struct FSPermission {
    pub ruid: Vec<u128>,
    pub flag_map: Vec<u8>,
}

impl FSPermission {
    /// Well-formed: the arrays have equal length and the RUIDs are
    /// strictly increasing.
    pub open spec fn wf(&self) -> bool {
        &&& self.ruid@.len() == self.flag_map@.len()
        &&& strictly_sorted(self.ruid@)
    }

    /// True when some position holds this RUID.
    pub open spec fn spec_contains(&self, r: u128) -> bool {
        exists|i: int| 0 <= i < self.ruid@.len() && self.ruid@[i] == r
    }

    /// The flag stored for this RUID, if any.
    pub open spec fn spec_get(&self, r: u128) -> Option<u8> {
        if self.spec_contains(r) {
            Some(
                self.flag_map@[choose|i: int|
                    0 <= i < self.ruid@.len() && self.ruid@[i] == r],
            )
        } else {
            None
        }
    }

    /// In a strictly sorted sequence a value occurs at one position only.
    proof fn lemma_unique_position(s: Seq<u128>, k: int, r: u128)
        requires
            strictly_sorted(s),
            0 <= k < s.len(),
            s[k] == r,
        ensures
            forall|j: int| 0 <= j < s.len() && s[j] == r ==> j == k,
    {
        assert forall|j: int| 0 <= j < s.len() && s[j] == r implies j == k by {
            if j < k {
                assert(s[j] < s[k]);
            }
            if k < j {
                assert(s[k] < s[j]);
            }
        }
    }

    /// Wrap the parallel arrays; the caller supplies them already sorted.
    pub fn new(ruid: Vec<u128>, flag_map: Vec<u8>) -> (r: Self)
        requires
            ruid@.len() == flag_map@.len(),
            strictly_sorted(ruid@),
        ensures
            r.wf(),
            r.ruid@ == ruid@,
            r.flag_map@ == flag_map@,
    {
        Self { ruid, flag_map }
    }

    /// Binary search: the position of `r`, or the insertion position that
    /// keeps the array sorted.
    fn search(&self, r: u128) -> (res: Result<usize, usize>)
        requires
            self.wf(),
        ensures
            match res {
                Ok(i) => 0 <= i < self.ruid@.len() && self.ruid@[i as int] == r,
                Err(i) => {
                    &&& i <= self.ruid@.len()
                    &&& forall|j: int| 0 <= j < i ==> self.ruid@[j] < r
                    &&& forall|j: int| i <= j < self.ruid@.len() ==> self.ruid@[j] > r
                },
            },
    {
        let mut lo: usize = 0;
        let mut hi: usize = self.ruid.len();
        while lo < hi
            invariant
                self.wf(),
                lo <= hi <= self.ruid@.len(),
                forall|j: int| 0 <= j < lo ==> self.ruid@[j] < r,
                forall|j: int| hi <= j < self.ruid@.len() ==> self.ruid@[j] > r,
            decreases hi - lo,
        {
            let mid: usize = lo + (hi - lo) / 2;
            let v = self.ruid[mid];
            if v == r {
                return Ok(mid);
            } else if v < r {
                assert forall|j: int| 0 <= j < mid + 1 implies self.ruid@[j] < r by {
                    if j < mid {
                        assert(self.ruid@[j] < self.ruid@[mid as int]);
                    }
                }
                lo = mid + 1;
            } else {
                assert forall|j: int| mid <= j < self.ruid@.len() implies self.ruid@[j]
                    > r by {
                    if mid < j {
                        assert(self.ruid@[mid as int] < self.ruid@[j]);
                    }
                }
                hi = mid;
            }
        }
        Err(lo)
    }

    /// The flag stored for this RUID, found by binary search.
    pub fn get_flag(&self, ruid: u128) -> (r: Option<u8>)
        requires
            self.wf(),
        ensures
            r == self.spec_get(ruid),
    {
        match self.search(ruid) {
            Ok(i) => {
                proof {
                    Self::lemma_unique_position(self.ruid@, i as int, ruid);
                }
                Some(self.flag_map[i])
            },
            Err(_) => None,
        }
    }

    /// Store a flag for this RUID: overwrite when present, otherwise
    /// insert at the sorted position.
    pub fn add(&mut self, ruid: u128, flag: u8)
        requires
            old(self).wf(),
        ensures
            final(self).wf(),
            final(self).spec_get(ruid) == Some(flag),
            forall|q: u128| q != ruid ==> final(self).spec_get(q) == old(self).spec_get(q),
    {
        let ghost pre = *self;
        match self.search(ruid) {
            Ok(i) => {
                self.flag_map[i] = flag;
                proof {
                    Self::lemma_unique_position(self.ruid@, i as int, ruid);
                    assert(self.spec_contains(ruid));
                    assert(self.spec_get(ruid) == Some(flag));
                    assert forall|q: u128| q != ruid implies self.spec_get(q) == pre.spec_get(
                        q,
                    ) by {
                        if pre.spec_contains(q) {
                            let k = choose|k: int|
                                0 <= k < pre.ruid@.len() && pre.ruid@[k] == q;
                            assert(self.ruid@[k] == q);
                            Self::lemma_unique_position(self.ruid@, k, q);
                        }
                    }
                }
            },
            Err(i) => {
                self.ruid.insert(i, ruid);
                self.flag_map.insert(i, flag);
                proof {
                    let n = pre.ruid@.len() as int;
                    let ii = i as int;
                    assert forall|a: int, b: int|
                        0 <= a < b < self.ruid@.len() implies self.ruid@[a]
                        < self.ruid@[b] by {
                        let va = if a < ii {
                            pre.ruid@[a]
                        } else if a == ii {
                            ruid
                        } else {
                            pre.ruid@[a - 1]
                        };
                        assert(self.ruid@[a] == va);
                        let vb = if b < ii {
                            pre.ruid@[b]
                        } else if b == ii {
                            ruid
                        } else {
                            pre.ruid@[b - 1]
                        };
                        assert(self.ruid@[b] == vb);
                    }
                    assert(self.ruid@[ii] == ruid);
                    Self::lemma_unique_position(self.ruid@, ii, ruid);
                    assert(self.spec_get(ruid) == Some(flag));
                    assert forall|q: u128| q != ruid implies self.spec_get(q) == pre.spec_get(
                        q,
                    ) by {
                        if pre.spec_contains(q) {
                            let k = choose|k: int|
                                0 <= k < pre.ruid@.len() && pre.ruid@[k] == q;
                            let k2 = if k < ii {
                                k
                            } else {
                                k + 1
                            };
                            assert(self.ruid@[k2] == q);
                            Self::lemma_unique_position(self.ruid@, k2, q);
                            assert(self.flag_map@[k2] == pre.flag_map@[k]);
                        } else {
                            if self.spec_contains(q) {
                                let k2 = choose|k2: int|
                                    0 <= k2 < self.ruid@.len() && self.ruid@[k2] == q;
                                assert(k2 != ii);
                                let k = if k2 < ii {
                                    k2
                                } else {
                                    k2 - 1
                                };
                                assert(pre.ruid@[k] == q);
                            }
                        }
                    }
                }
            },
        }
    }

    /// The stored pairs in ascending RUID order.
    pub fn get_list(&self) -> (r: Vec<(u128, u8)>)
        requires
            self.wf(),
        ensures
            r@.len() == self.ruid@.len(),
            forall|k: int|
                0 <= k < r@.len() ==> r@[k] == (self.ruid@[k], self.flag_map@[k]),
    {
        let mut out: Vec<(u128, u8)> = Vec::new();
        let mut i: usize = 0;
        while i < self.ruid.len()
            invariant
                self.wf(),
                i <= self.ruid@.len(),
                out@.len() == i,
                forall|k: int|
                    0 <= k < i ==> out@[k] == (self.ruid@[k], self.flag_map@[k]),
            decreases self.ruid@.len() - i,
        {
            out.push((self.ruid[i], self.flag_map[i]));
            i = i + 1;
        }
        out
    }

    /// Remove the entry for this RUID and return its flag, if present.
    pub fn remove(&mut self, ruid: u128) -> (r: Option<u8>)
        requires
            old(self).wf(),
        ensures
            final(self).wf(),
            r == old(self).spec_get(ruid),
            final(self).spec_get(ruid) is None,
            forall|q: u128| q != ruid ==> final(self).spec_get(q) == old(self).spec_get(q),
    {
        let ghost pre = *self;
        match self.search(ruid) {
            Ok(i) => {
                proof {
                    Self::lemma_unique_position(pre.ruid@, i as int, ruid);
                }
                self.ruid.remove(i);
                let f = self.flag_map.remove(i);
                proof {
                    let n = pre.ruid@.len() as int;
                    let ii = i as int;
                    assert forall|a: int, b: int|
                        0 <= a < b < self.ruid@.len() implies self.ruid@[a]
                        < self.ruid@[b] by {
                        let va = if a < ii {
                            pre.ruid@[a]
                        } else {
                            pre.ruid@[a + 1]
                        };
                        assert(self.ruid@[a] == va);
                        let vb = if b < ii {
                            pre.ruid@[b]
                        } else {
                            pre.ruid@[b + 1]
                        };
                        assert(self.ruid@[b] == vb);
                    }
                    assert(f == pre.spec_get(ruid).unwrap());
                    assert forall|q: u128| self.spec_contains(q) implies q != ruid
                        && pre.spec_contains(q) by {
                        let k2 = choose|k2: int|
                            0 <= k2 < self.ruid@.len() && self.ruid@[k2] == q;
                        let k = if k2 < ii {
                            k2
                        } else {
                            k2 + 1
                        };
                        assert(pre.ruid@[k] == q);
                        if q == ruid {
                            Self::lemma_unique_position(pre.ruid@, ii, ruid);
                        }
                    }
                    assert forall|q: u128| q != ruid implies self.spec_get(q) == pre.spec_get(
                        q,
                    ) by {
                        if pre.spec_contains(q) {
                            let k = choose|k: int|
                                0 <= k < pre.ruid@.len() && pre.ruid@[k] == q;
                            Self::lemma_unique_position(pre.ruid@, k, q);
                            assert(k != ii);
                            let k2 = if k < ii {
                                k
                            } else {
                                k - 1
                            };
                            assert(self.ruid@[k2] == q);
                            Self::lemma_unique_position(self.ruid@, k2, q);
                            assert(self.flag_map@[k2] == pre.flag_map@[k]);
                        }
                    }
                }
                Some(f)
            },
            Err(_) => None,
        }
    }

    /// True when an entry for this RUID exists.
    pub fn contains(&self, ruid: u128) -> (r: bool)
        requires
            self.wf(),
        ensures
            r == self.spec_contains(ruid),
    {
        self.search(ruid).is_ok()
    }
}

/// The eight capabilities, most significant flag bit first.
#[derive(Debug, Clone, Copy, PartialEq, Eq, Structural)]
pub enum FSPermissions {
    Visible,
    Read,
    Write,
    Modify,
    Edit,
    Delete,
    Copy,
    Moveable,
}

/// The flag bit of one capability.
pub open spec fn flag_bit(p: FSPermissions) -> u8 {
    match p {
        FSPermissions::Visible => 0x80,
        FSPermissions::Read => 0x40,
        FSPermissions::Write => 0x20,
        FSPermissions::Modify => 0x10,
        FSPermissions::Edit => 0x08,
        FSPermissions::Delete => 0x04,
        FSPermissions::Copy => 0x02,
        FSPermissions::Moveable => 0x01,
    }
}

/// The OR of the flag bits of a capability list.
pub open spec fn spec_generate_flag(s: Seq<FSPermissions>) -> u8
    decreases s.len(),
{
    if s.len() == 0 {
        0
    } else {
        spec_generate_flag(s.drop_last()) | flag_bit(s.last())
    }
}

/// The capabilities named by a flag, most significant bit first.
pub open spec fn spec_from_flag(f: u8) -> Seq<FSPermissions> {
    let s0 = if f & 0x80 != 0 { seq![FSPermissions::Visible] } else { Seq::empty() };
    let s1 = if f & 0x40 != 0 { seq![FSPermissions::Read] } else { Seq::empty() };
    let s2 = if f & 0x20 != 0 { seq![FSPermissions::Write] } else { Seq::empty() };
    let s3 = if f & 0x10 != 0 { seq![FSPermissions::Modify] } else { Seq::empty() };
    let s4 = if f & 0x08 != 0 { seq![FSPermissions::Edit] } else { Seq::empty() };
    let s5 = if f & 0x04 != 0 { seq![FSPermissions::Delete] } else { Seq::empty() };
    let s6 = if f & 0x02 != 0 { seq![FSPermissions::Copy] } else { Seq::empty() };
    let s7 = if f & 0x01 != 0 { seq![FSPermissions::Moveable] } else { Seq::empty() };
    s0 + s1 + s2 + s3 + s4 + s5 + s6 + s7
}

impl FSPermissions {
    /// OR the flag bits of every capability in the list.
    pub fn generate_flag(list: &[FSPermissions]) -> (r: u8)
        ensures
            r == spec_generate_flag(list@),
    {
        let mut flag: u8 = 0;
        let mut i: usize = 0;
        while i < list.len()
            invariant
                i <= list@.len(),
                flag == spec_generate_flag(list@.take(i as int)),
            decreases list@.len() - i,
        {
            let bits: u8 = match list[i] {
                FSPermissions::Visible => 0x80,
                FSPermissions::Read => 0x40,
                FSPermissions::Write => 0x20,
                FSPermissions::Modify => 0x10,
                FSPermissions::Edit => 0x08,
                FSPermissions::Delete => 0x04,
                FSPermissions::Copy => 0x02,
                FSPermissions::Moveable => 0x01,
            };
            flag = flag | bits;
            proof {
                assert(list@.take(i + 1).drop_last() =~= list@.take(i as int));
                assert(list@.take(i + 1).last() == list@[i as int]);
            }
            i = i + 1;
        }
        proof {
            assert(list@.take(list@.len() as int) =~= list@);
        }
        flag
    }

    /// Enumerate the capabilities a flag names, most significant first.
    #[verifier::rlimit(100)]
    pub fn from_flag(flag: u8) -> (r: Vec<FSPermissions>)
        ensures
            r@ == spec_from_flag(flag),
    {
        let mut list: Vec<FSPermissions> = Vec::new();
        if flag & 0x80 != 0 {
            list.push(FSPermissions::Visible);
        }
        if flag & 0x40 != 0 {
            list.push(FSPermissions::Read);
        }
        if flag & 0x20 != 0 {
            list.push(FSPermissions::Write);
        }
        if flag & 0x10 != 0 {
            list.push(FSPermissions::Modify);
        }
        if flag & 0x08 != 0 {
            list.push(FSPermissions::Edit);
        }
        if flag & 0x04 != 0 {
            list.push(FSPermissions::Delete);
        }
        if flag & 0x02 != 0 {
            list.push(FSPermissions::Copy);
        }
        if flag & 0x01 != 0 {
            list.push(FSPermissions::Moveable);
        }
        proof {
            assert(list@ =~= spec_from_flag(flag));
        }
        list
    }

    /// True when the Visible bit is set.
    pub fn is_visible(flag: u8) -> (r: bool)
        ensures
            r == (flag & 0x80 != 0),
    {
        flag & 0b1000_0000 != 0
    }

    /// True when the Read bit is set.
    pub fn is_readable(flag: u8) -> (r: bool)
        ensures
            r == (flag & 0x40 != 0),
    {
        flag & 0b0100_0000 != 0
    }

    /// True when the Edit bit is set.
    pub fn is_editable(flag: u8) -> (r: bool)
        ensures
            r == (flag & 0x08 != 0),
    {
        flag & 0b0000_1000 != 0
    }

    /// True when the Write bit is set.
    pub fn is_writable(flag: u8) -> (r: bool)
        ensures
            r == (flag & 0x20 != 0),
    {
        flag & 0b0010_0000 != 0
    }

    /// True when the Modify bit is set.
    pub fn is_modifiable(flag: u8) -> (r: bool)
        ensures
            r == (flag & 0x10 != 0),
    {
        flag & 0b0001_0000 != 0
    }

    /// True when the Copy bit is set.
    pub fn is_copyable(flag: u8) -> (r: bool)
        ensures
            r == (flag & 0x02 != 0),
    {
        flag & 0b0000_0010 != 0
    }

    /// True when the Delete bit is set.
    pub fn is_deletable(flag: u8) -> (r: bool)
        ensures
            r == (flag & 0x04 != 0),
    {
        flag & 0b0000_0100 != 0
    }

    /// True when the Moveable bit is set.
    pub fn is_moveable(flag: u8) -> (r: bool)
        ensures
            r == (flag & 0x01 != 0),
    {
        flag & 0b0000_0001 != 0
    }
}

/// Byte `j` of the little-endian form of a value.
pub open spec fn byte_of(x: u128, j: int) -> u8 {
    (x >> ((8 * j) as u128)) as u8
}

/// Append the `width` low bytes of `x`, little-endian.
fn push_rec_bytes(v: &mut Vec<u8>, x: u128, width: usize)
    requires
        width <= 16,
    ensures
        final(v)@.len() == old(v)@.len() + width,
        forall|k: int| 0 <= k < old(v)@.len() ==> final(v)@[k] == old(v)@[k],
        forall|j: int|
            0 <= j < width ==> final(v)@[old(v)@.len() + j] == byte_of(x, j),
{
    let mut j: usize = 0;
    while j < width
        invariant
            j <= width <= 16,
            v@.len() == old(v)@.len() + j,
            forall|k: int| 0 <= k < old(v)@.len() ==> v@[k] == old(v)@[k],
            forall|t: int| 0 <= t < j ==> v@[old(v)@.len() + t] == byte_of(x, t),
        decreases width - j,
    {
        v.push((x >> ((8 * j) as u128)) as u8);
        j = j + 1;
    }
}

impl FSIndex {
    /// UTF-8 bytes of the record's name.
    pub open spec fn name_bytes(&self) -> Seq<u8> {
        vstd::utf8::encode_utf8(self.name@)
    }

    /// Shape constraints of an encodable record: the name at most 256
    /// bytes, parallel link arrays, a well-formed permission store, and
    /// bounded table sizes.
    pub open spec fn encodable(&self) -> bool {
        &&& self.name_bytes().len() <= 256
        &&& self.links.hash@.len() == self.links.ruid@.len()
        &&& self.links.hash@.len() <= 0x0010_0000
        &&& self.perm.wf()
        &&& self.perm.ruid@.len() <= 0x0010_0000
    }

    /// Length of the encoded record before block padding.
    pub open spec fn rec_len(&self) -> int {
        90 + self.name_bytes().len() as int + 32 * self.links.hash@.len() as int + 17
            * self.perm.ruid@.len() as int
    }

    /// Byte `k` of the encoded record: type flag, zero padding, parent
    /// and self RUID, the four timestamps, the data pointer, the
    /// length-prefixed name, the link table, then the permission table,
    /// all little-endian.
    pub open spec fn rec_byte(&self, k: int) -> u8 {
        let n = self.name_bytes().len() as int;
        let nl = self.links.hash@.len() as int;
        if k == 0 {
            self.type_flag
        } else if k < 8 {
            0u8
        } else if k < 24 {
            byte_of(self.referrer, k - 8)
        } else if k < 40 {
            byte_of(self.ruid, k - 24)
        } else if k < 48 {
            byte_of(self.timestamp_la as u128, k - 40)
        } else if k < 56 {
            byte_of(self.timestamp_ct as u128, k - 48)
        } else if k < 64 {
            byte_of(self.timestamp_lm as u128, k - 56)
        } else if k < 72 {
            byte_of(self.timestamp_lc as u128, k - 64)
        } else if k < 80 {
            byte_of(self.data_addr as u128, k - 72)
        } else if k < 82 {
            byte_of(n as u128, k - 80)
        } else if k < 82 + n {
            self.name_bytes()[k - 82]
        } else if k < 86 + n {
            byte_of(nl as u128, k - 82 - n)
        } else if k < 86 + n + 32 * nl {
            let i = (k - 86 - n) / 32;
            let o = (k - 86 - n) % 32;
            if o < 16 {
                byte_of(self.links.hash@[i], o)
            } else {
                byte_of(self.links.ruid@[i], o - 16)
            }
        } else if k < 90 + n + 32 * nl {
            byte_of(self.perm.ruid@.len() as u128, k - 86 - n - 32 * nl)
        } else {
            let i = (k - 90 - n - 32 * nl) / 17;
            let o = (k - 90 - n - 32 * nl) % 17;
            if o < 16 {
                byte_of(self.perm.ruid@[i], o)
            } else {
                self.perm.flag_map@[i]
            }
        }
    }

    /// The on-disk form of the record, before block padding.
    #[verifier::rlimit(100)]
    pub fn encode(&self) -> (r: Vec<u8>)
        requires
            self.encodable(),
        ensures
            r@.len() == self.rec_len(),
            forall|k: int| 0 <= k < self.rec_len() ==> r@[k] == self.rec_byte(k),
    {
        let ghost n = self.name_bytes().len() as int;
        let ghost nl = self.links.hash@.len() as int;
        let ghost np = self.perm.ruid@.len() as int;
        let mut v: Vec<u8> = Vec::new();
        v.push(self.type_flag);
        v.push(0u8);
        v.push(0u8);
        v.push(0u8);
        v.push(0u8);
        v.push(0u8);
        v.push(0u8);
        v.push(0u8);
        push_rec_bytes(&mut v, self.referrer, 16);
        push_rec_bytes(&mut v, self.ruid, 16);
        push_rec_bytes(&mut v, self.timestamp_la as u128, 8);
        push_rec_bytes(&mut v, self.timestamp_ct as u128, 8);
        push_rec_bytes(&mut v, self.timestamp_lm as u128, 8);
        push_rec_bytes(&mut v, self.timestamp_lc as u128, 8);
        push_rec_bytes(&mut v, self.data_addr as u128, 8);
        let nb = self.name.as_str().as_bytes();
        push_rec_bytes(&mut v, nb.len() as u128, 2);
        proof {
            assert(v@.len() == 82);
            assert(forall|k: int| 0 <= k < 82 ==> v@[k] == self.rec_byte(k));
        }
        let mut i: usize = 0;
        while i < nb.len()
            invariant
                nb@ == self.name_bytes(),
                n == self.name_bytes().len() as int,
                i <= n,
                v@.len() == 82 + i,
                forall|k: int| 0 <= k < 82 + i ==> v@[k] == self.rec_byte(k),
            decreases nb@.len() - i,
        {
            v.push(nb[i]);
            i = i + 1;
        }
        push_rec_bytes(&mut v, self.links.hash.len() as u128, 4);
        proof {
            assert(v@.len() == 86 + n);
            assert(forall|k: int| 0 <= k < 86 + n ==> v@[k] == self.rec_byte(k));
        }
        let mut i: usize = 0;
        while i < self.links.hash.len()
            invariant
                self.encodable(),
                n == self.name_bytes().len() as int,
                nl == self.links.hash@.len() as int,
                i <= nl,
                v@.len() == 86 + n + 32 * i,
                forall|k: int| 0 <= k < 86 + n + 32 * i ==> v@[k] == self.rec_byte(k),
            decreases self.links.hash@.len() - i,
        {
            let ghost base = 86 + n + 32 * i;
            push_rec_bytes(&mut v, self.links.hash[i], 16);
            push_rec_bytes(&mut v, self.links.ruid[i], 16);
            proof {
                assert forall|k: int| 0 <= k < 86 + n + 32 * (i + 1) implies v@[k]
                    == self.rec_byte(k) by {
                    if k >= base {
                        let d = k - 86 - n;
                        assert(d / 32 == i && d % 32 == k - base) by (nonlinear_arith)
                            requires
                                d == 32 * i + (k - base),
                                0 <= k - base < 32,
                        ;
                    }
                }
            }
            i = i + 1;
        }
        push_rec_bytes(&mut v, self.perm.ruid.len() as u128, 4);
        proof {
            assert(v@.len() == 90 + n + 32 * nl);
            assert(forall|k: int|
                0 <= k < 90 + n + 32 * nl ==> v@[k] == self.rec_byte(k));
        }
        let mut i: usize = 0;
        while i < self.perm.ruid.len()
            invariant
                self.encodable(),
                n == self.name_bytes().len() as int,
                nl == self.links.hash@.len() as int,
                np == self.perm.ruid@.len() as int,
                i <= np,
                v@.len() == 90 + n + 32 * nl + 17 * i,
                forall|k: int|
                    0 <= k < 90 + n + 32 * nl + 17 * i ==> v@[k] == self.rec_byte(k),
            decreases self.perm.ruid@.len() - i,
        {
            let ghost base = 90 + n + 32 * nl + 17 * i;
            push_rec_bytes(&mut v, self.perm.ruid[i], 16);
            v.push(self.perm.flag_map[i]);
            proof {
                assert forall|k: int| 0 <= k < 90 + n + 32 * nl + 17 * (i + 1) implies v@[k]
                    == self.rec_byte(k) by {
                    if k >= base {
                        let d = k - 90 - n - 32 * nl;
                        assert(d / 17 == i && d % 17 == k - base) by (nonlinear_arith)
                            requires
                                d == 17 * i + (k - base),
                                0 <= k - base < 17,
                        ;
                    }
                }
            }
            i = i + 1;
        }
        v
    }

    /// The on-disk form padded with zeros to a whole number of blocks.
    pub fn encode_block_aligned(&self, block_size: usize) -> (r: Vec<u8>)
        requires
            self.encodable(),
            1 <= block_size <= 0x4000_0000,
        ensures
            r@.len() % (block_size as nat) == 0,
            self.rec_len() <= r@.len() < self.rec_len() + block_size,
            forall|k: int| 0 <= k < self.rec_len() ==> r@[k] == self.rec_byte(k),
            forall|k: int| self.rec_len() <= k < r@.len() ==> r@[k] == 0u8,
    {
        let mut v = self.encode();
        let rem = v.len() % block_size;
        if rem != 0 {
            let pad = block_size - rem;
            let ghost len0 = v@.len() as int;
            let mut t: usize = 0;
            while t < pad
                invariant
                    self.encodable(),
                    t <= pad,
                    v@.len() == len0 + t,
                    len0 == self.rec_len(),
                    pad < block_size <= 0x4000_0000,
                    forall|k: int| 0 <= k < self.rec_len() ==> v@[k] == self.rec_byte(k),
                    forall|k: int| self.rec_len() <= k < v@.len() ==> v@[k] == 0u8,
                decreases pad - t,
            {
                v.push(0u8);
                t = t + 1;
            }
            proof {
                let bs = block_size as int;
                vstd::arithmetic::div_mod::lemma_fundamental_div_mod(len0, bs);
                let q = len0 / bs;
                assert(len0 + pad == (q + 1) * bs) by (nonlinear_arith)
                    requires
                        len0 == bs * q + rem,
                        pad == bs - rem,
                ;
                vstd::arithmetic::div_mod::lemma_mod_multiples_basic(q + 1, bs);
                assert(((q + 1) * bs) % bs == 0);
            }
        }
        v
    }
}

} // verus!
