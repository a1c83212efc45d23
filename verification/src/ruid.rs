//! 128-bit resource identifiers ("RUID") with a fixed bit layout:
//! `| prefix:16 | version:4 | device:16 | timestamp:48 | random:44 |`,
//! counted from the most significant bit down.

use crate::error::IDVDError;
use rand::SeedableRng;
use vstd::prelude::*;
use vstd::string::StringExecFns;

verus! {

/// Bit position of the prefix field.
pub const PREFIX_SHIFT: u8 = 112;
/// Bit position of the version code field (4 bits).
pub const VERSION_CODE_SHIFT: u8 = 108;
/// Mask for the 4-bit version code.
pub const VERSION_CODE_MASK: u8 = 0x0F;
/// Bit position of the device id field.
pub const DEVICE_ID_SHIFT: u8 = 92;
/// Bit position of the timestamp field.
pub const TIMESTAMP_SHIFT: u8 = 44;
/// Mask for the 48-bit timestamp.
pub const TIMESTAMP_MASK: u64 = 0x0000_FFFF_FFFF_FFFF;
/// Mask for the 44-bit random field.
pub const RANDOM_MASK: u64 = 0x0000_0FFF_FFFF_FFFF;
/// Version code of the current identifier layout.
pub const VERSION_CODE: u8 = 0x1;

/// A 128-bit resource identifier.
#[derive(Debug, Clone, Copy, PartialEq, Eq, Structural)]
pub struct RUID {
    val: u128,
}

impl RUID {
    /// The raw 128-bit value.
    pub closed spec fn spec_val(&self) -> u128 {
        self.val
    }

    /// An all-zero identifier; the `set_*` methods then OR fields in.
    pub fn new() -> (r: Self)
        ensures
            r.spec_val() == 0u128,
    {
        RUID { val: 0 }
    }

    /// OR the device id field into the identifier.
    pub fn set_device_id(&mut self, device_id: u16)
        ensures
            final(self).spec_val() == old(self).spec_val() | ((device_id as u128) << 92),
    {
        self.val = self.val | ((device_id as u128) << DEVICE_ID_SHIFT);
    }

    /// OR the prefix field into the identifier.
    pub fn set_prefix(&mut self, prefix: u16)
        ensures
            final(self).spec_val() == old(self).spec_val() | ((prefix as u128) << 112),
    {
        self.val = self.val | ((prefix as u128) << PREFIX_SHIFT);
    }

    /// OR the version code, masked to 4 bits, into the identifier.
    pub fn set_version(&mut self, version: u8)
        ensures
            final(self).spec_val() == old(self).spec_val() | (((version & 0x0F) as u128) << 108),
    {
        let masked_version = version & VERSION_CODE_MASK;
        self.val = self.val | ((masked_version as u128) << VERSION_CODE_SHIFT);
    }

    /// OR the timestamp, masked to 48 bits, into the identifier.
    pub fn set_timestamp(&mut self, timestamp: u64)
        ensures
            final(self).spec_val() == old(self).spec_val() | (((timestamp
                & 0x0000_FFFF_FFFF_FFFF) as u128) << 44),
    {
        let masked_timestamp = timestamp & TIMESTAMP_MASK;
        self.val = self.val | ((masked_timestamp as u128) << TIMESTAMP_SHIFT);
    }

    /// OR the random value, masked to 44 bits, into the identifier.
    pub fn set_random(&mut self, random: u64)
        ensures
            final(self).spec_val() == old(self).spec_val() | ((random
                & 0x0000_0FFF_FFFF_FFFF) as u128),
    {
        let masked_random = random & RANDOM_MASK;
        self.val = self.val | (masked_random as u128);
    }
}

/// The upper-case hex digit character for a value below 16.
pub open spec fn hex_char(d: int) -> char {
    seq!['0', '1', '2', '3', '4', '5', '6', '7', '8', '9', 'A', 'B', 'C', 'D', 'E', 'F'][d]
}

/// The fixed-width upper-case hex form of a value, most significant
/// digit first.
pub open spec fn hex_text(v: u128, width: nat) -> Seq<char>
    decreases width,
{
    if width == 0 {
        Seq::empty()
    } else {
        hex_text(v / 16, (width - 1) as nat).push(hex_char((v % 16) as int))
    }
}

/// Append the one-character string of an upper-case hex digit.
fn append_hex_digit(s: &mut String, d: u8)
    requires
        d < 16,
    ensures
        final(s)@ == old(s)@ + seq![hex_char(d as int)],
{
    match d {
        0 => s.append("0"),
        1 => s.append("1"),
        2 => s.append("2"),
        3 => s.append("3"),
        4 => s.append("4"),
        5 => s.append("5"),
        6 => s.append("6"),
        7 => s.append("7"),
        8 => s.append("8"),
        9 => s.append("9"),
        10 => s.append("A"),
        11 => s.append("B"),
        12 => s.append("C"),
        13 => s.append("D"),
        14 => s.append("E"),
        _ => s.append("F"),
    }
    proof {
        reveal_strlit("0");
        reveal_strlit("1");
        reveal_strlit("2");
        reveal_strlit("3");
        reveal_strlit("4");
        reveal_strlit("5");
        reveal_strlit("6");
        reveal_strlit("7");
        reveal_strlit("8");
        reveal_strlit("9");
        reveal_strlit("A");
        reveal_strlit("B");
        reveal_strlit("C");
        reveal_strlit("D");
        reveal_strlit("E");
        reveal_strlit("F");
        assert(s@ =~= old(s)@ + seq![hex_char(d as int)]);
    }
}

/// Append the fixed-width hex form of `v`.
fn append_hex(s: &mut String, v: u128, width: usize)
    requires
        width <= 32,
    ensures
        final(s)@ == old(s)@ + hex_text(v, width as nat),
    decreases width,
{
    if width == 0 {
        proof {
            assert(s@ =~= s@ + hex_text(v, 0));
        }
    } else {
        append_hex(s, v / 16, width - 1);
        let d = (v % 16) as u8;
        append_hex_digit(s, d);
        proof {
            assert(s@ =~= old(s)@ + hex_text(v, width as nat));
        }
    }
}

impl From<u128> for RUID {
    /// Wrap a raw 128-bit value as an identifier.
    fn from(val: u128) -> (r: Self)
        ensures
            r.spec_val() == val,
    {
        RUID { val }
    }
}

impl vstd::std_specs::convert::FromSpecImpl<u128> for RUID {
    open spec fn obeys_from_spec() -> bool {
        true
    }

    closed spec fn from_spec(val: u128) -> Self {
        RUID { val }
    }
}

impl RUID {
    /// The raw 128-bit value.
    pub fn as_u128(&self) -> (r: u128)
        ensures
            r == self.spec_val(),
    {
        self.val
    }

    /// The canonical text of the identifier: five upper-case hex groups
    /// for prefix, version, device, timestamp and random, separated by
    /// underscores.
    pub open spec fn spec_text(&self) -> Seq<char> {
        hex_text((self.spec_val() >> 112) & 0xFFFF, 4) + ("_"@) + hex_text(
            (self.spec_val() >> 108) & 0xF,
            1,
        ) + ("_"@) + hex_text((self.spec_val() >> 92) & 0xFFFF, 4) + ("_"@)
            + hex_text((self.spec_val() >> 44) & 0xFFFF_FFFF_FFFF, 12) + ("_"@)
            + hex_text(self.spec_val() & 0xFFF_FFFF_FFFF, 11)
    }

    /// Render the canonical text of the identifier.
    pub fn to_text(&self) -> (r: String)
        ensures
            r@ == self.spec_text(),
    {
        let mut s = String::new();
        append_hex(&mut s, (self.val >> 112) & 0xFFFF, 4);
        s.append("_");
        append_hex(&mut s, (self.val >> 108) & 0xF, 1);
        s.append("_");
        append_hex(&mut s, (self.val >> 92) & 0xFFFF, 4);
        s.append("_");
        append_hex(&mut s, (self.val >> 44) & 0xFFFF_FFFF_FFFF, 12);
        s.append("_");
        append_hex(&mut s, self.val & 0xFFF_FFFF_FFFF, 11);
        proof {
            reveal_strlit("_");
            assert(s@ =~= self.spec_text());
        }
        s
    }

    /// The 16-bit device id field.
    pub fn get_device_id(&self) -> (r: u16)
        ensures
            r == ((self.spec_val() >> 92) & 0xFFFF) as u16,
    {
        ((self.val >> DEVICE_ID_SHIFT) & 0xFFFF) as u16
    }

    /// The 16-bit prefix field.
    pub fn get_prefix(&self) -> (r: u16)
        ensures
            r == ((self.spec_val() >> 112) & 0xFFFF) as u16,
    {
        ((self.val >> PREFIX_SHIFT) & 0xFFFF) as u16
    }

    /// The 4-bit version code field.
    pub fn get_version(&self) -> (r: u8)
        ensures
            r == ((self.spec_val() >> 108) & 0x0F) as u8,
    {
        ((self.val >> VERSION_CODE_SHIFT) & (VERSION_CODE_MASK as u128)) as u8
    }

    /// The 48-bit timestamp field.
    pub fn get_timestamp(&self) -> (r: u64)
        ensures
            r == ((self.spec_val() >> 44) & 0x0000_FFFF_FFFF_FFFF) as u64,
    {
        ((self.val >> TIMESTAMP_SHIFT) & (TIMESTAMP_MASK as u128)) as u64
    }

    /// The 44-bit random field.
    pub fn get_random(&self) -> (r: u64)
        ensures
            r == (self.spec_val() & 0x0000_0FFF_FFFF_FFFF) as u64,
    {
        (self.val & (RANDOM_MASK as u128)) as u64
    }
}

/// Declares rand_chacha's `ChaCha20Rng` stream-cipher generator so that it
/// can be held in a field; the value is opaque to the verifier.
#[verifier::external_type_specification]
#[verifier::external_body]
pub struct ExChaCha20Rng(rand_chacha::ChaCha20Rng);

/// Relies on rand_core's `SeedableRng::seed_from_u64` for `ChaCha20Rng`:
/// a generator deterministically derived from the 64-bit seed.
#[verifier::external_body]
fn chacha_seed_from_u64(seed: u64) -> rand_chacha::ChaCha20Rng {
    rand_chacha::ChaCha20Rng::seed_from_u64(seed)
}

/// Relies on rand_core's `SeedableRng::try_from_rng` over getrandom's
/// `SysRng`: a generator seeded from operating-system entropy, or `None`
/// when the entropy source fails.
#[verifier::external_body]
fn chacha_try_from_os() -> Option<rand_chacha::ChaCha20Rng> {
    rand_chacha::ChaCha20Rng::try_from_rng(&mut rand::rngs::SysRng).ok()
}

/// Relies on rand_core's `Rng::next_u64` for `ChaCha20Rng`: the next value
/// of the stream; nothing is assumed about which value comes out.
#[verifier::external_body]
fn chacha_next_u64(rng: &mut rand_chacha::ChaCha20Rng) -> u64 {
    rand::Rng::next_u64(rng)
}

/// Relies on chrono's `Utc::now` and `DateTime::timestamp`: the current
/// time as POSIX seconds; nothing is assumed about which value comes out.
/// chrono aborts if the system clock reads before 1970; that depends on
/// the environment, not on any input.
#[verifier::external_body]
fn now_unix_seconds() -> i64 {
    chrono::Utc::now().timestamp()
}

/// The 128-bit value assembled by `RUIDGenerator::generate` before masking
/// is applied by the getters: prefix, device, version, timestamp, random.
spec fn ruid_compose(p: u16, d: u16, t: u64, rn: u64) -> u128 {
    0u128 | ((p as u128) << 112) | ((d as u128) << 92) | (((VERSION_CODE & 0x0F) as u128) << 108)
        | (((t & 0x0000_FFFF_FFFF_FFFFu64) as u128) << 44)
        | ((rn & 0x0000_0FFF_FFFF_FFFFu64) as u128)
}

/// Generator of RUID values: a seeded stream-cipher generator for the
/// random field, plus the device id stamped into every identifier.
pub struct RUIDGenerator {
    rng: rand_chacha::ChaCha20Rng,
    device_id: u16,
}

impl RUIDGenerator {
    /// The device id stamped into generated identifiers.
    pub closed spec fn spec_device_id(&self) -> u16 {
        self.device_id
    }

    /// A generator seeded from operating-system entropy, with device id 0;
    /// entropy failure is reported, never hidden.
    pub fn new() -> (r: Result<Self, IDVDError>)
        ensures
            match r {
                Ok(g) => g.spec_device_id() == 0,
                Err(e) => e is FiledGetOsRng,
            },
    {
        match chacha_try_from_os() {
            Some(rng) => Ok(RUIDGenerator { rng, device_id: 0 }),
            None => Err(IDVDError::FiledGetOsRng),
        }
    }

    /// A generator seeded from an explicit 64-bit value, with device id 0.
    pub fn new_with_entropy(entropy: u64) -> (r: Self)
        ensures
            r.spec_device_id() == 0,
    {
        RUIDGenerator { rng: chacha_seed_from_u64(entropy), device_id: 0 }
    }

    /// A generator seeded from operating-system entropy, with the given
    /// device id; entropy failure is reported, never hidden.
    pub fn new_with_device_id(device_id: u16) -> (r: Result<Self, IDVDError>)
        ensures
            match r {
                Ok(g) => g.spec_device_id() == device_id,
                Err(e) => e is FiledGetOsRng,
            },
    {
        match chacha_try_from_os() {
            Some(rng) => Ok(RUIDGenerator { rng, device_id }),
            None => Err(IDVDError::FiledGetOsRng),
        }
    }

    /// A generator seeded from an explicit 64-bit value and device id.
    pub fn new_with(entropy: u64, device_id: u16) -> (r: Self)
        ensures
            r.spec_device_id() == device_id,
    {
        RUIDGenerator { rng: chacha_seed_from_u64(entropy), device_id }
    }

    /// Replace the device id used for subsequent identifiers.
    pub fn set_device_id(&mut self, device_id: u16)
        ensures
            final(self).spec_device_id() == device_id,
    {
        self.device_id = device_id;
    }

    /// Compose a fresh identifier: the given prefix, this generator's
    /// device id, version code 1, the current time in the timestamp field,
    /// and the generator's next value in the random field.
    pub fn generate(&mut self, prefix: u16) -> (r: RUID)
        ensures
            final(self).spec_device_id() == old(self).spec_device_id(),
            ((r.spec_val() >> 112) & 0xFFFF) as u16 == prefix,
            ((r.spec_val() >> 92) & 0xFFFF) as u16 == old(self).spec_device_id(),
            ((r.spec_val() >> 108) & 0x0F) as u8 == VERSION_CODE,
    {
        let mut ruid = RUID::new();
        ruid.set_prefix(prefix);
        ruid.set_device_id(self.device_id);
        ruid.set_version(VERSION_CODE);
        let timestamp_sec = now_unix_seconds();
        ruid.set_timestamp(timestamp_sec as u64);
        let random = chacha_next_u64(&mut self.rng);
        ruid.set_random(random);
        proof {
            let p = prefix;
            let d = old(self).spec_device_id();
            let t = timestamp_sec as u64;
            let rn = random;
            assert(ruid.spec_val() == ruid_compose(p, d, t, rn));
            assert(((ruid_compose(p, d, t, rn) >> 112) & 0xFFFF) == p as u128) by (bit_vector);
            assert(((ruid_compose(p, d, t, rn) >> 92) & 0xFFFF) == d as u128) by (bit_vector);
            assert(((ruid_compose(p, d, t, rn) >> 108) & 0x0F) == 1) by (bit_vector);
        }
        ruid
    }
}

} // verus!
