//! Packed timestamps: one 64-bit word whose high 44 bits hold seconds since
//! the Unix epoch and whose low 20 bits hold a sub-second count of
//! microseconds (0 .. 1_000_000). The all-zero word means "unknown".

use vstd::prelude::*;

verus! {

pub const TIME64_SEC_MASK: u64 = 0xFFFF_FFFF_FFF0_0000;

pub const TIME64_SUBSEC_MASK: u64 = 0x0000_0000_000F_FFFF;

/// A packed timestamp. The value 0 stands for "unknown time".
#[derive(Clone, Copy, PartialEq, Eq, Structural, Hash, Debug)]
pub struct Time64(pub u64);

impl Time64 {
    /// The "unknown time" marker.
    pub fn unknown() -> (r: Time64)
        ensures
            r.0 == 0,
    {
        Time64(0)
    }

    pub open spec fn is_unknown_spec(self) -> bool {
        self.0 == 0
    }

    pub fn is_unknown(self) -> (r: bool)
        ensures
            r == self.is_unknown_spec(),
    {
        self.0 == 0
    }

    /// The timestamp itself when it is known, nothing when it is the
    /// "unknown" marker.
    pub fn known(self) -> (r: Option<Time64>)
        ensures
            r == if self.is_unknown_spec() {
                Option::<Time64>::None
            } else {
                Option::<Time64>::Some(self)
            },
    {
        if self.is_unknown() {
            None
        } else {
            Some(self)
        }
    }

    /// Packs seconds and microseconds into one word: seconds in the high 44
    /// bits, microseconds in the low 20.
    pub fn from_parts(secs: u64, micros: u32) -> (r: Time64)
        requires
            secs < 0x1000_0000_0000,
            micros < 0x100000,
        ensures
            r.0 == (secs << 20) | (micros as u64),
    {
        Time64((secs << 20) | (micros as u64))
    }

    /// The seconds and microseconds packed into this word.
    pub fn to_parts(self) -> (r: (u64, u32))
        ensures
            r.0 == self.0 >> 20,
            r.1 == self.0 & 0xFFFFF,
    {
        let secs = self.0 >> 20;
        let sub = self.0 & TIME64_SUBSEC_MASK;
        proof {
            let t = self.0;
            assert((t & 0xFFFFF) < 0x100000) by (bit_vector);
        }
        (secs, (sub as u32))
    }

    /// The current wall-clock time, packed. The sub-second part is always a
    /// microsecond count, never nanoseconds.
    pub fn now() -> (r: Time64)
        ensures
            r.0 & 0xFFFFF < 1_000_000,
    {
        let (secs, micros) = wall_clock();
        let s = secs & 0xFFF_FFFF_FFFF;
        proof {
            assert((secs & 0xFFF_FFFF_FFFF) < 0x1000_0000_0000) by (bit_vector);
        }
        let r = Time64::from_parts(s, micros);
        proof {
            let m = micros as u64;
            assert(m < 0x100000 ==> ((s << 20) | m) & 0xFFFFF == m) by (bit_vector);
        }
        r
    }
}

/// Packing then unpacking gives both parts back: the wire-level pair and
/// the packed word carry the same information.
pub proof fn lemma_time64_parts(secs: u64, micros: u32)
    requires
        secs < 0x1000_0000_0000,
        micros < 0x100000,
    ensures
        (((secs << 20) | (micros as u64)) >> 20) == secs,
        (((secs << 20) | (micros as u64)) & 0xFFFFF) == micros,
{
    let m = micros as u64;
    assert(secs < 0x1000_0000_0000u64 && m < 0x100000u64 ==> ((((secs << 20u64) | m) >> 20u64)
        == secs && (((secs << 20u64) | m) & 0xFFFFFu64) == m)) by (bit_vector);
    assert(secs << 20 == secs << 20u64);
    assert((secs << 20u64) | m == (secs << 20) | (micros as u64));
}

/// Relies on std::time::SystemTime::now and duration_since(UNIX_EPOCH):
/// seconds and the sub-second microsecond count since the epoch; the
/// microsecond count is below 1_000_000.
#[verifier::external_body]
fn wall_clock() -> (r: (u64, u32))
    ensures
        r.1 < 1_000_000,
{
    let d = std::time::SystemTime::now().duration_since(std::time::UNIX_EPOCH).unwrap_or_default();
    (d.as_secs(), d.subsec_micros())
}

} // verus!
