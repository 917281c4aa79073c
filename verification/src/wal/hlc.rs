//! Hybrid Logical Clock — physical wall-clock milliseconds + logical counter,
//! packed into a single `u64` for cheap comparison and storage.
//!
//! HLCs are used to stamp every WAL record so that records produced on
//! different nodes can be totally ordered while still staying close to
//! wall-clock time. Two HLCs are totally ordered by their packed `u64`
//! representation.

use std::time::{Duration, SystemTime};

use vstd::prelude::*;
use vstd::string::*;

use crate::bytes::{get_u64, le_bytes, lemma_le_val_bytes, u64_le};
use crate::error::numbered;
use crate::text::{append_decimal, decimal, owned};

verus! {

/// How many logical events fit in one physical millisecond.
pub const LOGICAL_RANGE: u64 = 65536;

/// How many physical milliseconds a clock can hold.
pub const PHYSICAL_RANGE: u64 = 281474976710656;

/// 48 bits physical milliseconds (since UNIX epoch) and 16 bits logical
/// counter (up to 65535 events per millisecond).
#[derive(Debug, Clone, Copy, PartialEq, Eq, PartialOrd, Ord, Hash, Structural)]
pub struct Hlc(pub u64);

impl Hlc {
    /// The clock value with the given parts; the physical part is reduced to
    /// 48 bits.
    pub open spec fn of(physical_ms: u64, logical: u16) -> Hlc {
        Hlc(((physical_ms % PHYSICAL_RANGE) * LOGICAL_RANGE + logical) as u64)
    }

    /// The physical part.
    pub open spec fn phys(self) -> u64 {
        self.0 / LOGICAL_RANGE
    }

    /// The logical part.
    pub open spec fn log(self) -> u16 {
        (self.0 % LOGICAL_RANGE) as u16
    }

    /// Zero value (epoch, logical 0). Used as a sentinel.
    pub fn zero() -> (r: Self)
        ensures
            r.0 == 0,
    {
        Hlc(0)
    }

    /// Constructs an HLC from its packed `u64` representation.
    pub fn from_packed(packed: u64) -> (r: Self)
        ensures
            r.0 == packed,
    {
        Hlc(packed)
    }

    /// Packs a `(physical_ms, logical)` pair. The physical component is
    /// silently truncated to 48 bits — UNIX millisecond timestamps fit until
    /// year ~10889.
    pub fn pack(physical_ms: u64, logical: u16) -> (r: Self)
        ensures
            r == Hlc::of(physical_ms, logical),
            r.phys() == physical_ms % PHYSICAL_RANGE,
            r.log() == logical,
    {
        Hlc((physical_ms % PHYSICAL_RANGE) * LOGICAL_RANGE + logical as u64)
    }

    /// Returns the physical (millisecond) component.
    pub fn physical_ms(&self) -> (r: u64)
        ensures
            r == self.phys(),
            r < PHYSICAL_RANGE,
    {
        self.0 / LOGICAL_RANGE
    }

    /// Returns the logical (intra-millisecond) counter.
    pub fn logical(&self) -> (r: u16)
        ensures
            r == self.log(),
    {
        (self.0 % LOGICAL_RANGE) as u16
    }

    /// Encodes the packed value as little-endian bytes.
    pub fn to_le_bytes(&self) -> (r: [u8; 8])
        ensures
            r@ == le_bytes(self.0 as nat, 8),
    {
        u64_le(self.0)
    }

    /// Decodes the packed value from little-endian bytes.
    pub fn from_le_bytes(buf: [u8; 8]) -> (r: Self)
        ensures
            le_bytes(r.0 as nat, 8) == buf@,
    {
        let v: u64 = get_u64(buf.as_slice(), 0);
        proof {
            assert(buf@.subrange(0, 8) =~= buf@);
            lemma_le_val_bytes(buf@);
        }
        Hlc(v)
    }
}

/// A clock value is its parts packed, and values are ordered by physical part
/// first and logical part second.
pub proof fn law_hlc_order(a: Hlc, b: Hlc)
    ensures
        Hlc::of(a.phys(), a.log()) == a,
        (a.0 < b.0) == (a.phys() < b.phys() || (a.phys() == b.phys() && a.log() < b.log())),
{
}

/// Errors raised by [`HlcClock`].
#[derive(Debug, Clone, Copy, PartialEq, Eq, Structural)]
pub enum HlcError {
    /// A remote HLC's physical component exceeds the local wall clock by more
    /// than the configured tolerance.
    SkewExceeded(u64, u64),
    /// The 16-bit logical counter would overflow within a single physical
    /// millisecond.
    LogicalOverflow(u64),
    /// The host's system clock returned a time before the UNIX epoch.
    BeforeEpoch,
}

impl HlcError {
    /// The text that describes the error.
    pub open spec fn message_text(&self) -> Seq<char> {
        match self {
            HlcError::SkewExceeded(skew, max) => "clock skew of "@ + decimal(*skew as nat)
                + " ms exceeds the "@ + decimal(*max as nat) + " ms tolerance"@,
            HlcError::LogicalOverflow(ms) => "logical counter overflow at physical ms "@ + decimal(
                *ms as nat,
            ),
            HlcError::BeforeEpoch => "system clock returned a time before the UNIX epoch"@,
        }
    }

    /// The text that describes the error.
    pub fn message(&self) -> (r: String)
        ensures
            r@ == self.message_text(),
    {
        proof {
            reveal_strlit("");
        }
        match self {
            HlcError::SkewExceeded(skew, max) => {
                let mut s: String = owned("clock skew of ");
                append_decimal(&mut s, *skew);
                s.append(" ms exceeds the ");
                append_decimal(&mut s, *max);
                s.append(" ms tolerance");
                s
            },
            HlcError::LogicalOverflow(ms) => numbered(
                "logical counter overflow at physical ms ",
                *ms,
                "",
            ),
            HlcError::BeforeEpoch => owned("system clock returned a time before the UNIX epoch"),
        }
    }
}

/// Default tolerated skew between local wall-clock and a remote HLC's physical
/// component. One hour is generous for typical deployments.
pub const DEFAULT_MAX_SKEW_MS: u64 = 3600000;

/// The wall time as far as an HLC can hold it: past its range the clock stands
/// still, so that it never runs backwards.
pub open spec fn in_range(wall: u64) -> u64 {
    if wall < PHYSICAL_RANGE {
        wall
    } else {
        (PHYSICAL_RANGE - 1) as u64
    }
}

/// The clock after a local event at wall time `wall`.
pub open spec fn ticked(state: Hlc, wall: u64) -> std::result::Result<Hlc, HlcError> {
    if in_range(wall) > state.phys() {
        Ok(Hlc::of(in_range(wall), 0))
    } else if state.log() == 65535 {
        Err(HlcError::LogicalOverflow(state.phys()))
    } else {
        Ok(Hlc::of(state.phys(), (state.log() + 1) as u16))
    }
}

/// The larger of two numbers.
pub open spec fn max_u64(a: u64, b: u64) -> u64 {
    if a >= b {
        a
    } else {
        b
    }
}

/// The clock after a remote value arrived at wall time `wall`: the physical
/// part is the largest of the three, the logical part goes one past those
/// that share it.
pub open spec fn blended(
    state: Hlc,
    remote: Hlc,
    wall: u64,
    max_skew: u64,
) -> std::result::Result<Hlc, HlcError> {
    let phys = max_u64(max_u64(in_range(wall), state.phys()), remote.phys());
    let seen: int = if phys == state.phys() && phys == remote.phys() {
        if state.log() >= remote.log() {
            state.log() as int
        } else {
            remote.log() as int
        }
    } else if phys == state.phys() {
        state.log() as int
    } else if phys == remote.phys() {
        remote.log() as int
    } else {
        -1
    };
    if remote.phys() > wall + max_skew {
        Err(HlcError::SkewExceeded((remote.phys() - wall) as u64, max_skew))
    } else if seen == 65535 {
        Err(HlcError::LogicalOverflow(phys))
    } else {
        Ok(Hlc::of(phys, (seen + 1) as u16))
    }
}

/// A local event strictly advances the clock.
pub proof fn law_tick_advances(state: Hlc, wall: u64)
    ensures
        ticked(state, wall) matches Ok(next) ==> next.0 > state.0,
{
}

/// A receive event advances the clock past both its own value and the remote
/// one.
pub proof fn law_blend_advances(state: Hlc, remote: Hlc, wall: u64, max_skew: u64)
    ensures
        blended(state, remote, wall, max_skew) matches Ok(next) ==> next.0 > state.0 && next.0
            > remote.0,
{
}

/// `std::time::SystemTime`, carried without looking inside.
#[verifier::external_type_specification]
#[verifier::external_body]
pub struct ExSystemTime(SystemTime);

/// `SystemTime::now`: the time of the host. Nothing is claimed of it.
#[verifier::external_body]
fn host_time() -> SystemTime {
    SystemTime::now()
}

/// `SystemTime::duration_since` with the UNIX epoch; `None` for a time before
/// it. Nothing is claimed of the duration.
#[verifier::external_body]
fn since_epoch(t: SystemTime) -> Option<Duration> {
    t.duration_since(std::time::UNIX_EPOCH).ok()
}

/// `Duration::as_millis`, in 64 bits. Nothing is claimed of the number.
#[verifier::external_body]
fn millis(d: Duration) -> u64 {
    d.as_millis() as u64
}

/// What a reading of the host's clock stands for: the milliseconds since the
/// UNIX epoch, or a time before it.
pub open spec fn reading(since_epoch: Option<u64>) -> std::result::Result<u64, HlcError> {
    match since_epoch {
        Some(ms) => Ok(ms),
        None => Err(HlcError::BeforeEpoch),
    }
}

/// The wall-clock time that a reading of the host's clock gives.
pub fn wall_reading(since_epoch: Option<u64>) -> (r: std::result::Result<u64, HlcError>)
    ensures
        r == reading(since_epoch),
{
    match since_epoch {
        Some(ms) => Ok(ms),
        None => Err(HlcError::BeforeEpoch),
    }
}

/// The wall-clock time of the host. What its clock reads is left open.
fn wall_now_ms() -> (r: std::result::Result<u64, HlcError>)
    ensures
        exists|since_epoch: Option<u64>| r == #[trigger] reading(since_epoch),
{
    match since_epoch(host_time()) {
        Some(d) => wall_reading(Some(millis(d))),
        None => wall_reading(None),
    }
}

/// The wall time as far as an HLC can hold it.
fn representable(wall: u64) -> (r: u64)
    ensures
        r == in_range(wall),
{
    if wall < PHYSICAL_RANGE {
        wall
    } else {
        PHYSICAL_RANGE - 1
    }
}

/// Stateful HLC source. One instance per node, held by the engine.
#[derive(Debug, Clone, Copy)]
pub struct HlcClock {
    /// The last issued value.
    pub state: Hlc,
    /// Maximum allowed skew between local wall-clock and a remote HLC's
    /// physical component, in milliseconds.
    pub max_skew_ms: u64,
}

impl HlcClock {
    /// Creates a new clock seeded at the current wall-clock time, using the
    /// [`DEFAULT_MAX_SKEW_MS`] tolerance.
    pub fn new() -> (r: Self)
        ensures
            r.max_skew_ms == DEFAULT_MAX_SKEW_MS,
            r.state.log() == 0,
    {
        HlcClock::with_max_skew(DEFAULT_MAX_SKEW_MS)
    }

    /// Creates a new clock seeded at the current wall-clock time with a custom
    /// skew tolerance (in milliseconds).
    pub fn with_max_skew(max_skew_ms: u64) -> (r: Self)
        ensures
            r.max_skew_ms == max_skew_ms,
            r.state.log() == 0,
    {
        let initial: u64 = match wall_now_ms() {
            Ok(ms) => ms,
            Err(_) => 0,
        };
        HlcClock::seeded(initial, max_skew_ms)
    }

    /// Creates a clock seeded at a given wall-clock time.
    pub fn seeded(wall: u64, max_skew_ms: u64) -> (r: Self)
        ensures
            r.state == Hlc::of(wall, 0),
            r.state.log() == 0,
            r.max_skew_ms == max_skew_ms,
    {
        HlcClock { state: Hlc::pack(wall, 0), max_skew_ms }
    }

    /// Local event: returns a new HLC strictly greater than any value
    /// previously returned. Bumps the logical counter if the wall-clock has
    /// not advanced; otherwise resets logical to 0 and uses the new physical
    /// time.
    pub fn now(&mut self) -> (r: std::result::Result<Hlc, HlcError>)
        ensures
            final(self).max_skew_ms == old(self).max_skew_ms,
            match r {
                Ok(h) => final(self).state == h && exists|wall: u64|
                    #[trigger] ticked(old(self).state, wall) == Ok::<Hlc, HlcError>(h),
                Err(e) => final(self).state == old(self).state && (e is BeforeEpoch
                    || exists|wall: u64|
                    #[trigger] ticked(old(self).state, wall) == Err::<Hlc, HlcError>(e)),
            },
    {
        match wall_now_ms() {
            Ok(wall) => self.now_at(wall),
            Err(e) => Err(e),
        }
    }

    /// Local event at a given wall-clock time.
    pub fn now_at(&mut self, wall: u64) -> (r: std::result::Result<Hlc, HlcError>)
        ensures
            r == ticked(old(self).state, wall),
            final(self).max_skew_ms == old(self).max_skew_ms,
            final(self).state == (match r {
                Ok(h) => h,
                Err(_) => old(self).state,
            }),
    {
        let prev_phys: u64 = self.state.physical_ms();
        let prev_log: u16 = self.state.logical();
        let wall: u64 = representable(wall);
        let next: Hlc = if wall > prev_phys {
            Hlc::pack(wall, 0)
        } else {
            if prev_log == 65535 {
                return Err(HlcError::LogicalOverflow(prev_phys));
            }
            Hlc::pack(prev_phys, prev_log + 1)
        };
        self.state = next;
        Ok(next)
    }

    /// Receive event: blends a remote HLC into the local state. The returned
    /// HLC is greater than both the last one and `remote`. Refuses if
    /// `remote.physical_ms()` exceeds the local wall clock by more than
    /// `max_skew_ms`.
    pub fn update(&mut self, remote: Hlc) -> (r: std::result::Result<Hlc, HlcError>)
        ensures
            final(self).max_skew_ms == old(self).max_skew_ms,
            match r {
                Ok(h) => final(self).state == h && exists|wall: u64|
                    #[trigger] blended(old(self).state, remote, wall, old(self).max_skew_ms)
                        == Ok::<Hlc, HlcError>(h),
                Err(e) => final(self).state == old(self).state && (e is BeforeEpoch
                    || exists|wall: u64|
                    #[trigger] blended(old(self).state, remote, wall, old(self).max_skew_ms)
                        == Err::<Hlc, HlcError>(e)),
            },
    {
        match wall_now_ms() {
            Ok(wall) => self.update_at(remote, wall),
            Err(e) => Err(e),
        }
    }

    /// Receive event at a given wall-clock time.
    pub fn update_at(&mut self, remote: Hlc, wall: u64) -> (r: std::result::Result<Hlc, HlcError>)
        ensures
            r == blended(old(self).state, remote, wall, old(self).max_skew_ms),
            final(self).max_skew_ms == old(self).max_skew_ms,
            final(self).state == (match r {
                Ok(h) => h,
                Err(_) => old(self).state,
            }),
    {
        let rem_phys: u64 = remote.physical_ms();
        let rem_log: u16 = remote.logical();
        if rem_phys > wall && rem_phys - wall > self.max_skew_ms {
            return Err(HlcError::SkewExceeded(rem_phys - wall, self.max_skew_ms));
        }
        let prev_phys: u64 = self.state.physical_ms();
        let prev_log: u16 = self.state.logical();
        let mut new_phys: u64 = representable(wall);
        if prev_phys > new_phys {
            new_phys = prev_phys;
        }
        if rem_phys > new_phys {
            new_phys = rem_phys;
        }
        let new_log: u16 = if new_phys == prev_phys || new_phys == rem_phys {
            let seen: u16 = if new_phys == prev_phys && new_phys == rem_phys {
                if prev_log >= rem_log {
                    prev_log
                } else {
                    rem_log
                }
            } else if new_phys == prev_phys {
                prev_log
            } else {
                rem_log
            };
            if seen == 65535 {
                return Err(HlcError::LogicalOverflow(new_phys));
            }
            seen + 1
        } else {
            0
        };
        let next: Hlc = Hlc::pack(new_phys, new_log);
        self.state = next;
        Ok(next)
    }

    /// Reads the last issued HLC without advancing the clock.
    pub fn read(&self) -> (r: Hlc)
        ensures
            r == self.state,
    {
        self.state
    }
}

impl Default for HlcClock {
    fn default() -> (r: Self)
        ensures
            r.max_skew_ms == DEFAULT_MAX_SKEW_MS,
            r.state.log() == 0,
    {
        HlcClock::new()
    }
}

// ── Laws ────────────────────────────────────────────────────────────────

/// A clock value holds 48 bits of milliseconds above 16 bits that count events.
pub proof fn law_packed_parts(physical_ms: u64, logical: u16)
    ensures
        physical_ms < 0x1_0000_0000_0000 ==> Hlc::of(physical_ms, logical).0 == physical_ms
            * 65536 + logical && Hlc::of(physical_ms, logical).phys() == physical_ms,
        Hlc::of(physical_ms, logical).log() == logical,
{
}

/// A local event takes the wall time over where that is ahead, and counts one
/// event more where it is not; it fails only where events cannot be counted.
pub proof fn law_local_event(state: Hlc, wall: u64)
    requires
        wall < 0x1_0000_0000_0000,
    ensures
        match ticked(state, wall) {
            Ok(h) => if wall > state.phys() {
                h.phys() == wall && h.log() == 0
            } else {
                h.phys() == state.phys() && h.log() == state.log() + 1
            },
            Err(e) => wall <= state.phys() && state.log() == 65535 && e
                == HlcError::LogicalOverflow(state.phys()),
        },
        wall > state.phys() || state.log() < 65535 ==> ticked(state, wall) is Ok,
{
}

/// A remote event takes over the latest of the wall time, the clock and the
/// remote value, and counts past those that share it. It is refused exactly
/// where the remote value is ahead of the wall time by more than the tolerance,
/// or where events cannot be counted.
pub proof fn law_remote_event(state: Hlc, remote: Hlc, wall: u64, max_skew: u64)
    requires
        wall < 0x1_0000_0000_0000,
    ensures
        remote.phys() > wall + max_skew ==> blended(state, remote, wall, max_skew) == Err::<
            Hlc,
            HlcError,
        >(HlcError::SkewExceeded((remote.phys() - wall) as u64, max_skew)),
        remote.phys() <= wall + max_skew && state.log() < 65535 && remote.log() < 65535 ==> blended(
            state,
            remote,
            wall,
            max_skew,
        ) is Ok,
        blended(state, remote, wall, max_skew) matches Ok(h) ==> {
            &&& h.phys() >= wall && h.phys() >= state.phys() && h.phys() >= remote.phys()
            &&& h.phys() == wall || h.phys() == state.phys() || h.phys() == remote.phys()
            &&& h.phys() > state.phys() && h.phys() > remote.phys() ==> h.log() == 0
            &&& h.phys() == state.phys() && h.phys() > remote.phys() ==> h.log() == state.log() + 1
            &&& h.phys() == remote.phys() && h.phys() > state.phys() ==> h.log() == remote.log() + 1
            &&& h.phys() == remote.phys() && h.phys() == state.phys() ==> h.log() > state.log()
                && h.log() > remote.log() && (h.log() == state.log() + 1 || h.log() == remote.log()
                + 1)
        },
{
}

} // verus!
