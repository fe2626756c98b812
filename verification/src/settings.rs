//! The SETTINGS aggregate: decoding a raw frame payload into a validated,
//! typed collection of settings, encoding that collection back to wire
//! bytes, and the per-parameter range rules.

use vstd::prelude::*;
use vstd::slice::slice_subrange;
use crate::buf;
use crate::buf::buf_data;
use crate::frame::{Error, Head};
use crate::{u16_be_bytes, u32_be_bytes};

verus! {

// Flag bits of a SETTINGS frame. Only the ACK bit is recognized; all other
// bits are reserved and dropped on load.
pub const ACK: u8 = 0x1;
pub const ALL: u8 = ACK;

/// The default value of SETTINGS_HEADER_TABLE_SIZE.
pub const DEFAULT_SETTINGS_HEADER_TABLE_SIZE: usize = 4096;

/// The default value of SETTINGS_INITIAL_WINDOW_SIZE.
pub const DEFAULT_INITIAL_WINDOW_SIZE: u32 = 65535;

/// The default value of SETTINGS_MAX_FRAME_SIZE, also its lower bound.
pub const DEFAULT_MAX_FRAME_SIZE: u32 = 16384;

/// SETTINGS_INITIAL_WINDOW_SIZE upper bound.
pub const MAX_INITIAL_WINDOW_SIZE: u32 = 0x7fffffff;

/// SETTINGS_MAX_FRAME_SIZE upper bound.
pub const MAX_MAX_FRAME_SIZE: u32 = 0xffffff;

// Registered parameter identifiers.
pub const HEADER_TABLE_SIZE: u16 = 0x1;
pub const ENABLE_PUSH: u16 = 0x2;
pub const MAX_CONCURRENT_STREAMS: u16 = 0x3;
pub const INITIAL_WINDOW_SIZE: u16 = 0x4;
pub const MAX_FRAME_SIZE: u16 = 0x5;
pub const MAX_HEADER_LIST_SIZE: u16 = 0x6;

/// Whether `val` is legal for the parameter `id`: registered parameters are
/// held to their range, unregistered ones accept any 32-bit value.
pub open spec fn value_in_range(id: u16, val: u32) -> bool {
    &&& id == ENABLE_PUSH ==> (val == 0 || val == 1)
    &&& id == INITIAL_WINDOW_SIZE ==> val <= MAX_INITIAL_WINDOW_SIZE
    &&& id == MAX_FRAME_SIZE ==> DEFAULT_MAX_FRAME_SIZE <= val && val <= MAX_MAX_FRAME_SIZE
}

/// The stored parameters, as identifier/value pairs in ascending identifier
/// order with no identifier repeated.
pub open spec fn keys_sorted(s: Seq<(u16, u32)>) -> bool {
    forall|i: int, j: int| 0 <= i < j < s.len() ==> s[i].0 < s[j].0
}

/// The value stored for `id`, the last entry winning where entries repeat.
pub open spec fn lookup(s: Seq<(u16, u32)>, id: u16) -> Option<u32>
    decreases s.len(),
{
    if s.len() == 0 {
        None
    } else if s.last().0 == id {
        Some(s.last().1)
    } else {
        lookup(s.drop_last(), id)
    }
}

/// Every stored value is legal for its identifier.
pub open spec fn fields_valid(s: Seq<(u16, u32)>) -> bool {
    forall|id: u16| #[trigger] lookup(s, id) matches Some(v) ==> value_in_range(id, v)
}

/// The identifier of a six-byte record: its first two bytes, big-endian.
pub open spec fn parse_id(r: Seq<u8>) -> u16 {
    ((r[0] as u16) << 8) | (r[1] as u16)
}

/// The value of a six-byte record: its last four bytes, big-endian.
pub open spec fn parse_val(r: Seq<u8>) -> u32 {
    ((r[2] as u32) << 24) | ((r[3] as u32) << 16) | ((r[4] as u32) << 8) | (r[5] as u32)
}

/// The identifier of the `k`-th six-byte record of a payload.
pub open spec fn record_id(p: Seq<u8>, k: int) -> u16 {
    parse_id(p.subrange(6 * k, 6 * k + 6))
}

/// The value of the `k`-th six-byte record of a payload.
pub open spec fn record_val(p: Seq<u8>, k: int) -> u32 {
    parse_val(p.subrange(6 * k, 6 * k + 6))
}

/// Every complete six-byte record of the payload carries a legal value.
pub open spec fn records_ok(p: Seq<u8>) -> bool {
    forall|k: int|
        0 <= k < p.len() / 6 ==> value_in_range(#[trigger] record_id(p, k), record_val(p, k))
}

/// The value the first `n` records of a payload leave stored for `id`:
/// the last record with that identifier wins.
pub open spec fn decoded_prefix(p: Seq<u8>, n: int, id: u16) -> Option<u32>
    decreases n,
{
    if n <= 0 {
        None
    } else if record_id(p, n - 1) == id {
        Some(record_val(p, n - 1))
    } else {
        decoded_prefix(p, n - 1, id)
    }
}

/// The value a whole payload leaves stored for `id`.
pub open spec fn decoded(p: Seq<u8>, id: u16) -> Option<u32> {
    decoded_prefix(p, p.len() as int / 6, id)
}

/// The six wire bytes of one identifier/value record.
pub open spec fn record_bytes(id: u16, val: u32) -> Seq<u8> {
    u16_be_bytes(id) + u32_be_bytes(val)
}

/// The wire payload of a field set: its records, in storage order.
pub open spec fn payload_bytes(s: Seq<(u16, u32)>) -> Seq<u8>
    decreases s.len(),
{
    if s.len() == 0 {
        Seq::empty()
    } else {
        payload_bytes(s.drop_last()) + record_bytes(s.last().0, s.last().1)
    }
}

/// An enum that lists all valid settings that can be sent in a SETTINGS
/// frame.
///
/// Each setting has a value that is a 32-bit unsigned integer. Identifiers
/// outside the registered set are kept as `Opaque`, so that an endpoint can
/// forward or re-encode settings it does not itself interpret.
#[derive(Debug)]
pub enum Setting {
    HeaderTableSize(u32),
    EnablePush(u32),
    MaxConcurrentStreams(u32),
    InitialWindowSize(u32),
    MaxFrameSize(u32),
    MaxHeaderListSize(u32),
    Opaque(u16, u32),
}

/// The `Setting` a given identifier and value stand for.
pub open spec fn spec_from_id(id: u16, val: u32) -> Setting {
    if id == HEADER_TABLE_SIZE {
        Setting::HeaderTableSize(val)
    } else if id == ENABLE_PUSH {
        Setting::EnablePush(val)
    } else if id == MAX_CONCURRENT_STREAMS {
        Setting::MaxConcurrentStreams(val)
    } else if id == INITIAL_WINDOW_SIZE {
        Setting::InitialWindowSize(val)
    } else if id == MAX_FRAME_SIZE {
        Setting::MaxFrameSize(val)
    } else if id == MAX_HEADER_LIST_SIZE {
        Setting::MaxHeaderListSize(val)
    } else {
        Setting::Opaque(id, val)
    }
}

impl Setting {
    /// The identifier this setting is written under on the wire.
    pub open spec fn spec_id(self) -> u16 {
        match self {
            Setting::HeaderTableSize(_) => HEADER_TABLE_SIZE,
            Setting::EnablePush(_) => ENABLE_PUSH,
            Setting::MaxConcurrentStreams(_) => MAX_CONCURRENT_STREAMS,
            Setting::InitialWindowSize(_) => INITIAL_WINDOW_SIZE,
            Setting::MaxFrameSize(_) => MAX_FRAME_SIZE,
            Setting::MaxHeaderListSize(_) => MAX_HEADER_LIST_SIZE,
            Setting::Opaque(id, _) => id,
        }
    }

    /// The 32-bit value this setting carries.
    pub open spec fn spec_val(self) -> u32 {
        match self {
            Setting::HeaderTableSize(v) => v,
            Setting::EnablePush(v) => v,
            Setting::MaxConcurrentStreams(v) => v,
            Setting::InitialWindowSize(v) => v,
            Setting::MaxFrameSize(v) => v,
            Setting::MaxHeaderListSize(v) => v,
            Setting::Opaque(_, v) => v,
        }
    }

    /// Creates a new `Setting` with the variant corresponding to the given
    /// setting identifier, or `Opaque` for an unregistered identifier.
    /// Total: every identifier yields a setting.
    pub fn from_id(id: u16, val: u32) -> (r: Option<Setting>)
        ensures
            r == Some(spec_from_id(id, val)),
    {
        if id == HEADER_TABLE_SIZE {
            Some(Setting::HeaderTableSize(val))
        } else if id == ENABLE_PUSH {
            Some(Setting::EnablePush(val))
        } else if id == MAX_CONCURRENT_STREAMS {
            Some(Setting::MaxConcurrentStreams(val))
        } else if id == INITIAL_WINDOW_SIZE {
            Some(Setting::InitialWindowSize(val))
        } else if id == MAX_FRAME_SIZE {
            Some(Setting::MaxFrameSize(val))
        } else if id == MAX_HEADER_LIST_SIZE {
            Some(Setting::MaxHeaderListSize(val))
        } else {
            Some(Setting::Opaque(id, val))
        }
    }

    /// Creates a new `Setting` by parsing the given six-byte record: a
    /// big-endian 16-bit identifier followed by a big-endian 32-bit value.
    pub fn load(raw: &[u8]) -> (r: Option<Setting>)
        requires
            raw@.len() == 6,
        ensures
            r == Some(spec_from_id(parse_id(raw@), parse_val(raw@))),
    {
        let id: u16 = ((raw[0] as u16) << 8) | (raw[1] as u16);
        let val: u32 = ((raw[2] as u32) << 24) | ((raw[3] as u32) << 16) | ((raw[4] as u32) << 8)
            | (raw[5] as u32);
        Setting::from_id(id, val)
    }

    /// Appends the six wire bytes of this setting: the identifier, then the
    /// value, both big-endian.
    pub fn encode(&self, dst: &mut bytes::BytesMut)
        ensures
            buf_data(*final(dst)) == buf_data(*old(dst))
                + record_bytes(self.spec_id(), self.spec_val()),
    {
        let (kind, val): (u16, u32) = match self {
            Setting::HeaderTableSize(v) => (HEADER_TABLE_SIZE, *v),
            Setting::EnablePush(v) => (ENABLE_PUSH, *v),
            Setting::MaxConcurrentStreams(v) => (MAX_CONCURRENT_STREAMS, *v),
            Setting::InitialWindowSize(v) => (INITIAL_WINDOW_SIZE, *v),
            Setting::MaxFrameSize(v) => (MAX_FRAME_SIZE, *v),
            Setting::MaxHeaderListSize(v) => (MAX_HEADER_LIST_SIZE, *v),
            Setting::Opaque(id, v) => (*id, *v),
        };
        buf::put_u16(dst, kind);
        buf::put_u32(dst, val);
        assert(buf_data(*dst) =~= buf_data(*old(dst)) + record_bytes(kind, val));
    }
}

/// A single-byte flag set, of which only the ACK bit is meaningful.
#[derive(Debug, Clone, Copy, PartialEq, Eq, Structural)]
pub struct SettingsFlags(pub u8);

impl SettingsFlags {
    /// Only recognized bits are ever set.
    pub open spec fn wf(self) -> bool {
        self.0 & ALL == self.0
    }

    /// Whether the ACK bit is set.
    pub open spec fn spec_is_ack(self) -> bool {
        self.0 & ACK == ACK
    }

    /// The single-byte wire representation.
    pub open spec fn spec_bits(self) -> u8 {
        self.0
    }

    /// The zero flag set.
    pub fn empty() -> (r: SettingsFlags)
        ensures
            r.spec_bits() == 0,
            r.wf(),
            !r.spec_is_ack(),
    {
        proof {
            assert(0u8 & ALL == 0u8 && 0u8 & ACK != ACK) by (bit_vector);
        }
        SettingsFlags(0)
    }

    /// Masks the input to the recognized bits; unrecognized bits are
    /// silently dropped, never reported as an error.
    pub fn load(bits: u8) -> (r: SettingsFlags)
        ensures
            r.spec_bits() == bits & ALL,
            r.wf(),
            r.spec_is_ack() <==> ack_bit_set(bits),
    {
        proof {
            assert((bits & ALL) & ALL == bits & ALL) by (bit_vector);
            assert(((bits & ALL) & ACK == ACK) == (bits & ACK == ACK)) by (bit_vector);
        }
        SettingsFlags(bits & ALL)
    }

    /// The flag set with only the ACK bit set.
    pub fn ack() -> (r: SettingsFlags)
        ensures
            r.spec_bits() == ACK,
            r.wf(),
            r.spec_is_ack(),
    {
        proof {
            assert(ACK & ALL == ACK && ACK & ACK == ACK) by (bit_vector);
        }
        SettingsFlags(ACK)
    }

    /// Whether the ACK bit is set.
    pub fn is_ack(&self) -> (r: bool)
        ensures
            r == self.spec_is_ack(),
    {
        self.0 & ACK == ACK
    }

    /// The single-byte wire representation; converts losslessly back
    /// through `load`.
    pub fn bits(&self) -> (r: u8)
        ensures
            r == self.spec_bits(),
    {
        self.0
    }
}

/// Whether a raw flag byte has the ACK bit set.
pub open spec fn ack_bit_set(flag: u8) -> bool {
    flag & ACK == ACK
}

/// In a sorted field set, the stored value for `id` is exactly the value of
/// the entry with that key, and there is none where no entry carries it.
pub proof fn lemma_lookup_entries(s: Seq<(u16, u32)>, id: u16)
    requires
        keys_sorted(s),
    ensures
        (lookup(s, id) is Some) <==> exists|k: int| 0 <= k < s.len() && (#[trigger] s[k]).0 == id,
        forall|k: int|
            0 <= k < s.len() && (#[trigger] s[k]).0 == id ==> lookup(s, id) == Some(s[k].1),
    decreases s.len(),
{
    if s.len() > 0 {
        let t = s.drop_last();
        assert(keys_sorted(t)) by {
            assert forall|i: int, j: int| 0 <= i < j < t.len() implies (#[trigger] t[i]).0
                < (#[trigger] t[j]).0 by {
                assert(t[i] == s[i] && t[j] == s[j]);
            }
        }
        lemma_lookup_entries(t, id);
        if s.last().0 == id {
            assert((s[s.len() - 1]).0 == id);
            assert forall|k: int| 0 <= k < s.len() && (#[trigger] s[k]).0 == id implies lookup(
                s,
                id,
            ) == Some(s[k].1) by {
                if k < s.len() - 1 {
                    assert(s[k].0 < s[s.len() - 1].0);
                }
            }
        } else {
            assert(lookup(s, id) == lookup(t, id));
            if exists|k: int| 0 <= k < s.len() && (#[trigger] s[k]).0 == id {
                let k = choose|k: int| 0 <= k < s.len() && (#[trigger] s[k]).0 == id;
                assert(k != s.len() - 1);
                assert(t[k] == s[k]);
            }
            if exists|k: int| 0 <= k < t.len() && (#[trigger] t[k]).0 == id {
                let k = choose|k: int| 0 <= k < t.len() && (#[trigger] t[k]).0 == id;
                assert(s[k] == t[k]);
            }
            assert forall|k: int| 0 <= k < s.len() && (#[trigger] s[k]).0 == id implies lookup(
                s,
                id,
            ) == Some(s[k].1) by {
                assert(k < s.len() - 1);
                assert(t[k] == s[k]);
            }
        }
    }
}

/// A sorted field set stores nothing for an identifier no entry carries.
pub proof fn lemma_lookup_absent(s: Seq<(u16, u32)>, id: u16)
    requires
        keys_sorted(s),
        forall|k: int| 0 <= k < s.len() ==> (#[trigger] s[k]).0 != id,
    ensures
        lookup(s, id) is None,
{
    lemma_lookup_entries(s, id);
}

/// Ascending unique 16-bit keys bound how many entries a field set can hold.
pub proof fn lemma_sorted_len_bound(s: Seq<(u16, u32)>)
    requires
        keys_sorted(s),
    ensures
        s.len() <= 0x10000,
{
    if s.len() > 0x10000 {
        lemma_sorted_index_ge(s, 0x10000);
    }
}

proof fn lemma_sorted_index_ge(s: Seq<(u16, u32)>, i: int)
    requires
        keys_sorted(s),
        0 <= i < s.len(),
    ensures
        s[i].0 >= i,
    decreases i,
{
    if i > 0 {
        lemma_sorted_index_ge(s, i - 1);
        assert(s[i - 1].0 < s[i].0);
    }
}

/// Records whose values are all legal leave only legal values stored.
proof fn lemma_decoded_in_range(p: Seq<u8>, n: int, id: u16)
    requires
        forall|j: int|
            0 <= j < n ==> value_in_range(#[trigger] record_id(p, j), record_val(p, j)),
    ensures
        decoded_prefix(p, n, id) matches Some(v) ==> value_in_range(id, v),
    decreases n,
{
    if n > 0 {
        lemma_decoded_in_range(p, n - 1, id);
    }
}

// Effect of the three field-set mutations on sortedness and on `lookup`.

proof fn lemma_set_insert(s: Seq<(u16, u32)>, i: int, id: u16, v: u32)
    requires
        keys_sorted(s),
        0 <= i <= s.len(),
        forall|k: int| 0 <= k < i ==> (#[trigger] s[k]).0 < id,
        forall|k: int| i <= k < s.len() ==> (#[trigger] s[k]).0 > id,
    ensures
        keys_sorted(s.insert(i, (id, v))),
        lookup(s.insert(i, (id, v)), id) == Some(v),
        forall|other: u16|
            other != id ==> lookup(s.insert(i, (id, v)), other) == lookup(s, other),
{
    let n = s.insert(i, (id, v));
    assert(n.len() == s.len() + 1);
    assert(forall|k: int| 0 <= k < i ==> n[k] == s[k]);
    assert(n[i] == (id, v));
    assert(forall|k: int| i < k < n.len() ==> n[k] == s[k - 1]);
    assert(keys_sorted(n)) by {
        assert forall|a: int, b: int| 0 <= a < b < n.len() implies (#[trigger] n[a]).0
            < (#[trigger] n[b]).0 by {
            if a < i && b < i {
            } else if a < i && b == i {
            } else if a < i && b > i {
                assert(n[b] == s[b - 1]);
            } else if a == i {
                assert(n[b] == s[b - 1]);
            } else {
                assert(n[a] == s[a - 1] && n[b] == s[b - 1]);
            }
        }
    }
    lemma_lookup_entries(n, id);
    assert(lookup(n, id) == Some(v));
    assert forall|other: u16| other != id implies lookup(n, other) == lookup(s, other) by {
        lemma_lookup_entries(s, other);
        lemma_lookup_entries(n, other);
        if lookup(s, other) is Some {
            let k = choose|k: int| 0 <= k < s.len() && (#[trigger] s[k]).0 == other;
            if k < i {
                assert(n[k] == s[k]);
            } else {
                assert(n[k + 1] == s[k]);
            }
        } else {
            assert forall|k: int| 0 <= k < n.len() implies (#[trigger] n[k]).0 != other by {
                if k < i {
                    assert(n[k] == s[k]);
                } else if k == i {
                } else {
                    assert(n[k] == s[k - 1]);
                }
            }
        }
    }
}

proof fn lemma_set_update(s: Seq<(u16, u32)>, i: int, id: u16, v: u32)
    requires
        keys_sorted(s),
        0 <= i < s.len(),
        s[i].0 == id,
    ensures
        keys_sorted(s.update(i, (id, v))),
        lookup(s.update(i, (id, v)), id) == Some(v),
        forall|other: u16|
            other != id ==> lookup(s.update(i, (id, v)), other) == lookup(s, other),
{
    let n = s.update(i, (id, v));
    assert(keys_sorted(n)) by {
        assert forall|a: int, b: int| 0 <= a < b < n.len() implies (#[trigger] n[a]).0
            < (#[trigger] n[b]).0 by {
            assert(n[a].0 == s[a].0 && n[b].0 == s[b].0);
        }
    }
    lemma_lookup_entries(n, id);
    assert(n[i] == (id, v));
    assert(lookup(n, id) == Some(v));
    assert forall|other: u16| other != id implies lookup(n, other) == lookup(s, other) by {
        lemma_lookup_entries(s, other);
        lemma_lookup_entries(n, other);
        if lookup(s, other) is Some {
            let k = choose|k: int| 0 <= k < s.len() && (#[trigger] s[k]).0 == other;
            assert(k != i);
            assert(n[k] == s[k]);
        } else {
            assert forall|k: int| 0 <= k < n.len() implies (#[trigger] n[k]).0 != other by {
                assert(n[k].0 == s[k].0);
            }
        }
    }
}

proof fn lemma_set_remove(s: Seq<(u16, u32)>, i: int, id: u16)
    requires
        keys_sorted(s),
        0 <= i < s.len(),
        s[i].0 == id,
    ensures
        keys_sorted(s.remove(i)),
        lookup(s.remove(i), id) is None,
        forall|other: u16| other != id ==> lookup(s.remove(i), other) == lookup(s, other),
{
    let n = s.remove(i);
    assert(n.len() == s.len() - 1);
    assert(forall|k: int| 0 <= k < i ==> n[k] == s[k]);
    assert(forall|k: int| i <= k < n.len() ==> n[k] == s[k + 1]);
    assert(keys_sorted(n)) by {
        assert forall|a: int, b: int| 0 <= a < b < n.len() implies (#[trigger] n[a]).0
            < (#[trigger] n[b]).0 by {
            if a < i && b < i {
            } else if a < i {
                assert(n[b] == s[b + 1]);
            } else {
                assert(n[a] == s[a + 1] && n[b] == s[b + 1]);
            }
        }
    }
    assert forall|k: int| 0 <= k < n.len() implies (#[trigger] n[k]).0 != id by {
        if k < i {
            assert(s[k].0 < s[i].0);
        } else {
            assert(n[k] == s[k + 1] && s[i].0 < s[k + 1].0);
        }
    }
    lemma_lookup_absent(n, id);
    assert forall|other: u16| other != id implies lookup(n, other) == lookup(s, other) by {
        lemma_lookup_entries(s, other);
        lemma_lookup_entries(n, other);
        if lookup(s, other) is Some {
            let k = choose|k: int| 0 <= k < s.len() && (#[trigger] s[k]).0 == other;
            assert(k != i);
            if k < i {
                assert(n[k] == s[k]);
            } else {
                assert(n[k - 1] == s[k]);
            }
        } else {
            assert forall|k: int| 0 <= k < n.len() implies (#[trigger] n[k]).0 != other by {
                if k < i {
                    assert(n[k] == s[k]);
                } else {
                    assert(n[k] == s[k + 1]);
                }
            }
        }
    }
}

/// The validated, typed collection of settings of one SETTINGS frame: an
/// acknowledgment flag plus an identifier-to-value mapping kept in ascending
/// identifier order, so that re-encoding is deterministic.
#[derive(Debug, Clone)]
pub struct Settings {
    flags: SettingsFlags,
    fields: Vec<(u16, u32)>,
}

impl Settings {
    /// The stored identifier/value pairs, in storage order.
    pub closed spec fn fields_seq(self) -> Seq<(u16, u32)> {
        self.fields@
    }

    /// The flag set of this instance.
    pub closed spec fn spec_flags(self) -> SettingsFlags {
        self.flags
    }

    /// Whether this instance represents an acknowledgment frame.
    pub open spec fn spec_is_ack(self) -> bool {
        self.spec_flags().spec_is_ack()
    }

    /// Well-formed: keys ascending and unique, only recognized flag bits
    /// set, and an acknowledgment stores no fields.
    pub open spec fn wf(self) -> bool {
        &&& keys_sorted(self.fields_seq())
        &&& self.spec_flags().wf()
        &&& self.spec_is_ack() ==> self.fields_seq().len() == 0
    }

    /// The acknowledgment instance: ACK flag set, no fields.
    pub fn ack() -> (r: Settings)
        ensures
            r.wf(),
            r.spec_is_ack(),
            r.fields_seq().len() == 0,
    {
        Settings { flags: SettingsFlags::ack(), fields: Vec::new() }
    }

    /// Whether this instance represents an acknowledgment frame.
    pub fn is_ack(&self) -> (r: bool)
        ensures
            r == self.spec_is_ack(),
    {
        self.flags.is_ack()
    }

    /// The stored value for `id`, or `None` where no entry carries it.
    pub fn get(&self, id: u16) -> (r: Option<u32>)
        ensures
            r == lookup(self.fields_seq(), id),
    {
        let n = self.fields.len();
        proof {
            assert(self.fields@.take(n as int) =~= self.fields@);
        }
        let mut i: usize = n;
        while i > 0
            invariant
                i <= self.fields@.len(),
                lookup(self.fields@, id) == lookup(self.fields@.take(i as int), id),
            decreases i,
        {
            i = i - 1;
            let entry = self.fields[i];
            proof {
                assert(self.fields@.take(i as int + 1).last() == self.fields@[i as int]);
                assert(self.fields@.take(i as int + 1).drop_last() =~= self.fields@.take(
                    i as int,
                ));
            }
            if entry.0 == id {
                return Some(entry.1);
            }
        }
        None
    }

    /// Inserts or overwrites the entry for `id` when given a value, removes
    /// it when given none. Every other entry keeps its value, and the
    /// ordering invariant is preserved.
    pub fn set(&mut self, id: u16, val: Option<u32>)
        requires
            old(self).wf(),
            !old(self).spec_is_ack(),
        ensures
            final(self).wf(),
            final(self).spec_flags() == old(self).spec_flags(),
            lookup(final(self).fields_seq(), id) == val,
            forall|other: u16|
                other != id ==> lookup(final(self).fields_seq(), other) == lookup(
                    old(self).fields_seq(),
                    other,
                ),
    {
        let ghost s0 = self.fields@;
        let mut i: usize = 0;
        while i < self.fields.len() && self.fields[i].0 < id
            invariant
                self.fields@ == s0,
                i <= s0.len(),
                forall|k: int| 0 <= k < i ==> (#[trigger] s0[k]).0 < id,
            decreases s0.len() - i,
        {
            i += 1;
        }
        proof {
            assert forall|k: int| i <= k < s0.len() && (#[trigger] s0[k]).0 != id implies s0[k].0
                > id by {
                assert(s0[i as int].0 >= id);
                if k > i {
                    assert(s0[i as int].0 < s0[k].0);
                }
            }
        }
        if i < self.fields.len() && self.fields[i].0 == id {
            match val {
                Some(v) => {
                    self.fields.remove(i);
                    self.fields.insert(i, (id, v));
                    proof {
                        assert(self.fields@ =~= s0.update(i as int, (id, v)));
                        lemma_set_update(s0, i as int, id, v);
                    }
                },
                None => {
                    self.fields.remove(i);
                    proof {
                        lemma_set_remove(s0, i as int, id);
                    }
                },
            }
        } else {
            match val {
                Some(v) => {
                    proof {
                        assert forall|k: int| i <= k < s0.len() implies (#[trigger] s0[k]).0
                            > id by {
                            if k == i {
                                assert(s0[k].0 >= id && s0[k].0 != id);
                            }
                        }
                    }
                    self.fields.insert(i, (id, v));
                    proof {
                        lemma_set_insert(s0, i as int, id, v);
                    }
                },
                None => {
                    proof {
                        assert forall|k: int| 0 <= k < s0.len() implies (#[trigger] s0[k]).0
                            != id by {
                            if k >= i {
                                assert(s0[k].0 >= id);
                                if k == i {
                                    assert(s0[k].0 != id);
                                } else {
                                    assert(s0[i as int].0 < s0[k].0);
                                }
                            }
                        }
                        lemma_lookup_absent(s0, id);
                    }
                },
            }
        }
    }

    /// The stored SETTINGS_INITIAL_WINDOW_SIZE, if set.
    pub fn initial_window_size(&self) -> (r: Option<u32>)
        ensures
            r == lookup(self.fields_seq(), INITIAL_WINDOW_SIZE),
    {
        self.get(INITIAL_WINDOW_SIZE)
    }

    /// Inserts or removes the SETTINGS_INITIAL_WINDOW_SIZE entry.
    pub fn set_initial_window_size(&mut self, size: Option<u32>)
        requires
            old(self).wf(),
            !old(self).spec_is_ack(),
        ensures
            final(self).wf(),
            final(self).spec_flags() == old(self).spec_flags(),
            lookup(final(self).fields_seq(), INITIAL_WINDOW_SIZE) == size,
            forall|other: u16|
                other != INITIAL_WINDOW_SIZE ==> lookup(final(self).fields_seq(), other) == lookup(
                    old(self).fields_seq(),
                    other,
                ),
    {
        self.set(INITIAL_WINDOW_SIZE, size);
    }

    /// The stored SETTINGS_MAX_CONCURRENT_STREAMS, if set.
    pub fn max_concurrent_streams(&self) -> (r: Option<u32>)
        ensures
            r == lookup(self.fields_seq(), MAX_CONCURRENT_STREAMS),
    {
        self.get(MAX_CONCURRENT_STREAMS)
    }

    /// Inserts or removes the SETTINGS_MAX_CONCURRENT_STREAMS entry.
    pub fn set_max_concurrent_streams(&mut self, max: Option<u32>)
        requires
            old(self).wf(),
            !old(self).spec_is_ack(),
        ensures
            final(self).wf(),
            final(self).spec_flags() == old(self).spec_flags(),
            lookup(final(self).fields_seq(), MAX_CONCURRENT_STREAMS) == max,
            forall|other: u16|
                other != MAX_CONCURRENT_STREAMS ==> lookup(final(self).fields_seq(), other)
                    == lookup(old(self).fields_seq(), other),
    {
        self.set(MAX_CONCURRENT_STREAMS, max);
    }

    /// The stored SETTINGS_MAX_FRAME_SIZE, if set.
    pub fn max_frame_size(&self) -> (r: Option<u32>)
        ensures
            r == lookup(self.fields_seq(), MAX_FRAME_SIZE),
    {
        self.get(MAX_FRAME_SIZE)
    }

    /// Inserts or removes the SETTINGS_MAX_FRAME_SIZE entry. This path only
    /// builds the local endpoint's outgoing configuration, which must never
    /// be out of range by construction, so a legal value is a precondition
    /// rather than a recoverable error.
    pub fn set_max_frame_size(&mut self, size: Option<u32>)
        requires
            old(self).wf(),
            !old(self).spec_is_ack(),
            size matches Some(v) ==> DEFAULT_MAX_FRAME_SIZE <= v && v <= MAX_MAX_FRAME_SIZE,
        ensures
            final(self).wf(),
            final(self).spec_flags() == old(self).spec_flags(),
            lookup(final(self).fields_seq(), MAX_FRAME_SIZE) == size,
            forall|other: u16|
                other != MAX_FRAME_SIZE ==> lookup(final(self).fields_seq(), other) == lookup(
                    old(self).fields_seq(),
                    other,
                ),
    {
        self.set(MAX_FRAME_SIZE, size);
    }

    /// The stored SETTINGS_MAX_HEADER_LIST_SIZE, if set.
    pub fn max_header_list_size(&self) -> (r: Option<u32>)
        ensures
            r == lookup(self.fields_seq(), MAX_HEADER_LIST_SIZE),
    {
        self.get(MAX_HEADER_LIST_SIZE)
    }

    /// Inserts or removes the SETTINGS_MAX_HEADER_LIST_SIZE entry.
    pub fn set_max_header_list_size(&mut self, size: Option<u32>)
        requires
            old(self).wf(),
            !old(self).spec_is_ack(),
        ensures
            final(self).wf(),
            final(self).spec_flags() == old(self).spec_flags(),
            lookup(final(self).fields_seq(), MAX_HEADER_LIST_SIZE) == size,
            forall|other: u16|
                other != MAX_HEADER_LIST_SIZE ==> lookup(final(self).fields_seq(), other)
                    == lookup(old(self).fields_seq(), other),
    {
        self.set(MAX_HEADER_LIST_SIZE, size);
    }

    /// Whether server push is enabled: the stored SETTINGS_ENABLE_PUSH read
    /// as a boolean, defaulting to enabled when absent.
    pub fn is_push_enabled(&self) -> (r: bool)
        ensures
            r == match lookup(self.fields_seq(), ENABLE_PUSH) {
                Some(v) => v != 0,
                None => true,
            },
    {
        match self.get(ENABLE_PUSH) {
            Some(v) => v != 0,
            None => true,
        }
    }

    /// Stores the SETTINGS_ENABLE_PUSH entry: one for enabled, zero for
    /// disabled.
    pub fn set_enable_push(&mut self, enable: bool)
        requires
            old(self).wf(),
            !old(self).spec_is_ack(),
        ensures
            final(self).wf(),
            final(self).spec_flags() == old(self).spec_flags(),
            lookup(final(self).fields_seq(), ENABLE_PUSH) == Some(if enable { 1u32 } else { 0u32 }),
            forall|other: u16|
                other != ENABLE_PUSH ==> lookup(final(self).fields_seq(), other) == lookup(
                    old(self).fields_seq(),
                    other,
                ),
    {
        self.set(ENABLE_PUSH, Some(if enable { 1 } else { 0 }));
    }

    /// Decodes the payload of a SETTINGS frame under its already-decoded
    /// header. Rejects a non-zero stream identifier, a non-empty payload on
    /// an acknowledgment, a payload that is not whole six-byte records, and
    /// a registered parameter outside its range; the whole decode fails on
    /// the first offence, no partial result escapes. Otherwise the records
    /// are stored in payload order, the last entry for an identifier
    /// winning.
    pub fn load(head: Head, payload: &[u8]) -> (r: Result<Settings, Error>)
        ensures
            head.stream_id != 0 ==> r == Err::<Settings, Error>(Error::InvalidStreamId),
            head.stream_id == 0 && ack_bit_set(head.flag) && payload@.len() != 0 ==> r == Err::<
                Settings,
                Error,
            >(Error::InvalidPayloadLength),
            head.stream_id == 0 && ack_bit_set(head.flag) && payload@.len() == 0 ==> (r matches Ok(
                s,
            ) && s.wf() && s.spec_is_ack() && s.fields_seq().len() == 0),
            head.stream_id == 0 && !ack_bit_set(head.flag) && payload@.len() % 6 != 0 ==> r
                == Err::<Settings, Error>(Error::InvalidSettingsPayloadLength),
            head.stream_id == 0 && !ack_bit_set(head.flag) && payload@.len() % 6 == 0
                && !records_ok(payload@) ==> r == Err::<Settings, Error>(Error::InvalidSettingValue),
            head.stream_id == 0 && !ack_bit_set(head.flag) && payload@.len() % 6 == 0
                && records_ok(payload@) ==> (r matches Ok(s) && s.wf() && !s.spec_is_ack()
                && fields_valid(s.fields_seq()) && forall|id: u16|
                lookup(s.fields_seq(), id) == decoded(payload@, id)),
    {
        if head.stream_id() != 0 {
            return Err(Error::InvalidStreamId);
        }
        // Load the flag, dropping unrecognized bits.
        let flag = SettingsFlags::load(head.flag());

        if flag.is_ack() {
            // An acknowledgment carries no parameter values.
            if payload.len() > 0 {
                return Err(Error::InvalidPayloadLength);
            }
            return Ok(Settings::ack());
        }
        // Each setting is one six-byte record.
        if payload.len() % 6 != 0 {
            return Err(Error::InvalidSettingsPayloadLength);
        }
        let n = payload.len() / 6;
        proof {
            assert(payload@.len() == 6 * (n as int));
            assert(payload@.len() <= usize::MAX);
        }
        let mut settings = Settings::default();
        let mut k: usize = 0;
        while k < n
            invariant
                head.stream_id == 0,
                !ack_bit_set(head.flag),
                payload@.len() <= usize::MAX,
                payload@.len() == 6 * (n as int),
                payload@.len() % 6 == 0,
                n == payload@.len() / 6,
                k <= n,
                settings.wf(),
                !settings.spec_is_ack(),
                forall|j: int|
                    0 <= j < k ==> value_in_range(
                        #[trigger] record_id(payload@, j),
                        record_val(payload@, j),
                    ),
                forall|id: u16|
                    #[trigger] lookup(settings.fields_seq(), id) == decoded_prefix(
                        payload@,
                        k as int,
                        id,
                    ),
            decreases n - k,
        {
            let start = k * 6;
            let raw = slice_subrange(payload, start, start + 6);
            let ghost rid = record_id(payload@, k as int);
            let ghost rval = record_val(payload@, k as int);
            proof {
                assert(raw@ == payload@.subrange(6 * (k as int), 6 * (k as int) + 6));
                assert(parse_id(raw@) == rid && parse_val(raw@) == rval);
            }
            match Setting::load(raw) {
                Some(Setting::HeaderTableSize(val)) => {
                    proof {
                        assert(rid == HEADER_TABLE_SIZE && rval == val);
                    }
                    settings.set(HEADER_TABLE_SIZE, Some(val));
                },
                Some(Setting::EnablePush(val)) => {
                    proof {
                        assert(rid == ENABLE_PUSH && rval == val);
                    }
                    if val > 1 {
                        proof {
                            assert(!value_in_range(rid, rval));
                            assert(0 <= k < payload@.len() / 6);
                        }
                        return Err(Error::InvalidSettingValue);
                    }
                    settings.set(ENABLE_PUSH, Some(val));
                },
                Some(Setting::MaxConcurrentStreams(val)) => {
                    proof {
                        assert(rid == MAX_CONCURRENT_STREAMS && rval == val);
                    }
                    settings.set(MAX_CONCURRENT_STREAMS, Some(val));
                },
                Some(Setting::InitialWindowSize(val)) => {
                    proof {
                        assert(rid == INITIAL_WINDOW_SIZE && rval == val);
                    }
                    if val > MAX_INITIAL_WINDOW_SIZE {
                        proof {
                            assert(!value_in_range(rid, rval));
                            assert(0 <= k < payload@.len() / 6);
                        }
                        return Err(Error::InvalidSettingValue);
                    }
                    settings.set(INITIAL_WINDOW_SIZE, Some(val));
                },
                Some(Setting::MaxFrameSize(val)) => {
                    proof {
                        assert(rid == MAX_FRAME_SIZE && rval == val);
                    }
                    if val < DEFAULT_MAX_FRAME_SIZE || val > MAX_MAX_FRAME_SIZE {
                        proof {
                            assert(!value_in_range(rid, rval));
                            assert(0 <= k < payload@.len() / 6);
                        }
                        return Err(Error::InvalidSettingValue);
                    }
                    settings.set(MAX_FRAME_SIZE, Some(val));
                },
                Some(Setting::MaxHeaderListSize(val)) => {
                    proof {
                        assert(rid == MAX_HEADER_LIST_SIZE && rval == val);
                    }
                    settings.set(MAX_HEADER_LIST_SIZE, Some(val));
                },
                Some(Setting::Opaque(id, val)) => {
                    proof {
                        assert(rid == id && rval == val);
                    }
                    settings.set(id, Some(val));
                },
                None => {
                    proof {
                        assert(false);
                    }
                },
            }
            proof {
                assert(value_in_range(rid, rval));
                assert(forall|id: u16|
                    #[trigger] lookup(settings.fields_seq(), id) == decoded_prefix(
                        payload@,
                        k as int + 1,
                        id,
                    ));
            }
            k += 1;
        }
        proof {
            assert(records_ok(payload@));
            assert forall|id: u16| #[trigger] lookup(settings.fields_seq(), id) is Some
                implies value_in_range(id, lookup(settings.fields_seq(), id)->Some_0) by {
                lemma_decoded_in_range(payload@, n as int, id);
            }
            assert(fields_valid(settings.fields_seq()));
        }
        Ok(settings)
    }

    /// The wire payload length of this field set: six bytes per entry.
    pub fn payload_len(&self) -> (r: usize)
        requires
            self.wf(),
        ensures
            r == 6 * self.fields_seq().len(),
    {
        proof {
            lemma_sorted_len_bound(self.fields@);
        }
        6 * self.fields.len()
    }

    /// The full wire form of this instance: nine header bytes, then the
    /// stored records in ascending identifier order.
    pub open spec fn encoded_bytes(self) -> Seq<u8> {
        crate::frame::head_bytes(
            crate::frame::SETTINGS_KIND,
            self.spec_flags().spec_bits(),
            crate::frame::CONNECTION_STREAM_ID,
            (6 * self.fields_seq().len()) as u32,
        ) + payload_bytes(self.fields_seq())
    }

    /// Appends the frame header and the stored records, in ascending
    /// identifier order. An acknowledgment appends only the header.
    pub fn encode(&self, dst: &mut bytes::BytesMut)
        requires
            self.wf(),
        ensures
            buf_data(*final(dst)) == buf_data(*old(dst)) + self.encoded_bytes(),
    {
        proof {
            lemma_sorted_len_bound(self.fields@);
        }
        // Create and encode an appropriate frame head.
        let head = Head::new(
            crate::frame::SETTINGS_KIND,
            self.flags.bits(),
            crate::frame::CONNECTION_STREAM_ID,
        );
        let payload_len = self.payload_len();
        head.encode(payload_len as u32, dst);
        let ghost base = buf_data(*dst);
        proof {
            assert(base =~= base + payload_bytes(self.fields@.take(0)));
        }
        // Encode the settings.
        let mut i: usize = 0;
        while i < self.fields.len()
            invariant
                i <= self.fields@.len(),
                buf_data(*dst) == base + payload_bytes(self.fields@.take(i as int)),
            decreases self.fields@.len() - i,
        {
            let (id, val) = self.fields[i];
            let setting = Setting::Opaque(id, val);
            setting.encode(dst);
            proof {
                assert(self.fields@.take(i as int + 1).drop_last() =~= self.fields@.take(i as int));
                assert(self.fields@.take(i as int + 1).last() == self.fields@[i as int]);
                assert(buf_data(*dst) =~= base + payload_bytes(self.fields@.take(i as int + 1)));
            }
            i += 1;
        }
        proof {
            assert(self.fields@.take(self.fields@.len() as int) =~= self.fields@);
            assert(buf_data(*dst) =~= buf_data(*old(dst)) + self.encoded_bytes());
        }
    }
}

/// The payload of a field set is six bytes per entry.
pub proof fn lemma_payload_bytes_len(s: Seq<(u16, u32)>)
    ensures
        payload_bytes(s).len() == 6 * s.len(),
    decreases s.len(),
{
    if s.len() > 0 {
        lemma_payload_bytes_len(s.drop_last());
    }
}

/// Parsing the six bytes of a record yields the identifier and the value
/// back.
proof fn lemma_record_bytes_parse(id: u16, val: u32)
    ensures
        parse_id(record_bytes(id, val)) == id,
        parse_val(record_bytes(id, val)) == val,
{
    let r = record_bytes(id, val);
    assert(r[0] == (id >> 8) as u8 && r[1] == (id & 0xff) as u8);
    assert(r[2] == ((val >> 24) & 0xff) as u8 && r[3] == ((val >> 16) & 0xff) as u8 && r[4] == ((
    val >> 8) & 0xff) as u8 && r[5] == (val & 0xff) as u8);
    assert(((((id >> 8) as u8) as u16) << 8) | (((id & 0xff) as u8) as u16) == id) by (bit_vector);
    assert(((((val >> 24) & 0xff) as u8 as u32) << 24) | ((((val >> 16) & 0xff) as u8 as u32)
        << 16) | ((((val >> 8) & 0xff) as u8 as u32) << 8) | (((val & 0xff) as u8) as u32)
        == val) by (bit_vector);
}

/// Record `k` of an encoded field set is entry `k` of the set.
proof fn lemma_payload_bytes_records(s: Seq<(u16, u32)>, k: int)
    requires
        0 <= k < s.len(),
    ensures
        record_id(payload_bytes(s), k) == s[k].0,
        record_val(payload_bytes(s), k) == s[k].1,
    decreases s.len(),
{
    let p = payload_bytes(s);
    let t = s.drop_last();
    lemma_payload_bytes_len(s);
    lemma_payload_bytes_len(t);
    if k == s.len() - 1 {
        assert(p.subrange(6 * k, 6 * k + 6) =~= record_bytes(s[k].0, s[k].1));
        lemma_record_bytes_parse(s[k].0, s[k].1);
    } else {
        lemma_payload_bytes_records(t, k);
        assert(p.subrange(6 * k, 6 * k + 6) =~= payload_bytes(t).subrange(6 * k, 6 * k + 6));
        assert(t[k] == s[k]);
    }
}

/// The value the first `n` records leave stored depends only on those
/// records.
proof fn lemma_decoded_prefix_congruence(p1: Seq<u8>, p2: Seq<u8>, n: int, id: u16)
    requires
        forall|j: int|
            0 <= j < n ==> (#[trigger] record_id(p1, j)) == record_id(p2, j) && record_val(p1, j)
                == record_val(p2, j),
    ensures
        decoded_prefix(p1, n, id) == decoded_prefix(p2, n, id),
    decreases n,
{
    if n > 0 {
        lemma_decoded_prefix_congruence(p1, p2, n - 1, id);
    }
}

/// Decoding an encoded field set stores for each identifier exactly what
/// the set stored: the two recursions walk the entries in step.
proof fn lemma_decoded_payload(s: Seq<(u16, u32)>, id: u16)
    ensures
        decoded_prefix(payload_bytes(s), s.len() as int, id) == lookup(s, id),
    decreases s.len(),
{
    if s.len() > 0 {
        let t = s.drop_last();
        let p = payload_bytes(s);
        let pt = payload_bytes(t);
        lemma_payload_bytes_len(s);
        lemma_payload_bytes_len(t);
        lemma_payload_bytes_records(s, s.len() - 1);
        lemma_decoded_payload(t, id);
        assert forall|j: int| 0 <= j < s.len() - 1 implies (#[trigger] record_id(p, j))
            == record_id(pt, j) && record_val(p, j) == record_val(pt, j) by {
            lemma_payload_bytes_records(s, j);
            lemma_payload_bytes_records(t, j);
            assert(t[j] == s[j]);
        }
        lemma_decoded_prefix_congruence(p, pt, s.len() - 1, id);
    }
}

/// Law (round trip): a well-formed field set whose values are legal
/// survives the wire. Its encoded payload is whole six-byte records, every
/// record carries a legal value — so `load` accepts it — and decoding
/// stores for each identifier exactly the value the set stored.
pub proof fn lemma_round_trip(s: Seq<(u16, u32)>)
    requires
        keys_sorted(s),
        fields_valid(s),
    ensures
        payload_bytes(s).len() % 6 == 0,
        records_ok(payload_bytes(s)),
        forall|id: u16| #[trigger] decoded(payload_bytes(s), id) == lookup(s, id),
{
    let p = payload_bytes(s);
    lemma_payload_bytes_len(s);
    assert(p.len() % 6 == 0 && p.len() / 6 == s.len());
    assert forall|k: int| 0 <= k < p.len() / 6 implies value_in_range(
        #[trigger] record_id(p, k),
        record_val(p, k),
    ) by {
        lemma_payload_bytes_records(s, k);
        lemma_lookup_entries(s, s[k].0);
        assert(lookup(s, s[k].0) == Some(s[k].1));
    }
    assert forall|id: u16| #[trigger] decoded(p, id) == lookup(s, id) by {
        lemma_decoded_payload(s, id);
    }
}

/// Law (round trip, on a whole instance): a non-acknowledgment `Settings`
/// holding only legal values re-enters through `load` unchanged — its
/// payload passes every check of the decoder, and each identifier decodes
/// to the stored value.
pub proof fn lemma_settings_round_trip(s: Settings)
    requires
        s.wf(),
        !s.spec_is_ack(),
        fields_valid(s.fields_seq()),
    ensures
        payload_bytes(s.fields_seq()).len() % 6 == 0,
        records_ok(payload_bytes(s.fields_seq())),
        forall|id: u16|
            #[trigger] decoded(payload_bytes(s.fields_seq()), id) == lookup(s.fields_seq(), id),
{
    lemma_round_trip(s.fields_seq());
}

/// Law (determinism): two sorted field sets that store the same value for
/// every identifier are the same sequence, and so encode to identical
/// payload bytes — however their entries were set.
pub proof fn lemma_encode_deterministic(a: Seq<(u16, u32)>, b: Seq<(u16, u32)>)
    requires
        keys_sorted(a),
        keys_sorted(b),
        forall|id: u16| #[trigger] lookup(a, id) == lookup(b, id),
    ensures
        a == b,
        payload_bytes(a) == payload_bytes(b),
    decreases a.len(),
{
    if a.len() == 0 && b.len() == 0 {
        assert(a =~= b);
    } else if a.len() == 0 {
        assert(lookup(b, b.last().0) is Some);
        assert(lookup(a, b.last().0) is None);
    } else if b.len() == 0 {
        assert(lookup(a, a.last().0) is Some);
        assert(lookup(b, a.last().0) is None);
    } else {
        let ka = a.last().0;
        let kb = b.last().0;
        assert(lookup(a, ka) == Some(a.last().1));
        assert(lookup(b, kb) == Some(b.last().1));
        lemma_lookup_entries(b, ka);
        let i = choose|i: int| 0 <= i < b.len() && (#[trigger] b[i]).0 == ka;
        assert(i == b.len() - 1 || b[i].0 < kb);
        lemma_lookup_entries(a, kb);
        let j = choose|j: int| 0 <= j < a.len() && (#[trigger] a[j]).0 == kb;
        assert(j == a.len() - 1 || a[j].0 < ka);
        assert(ka == kb);
        assert(a.last().1 == b.last().1);
        let ta = a.drop_last();
        let tb = b.drop_last();
        assert(keys_sorted(ta) && keys_sorted(tb)) by {
            assert(forall|x: int, y: int|
                0 <= x < y < ta.len() ==> (#[trigger] ta[x]).0 < (#[trigger] ta[y]).0 && ta[x]
                    == a[x] && ta[y] == a[y]);
            assert(forall|x: int, y: int|
                0 <= x < y < tb.len() ==> (#[trigger] tb[x]).0 < (#[trigger] tb[y]).0 && tb[x]
                    == b[x] && tb[y] == b[y]);
        }
        assert forall|id: u16| #[trigger] lookup(ta, id) == lookup(tb, id) by {
            if id == ka {
                assert forall|x: int| 0 <= x < ta.len() implies (#[trigger] ta[x]).0 != id by {
                    assert(ta[x] == a[x] && a[x].0 < ka);
                }
                assert forall|x: int| 0 <= x < tb.len() implies (#[trigger] tb[x]).0 != id by {
                    assert(tb[x] == b[x] && b[x].0 < kb);
                }
                lemma_lookup_absent(ta, id);
                lemma_lookup_absent(tb, id);
            } else {
                assert(lookup(a, id) == lookup(ta, id));
                assert(lookup(b, id) == lookup(tb, id));
            }
        }
        lemma_encode_deterministic(ta, tb);
        assert(a =~= b) by {
            assert(a.len() == b.len());
            assert forall|x: int| 0 <= x < a.len() implies a[x] == b[x] by {
                if x < a.len() - 1 {
                    assert(a[x] == ta[x] && b[x] == tb[x]);
                }
            }
        }
    }
}

/// Law (determinism, on whole instances): two well-formed settings values
/// with the same flag set that store the same value for every identifier
/// encode to byte-identical frames.
pub proof fn lemma_settings_encode_deterministic(a: Settings, b: Settings)
    requires
        a.wf(),
        b.wf(),
        a.spec_flags() == b.spec_flags(),
        forall|id: u16| #[trigger] lookup(a.fields_seq(), id) == lookup(b.fields_seq(), id),
    ensures
        a.encoded_bytes() == b.encoded_bytes(),
{
    lemma_encode_deterministic(a.fields_seq(), b.fields_seq());
}

impl PartialEq for Settings {
    /// Structural equality: same flags, same stored entries in the same
    /// order.
    fn eq(&self, other: &Settings) -> (r: bool) {
        if self.flags.0 != other.flags.0 {
            return false;
        }
        if self.fields.len() != other.fields.len() {
            return false;
        }
        let mut i: usize = 0;
        while i < self.fields.len()
            invariant
                i <= self.fields@.len(),
                self.fields@.len() == other.fields@.len(),
                self.flags == other.flags,
                forall|k: int| 0 <= k < i ==> self.fields@[k] == other.fields@[k],
            decreases self.fields@.len() - i,
        {
            let a = self.fields[i];
            let b = other.fields[i];
            if a.0 != b.0 || a.1 != b.1 {
                proof {
                    assert(self.fields@[i as int] != other.fields@[i as int]);
                }
                return false;
            }
            i += 1;
        }
        proof {
            assert(self.fields@ =~= other.fields@);
        }
        true
    }
}

impl vstd::std_specs::cmp::PartialEqSpecImpl for Settings {
    open spec fn obeys_eq_spec() -> bool {
        true
    }

    open spec fn eq_spec(&self, other: &Settings) -> bool {
        self.spec_flags() == other.spec_flags() && self.fields_seq() == other.fields_seq()
    }
}

impl Default for Settings {
    /// The empty, non-acknowledgment settings value.
    fn default() -> (r: Settings)
        ensures
            r.wf(),
            !r.spec_is_ack(),
            r.fields_seq().len() == 0,
            r.spec_flags().spec_bits() == 0,
    {
        Settings { flags: SettingsFlags::empty(), fields: Vec::new() }
    }
}

} // verus!
