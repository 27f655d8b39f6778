//! The scan engine: scan state bound to a target process, full scans over
//! the cached region list, narrowing scans over the current results, value
//! refresh, and a watchlist of pinned addresses.

use vstd::prelude::*;

use crate::codec::{spec_encode_value, spec_value_string, ValueType};
use crate::maps::{bound_hi, bound_lo, perm_match, perms_seq, spec_regions, split_lines};
use crate::mem::{
    read_memory_address, write_memory_address, MemoryError, MemoryRegion, MemoryRegionPerms,
};
use crate::search::{is_match_at, lemma_match_positions_sound, match_positions};

verus! {

/// Everything a scan operation can report to its caller.
#[derive(Debug, Clone, Copy, PartialEq, Eq, Structural)]
pub enum ScanError {
    /// The pattern string does not parse under the current value type.
    InvalidValue,
    /// A scan was attempted with an empty pattern.
    EmptyValue,
    /// A start or end address is not valid hexadecimal.
    InvalidAddress,
    /// The start address would exceed the end address.
    AddressMismatch,
    /// The requested capture width lies outside the accepted range; the
    /// payload carries that range.
    ReadSizeInvalid(usize, usize),
    /// The process-memory layer failed.
    Memory(MemoryError),
    /// The pattern bytes cannot be rendered under the current value type.
    TypeMismatch,
}

/// One match: the address it was found at, the interpretation and
/// permissions it was found under, and the bytes captured there at the
/// last read.
#[derive(Debug, Clone)]
pub struct ScanResult {
    pub address: u64,
    pub value_type: ValueType,
    pub perms: Vec<MemoryRegionPerms>,
    pub value: Vec<u8>,
}

impl ScanResult {
    pub fn new(
        address: u64,
        value_type: ValueType,
        value: Vec<u8>,
        perms: Vec<MemoryRegionPerms>,
    ) -> (r: ScanResult)
        ensures
            r.address == address,
            r.value_type == value_type,
            r.value == value,
            r.perms == perms,
    {
        ScanResult { address, value_type, perms, value }
    }

    /// The captured bytes rendered under the result's own type.
    pub fn get_string(&self) -> (r: Result<String, ScanError>)
        ensures
            r matches Ok(out) ==> spec_value_string(self.value_type, self.value@) == Some(out@),
            r matches Err(e) ==> e == ScanError::TypeMismatch && spec_value_string(
                self.value_type,
                self.value@,
            ) is None,
    {
        self.value_type.get_value_string(self.value.as_slice())
    }

    /// The source region was not writable.
    pub fn is_read_only(&self) -> (r: bool)
        ensures
            r == !self.perms@.contains(MemoryRegionPerms::Write),
    {
        let n = self.perms.len();
        let mut k: usize = 0;
        while k < n
            invariant
                k <= n,
                n == self.perms@.len(),
                forall|t: int| 0 <= t < k ==> self.perms@[t] != MemoryRegionPerms::Write,
            decreases n - k,
        {
            if matches!(self.perms[k], MemoryRegionPerms::Write) {
                return false;
            }
            k = k + 1;
        }
        proof {
            assert(!self.perms@.contains(MemoryRegionPerms::Write));
        }
        true
    }
}

/// The index of the first watchlist entry at `address`, or `-1`.
pub open spec fn watch_index(wl: Seq<ScanResult>, address: u64) -> int
    decreases wl.len(),
{
    if wl.len() == 0 {
        -1
    } else if wl[0].address == address {
        0
    } else {
        let r = watch_index(wl.drop_first(), address);
        if r == -1 {
            -1
        } else {
            1 + r
        }
    }
}

/// What adding a result to the watchlist yields: unchanged when the
/// address is already pinned, else the result appended.
pub open spec fn add_watch(wl: Seq<ScanResult>, r: ScanResult) -> Seq<ScanResult> {
    if watch_index(wl, r.address) >= 0 {
        wl
    } else {
        wl.push(r)
    }
}

/// What removing an address from the watchlist yields: unchanged when the
/// address is not pinned, else the first entry with it taken out.
pub open spec fn remove_watch(wl: Seq<ScanResult>, address: u64) -> Seq<ScanResult> {
    if watch_index(wl, address) == -1 {
        wl
    } else {
        wl.remove(watch_index(wl, address))
    }
}

/// `watch_index` finds the first entry with the address, and `-1` exactly
/// when no entry has it.
pub proof fn lemma_watch_index(wl: Seq<ScanResult>, address: u64)
    ensures
        -1 <= watch_index(wl, address) < wl.len(),
        watch_index(wl, address) == -1 ==> forall|j: int|
            0 <= j < wl.len() ==> (#[trigger] wl[j]).address != address,
        watch_index(wl, address) >= 0 ==> watch_index(wl, address) < wl.len() && wl[watch_index(
            wl,
            address,
        )].address == address && (forall|j: int|
            0 <= j < watch_index(wl, address) ==> (#[trigger] wl[j]).address != address),
    decreases wl.len(),
{
    if wl.len() == 0 {
    } else if wl[0].address == address {
    } else {
        let t = wl.drop_first();
        lemma_watch_index(t, address);
        let rt = watch_index(t, address);
        if rt == -1 {
            assert(watch_index(wl, address) == -1);
            assert forall|j: int| 0 <= j < wl.len() implies (#[trigger] wl[j]).address
                != address by {
                if j > 0 {
                    assert(wl[j] == t[j - 1]);
                }
            }
        } else {
            let r = watch_index(wl, address);
            assert(r == 1 + rt);
            assert(rt < t.len() && t[rt].address == address);
            assert(wl[r] == t[r - 1]);
            assert forall|j: int| 0 <= j < r implies (#[trigger] wl[j]).address != address by {
                if j > 0 {
                    assert(wl[j] == t[j - 1]);
                }
            }
        }
    }
}

proof fn lemma_watch_index_found(wl: Seq<ScanResult>, address: u64, j: int)
    requires
        0 <= j < wl.len(),
        wl[j].address == address,
    ensures
        watch_index(wl, address) >= 0,
    decreases wl.len(),
{
    if wl[0].address == address {
    } else {
        assert(j > 0);
        assert(wl.drop_first()[j - 1] == wl[j]);
        lemma_watch_index_found(wl.drop_first(), address, j - 1);
    }
}

/// Adding to the watchlist is idempotent on address: pinning the same
/// result twice is the same as pinning it once.
pub proof fn lemma_watchlist_add_idempotent(wl: Seq<ScanResult>, r: ScanResult)
    ensures
        add_watch(add_watch(wl, r), r) == add_watch(wl, r),
{
    if watch_index(wl, r.address) >= 0 {
    } else {
        let wl2 = wl.push(r);
        assert(wl2[wl.len() as int] == r);
        lemma_watch_index_found(wl2, r.address, wl.len() as int);
    }
}

/// Removing an address that was just pinned undoes the pinning: for an
/// address not yet on the watchlist, remove after add gives back the
/// original watchlist.
pub proof fn lemma_watchlist_remove_add(wl: Seq<ScanResult>, r: ScanResult)
    requires
        watch_index(wl, r.address) == -1,
    ensures
        remove_watch(add_watch(wl, r), r.address) == wl,
{
    let wl2 = wl.push(r);
    assert(wl2[wl.len() as int] == r);
    lemma_watch_index_found(wl2, r.address, wl.len() as int);
    lemma_watch_index(wl2, r.address);
    lemma_watch_index(wl, r.address);
    let j = watch_index(wl2, r.address);
    assert(wl2[j].address == r.address);
    if j < wl.len() {
        assert(wl2[j] == wl[j]);
        assert(false);
    }
    assert(j == wl.len());
    assert(wl2.remove(j) =~= wl);
}

/// Copy a permission list.
fn clone_perms(v: &Vec<MemoryRegionPerms>) -> (r: Vec<MemoryRegionPerms>)
    ensures
        r@ == v@,
{
    let mut r: Vec<MemoryRegionPerms> = Vec::new();
    let n = v.len();
    let mut i: usize = 0;
    while i < n
        invariant
            i <= n,
            n == v@.len(),
            r@ == v@.take(i as int),
        decreases n - i,
    {
        r.push(v[i]);
        proof {
            assert(v@.take(i + 1) =~= v@.take(i as int) + seq![v@[i as int]]);
        }
        i = i + 1;
    }
    proof {
        assert(v@.take(n as int) =~= v@);
    }
    r
}

/// Every match of `pattern` in one block of read bytes, as scan results:
/// one result per non-overlapping occurrence, in increasing address order,
/// each capturing up to `capture` bytes from the match onward.
pub fn scan_block(
    block: &Vec<u8>,
    pattern: &Vec<u8>,
    capture: usize,
    base: u64,
    value_type: ValueType,
    perms: &Vec<MemoryRegionPerms>,
) -> (r: Vec<ScanResult>)
    requires
        base + block@.len() <= u64::MAX + 1,
    ensures
        ({
            let mp = match_positions(block@, pattern@);
            r@.len() == mp.len() && (forall|j: int|
                0 <= j < mp.len() ==> {
                    let res = #[trigger] r@[j];
                    &&& res.address == base + mp[j]
                    &&& res.value_type == value_type
                    &&& res.perms@ == perms@
                    &&& res.value@ == block@.subrange(
                        mp[j],
                        if mp[j] + capture <= block@.len() {
                            mp[j] + capture
                        } else {
                            block@.len() as int
                        },
                    )
                })
        }),
{
    let ghost mp = match_positions(block@, pattern@);
    let positions = crate::search::find_all(block, pattern);
    proof {
        lemma_match_positions_sound(block@, pattern@);
    }
    let mut out: Vec<ScanResult> = Vec::new();
    let n = positions.len();
    let blen = block.len();
    let mut k: usize = 0;
    while k < n
        invariant
            k <= n,
            n == mp.len(),
            blen == block@.len(),
            base + block@.len() <= u64::MAX + 1,
            mp == match_positions(block@, pattern@),
            positions@.len() == mp.len(),
            forall|j: int| 0 <= j < n ==> positions@[j] == mp[j],
            forall|j: int| 0 <= j < n ==> is_match_at(block@, pattern@, #[trigger] mp[j]),
            out@.len() == k,
            forall|j: int|
                0 <= j < k ==> {
                    let res = #[trigger] out@[j];
                    &&& res.address == base + mp[j]
                    &&& res.value_type == value_type
                    &&& res.perms@ == perms@
                    &&& res.value@ == block@.subrange(
                        mp[j],
                        if mp[j] + capture <= block@.len() {
                            mp[j] + capture
                        } else {
                            block@.len() as int
                        },
                    )
                },
        decreases n - k,
    {
        let i = positions[k];
        proof {
            assert(is_match_at(block@, pattern@, mp[k as int]));
        }
        let cap_end: usize = if capture <= blen - i {
            i + capture
        } else {
            blen
        };
        let value = crate::maps::copy_range(block.as_slice(), i, cap_end);
        let res = ScanResult {
            address: base + (i as u64),
            value_type,
            perms: clone_perms(perms),
            value,
        };
        out.push(res);
        k = k + 1;
    }
    out
}


/// The scan engine's state: the target, the pattern and its
/// interpretation, the clip range and permission filter with the region
/// list they select, the current results, and the watchlist.
#[derive(Debug)]
pub struct Scan {
    pub pid: u32,
    pub value: Vec<u8>,
    pub value_type: ValueType,
    pub results: Vec<ScanResult>,
    pub watchlist: Vec<ScanResult>,
    pub read_size: Option<usize>,
    pub start_address: Option<u64>,
    pub end_address: Option<u64>,
    pub memory_permissions: Vec<MemoryRegionPerms>,
    pub memory_regions: Vec<MemoryRegion>,
}

/// The region list carries at least one permission of the filter.
pub open spec fn region_perms_ok(
    perms: Seq<MemoryRegionPerms>,
    filter: Seq<MemoryRegionPerms>,
) -> bool {
    exists|k: int| 0 <= k < filter.len() && perms.contains(#[trigger] filter[k])
}

proof fn lemma_perm_match_seq(filter: Seq<MemoryRegionPerms>, has_r: bool, has_w: bool)
    requires
        perm_match(filter, has_r, has_w),
    ensures
        region_perms_ok(perms_seq(has_r, has_w), filter),
{
    let k = choose|k: int|
        0 <= k < filter.len() && ((#[trigger] filter[k] == MemoryRegionPerms::Read && has_r) || (
        filter[k] == MemoryRegionPerms::Write && has_w));
    let ps = perms_seq(has_r, has_w);
    if filter[k] == MemoryRegionPerms::Read && has_r {
        assert(ps[0] == MemoryRegionPerms::Read);
        assert(ps.contains(filter[k]));
    } else {
        if has_r {
            assert(ps[1] == MemoryRegionPerms::Write);
        } else {
            assert(ps[0] == MemoryRegionPerms::Write);
        }
        assert(ps.contains(filter[k]));
    }
}

/// What the engine was told to capture at each match: the explicit read
/// size if set, else the length of the given buffer.
pub open spec fn capture_of(read_size: Option<usize>, fallback: int) -> int {
    match read_size {
        Some(sz) => sz as int,
        None => fallback,
    }
}

/// The shape a captured result has: the engine's current interpretation,
/// no more bytes than the capture width asks for, and — whenever the
/// capture width covers the pattern — at least the pattern's length, with
/// the pattern itself as prefix.
#[verifier::opaque]
pub open spec fn capture_shape(
    res: ScanResult,
    pat: Seq<u8>,
    read_size: Option<usize>,
    vt: ValueType,
) -> bool {
    let cap = capture_of(read_size, pat.len() as int);
    &&& res.value_type == vt
    &&& res.value@.len() <= cap
    &&& (cap >= pat.len() ==> res.value@.len() >= pat.len() && res.value@.subrange(
        0,
        pat.len() as int,
    ) == pat)
}

/// The result lies in one of the given regions and carries its
/// permissions.
pub open spec fn result_in_regions(res: ScanResult, regions: Seq<MemoryRegion>, need: int) -> bool {
    exists|k: int|
        0 <= k < regions.len() && (#[trigger] regions[k]).start <= res.address && res.address
            + need <= regions[k].end && res.perms@ == regions[k].perms@
}

/// The cached regions stand in ascending, non-overlapping order, as a
/// real maps listing presents them.
pub open spec fn regions_ascending(rs: Seq<MemoryRegion>) -> bool {
    &&& forall|i: int| 0 <= i < rs.len() ==> (#[trigger] rs[i]).start < rs[i].end
    &&& forall|i: int| 0 <= i && i + 1 < rs.len() ==> (#[trigger] rs[i]).end <= rs[i + 1].start
}

/// The lowest address the regions from `ri` onward can contribute.
spec fn next_region_floor(rs: Seq<MemoryRegion>, ri: int) -> int {
    if ri < rs.len() {
        rs[ri].start as int
    } else {
        0x1_0000_0000_0000_0000
    }
}

/// What the pattern guard reports: scanning needs a non-empty pattern
/// that still renders under the current interpretation.
pub open spec fn pattern_status(vt: ValueType, value: Seq<u8>) -> Option<ScanError> {
    if value.len() == 0 {
        Some(ScanError::EmptyValue)
    } else if spec_value_string(vt, value) is None {
        Some(ScanError::TypeMismatch)
    } else {
        None
    }
}

/// A refreshed entry: either untouched (its read failed benignly) or
/// re-captured at the same address with the same permissions under the
/// engine's current interpretation.
pub open spec fn refreshed_entry(old_e: ScanResult, new_e: ScanResult, vt: ValueType) -> bool {
    ||| new_e == old_e
    ||| (new_e.address == old_e.address && new_e.perms == old_e.perms && new_e.value_type == vt)
}

/// A refreshed list: same length, and entry by entry refreshed — every
/// address and every permission list survives; only values (and the
/// displayed interpretation) may change.
pub open spec fn refreshed_list(old_l: Seq<ScanResult>, new_l: Seq<ScanResult>, vt: ValueType) -> bool {
    &&& new_l.len() == old_l.len()
    &&& forall|i: int| 0 <= i < old_l.len() ==> refreshed_entry(old_l[i], #[trigger] new_l[i], vt)
}

/// The narrowed result list keeps survivors of the old one in their old
/// relative order, each old result surviving at most once: `picks` names,
/// strictly increasingly, the old index every new entry descends from,
/// with its address and permissions.
pub open spec fn narrowed_from(
    old_rs: Seq<ScanResult>,
    new_rs: Seq<ScanResult>,
    picks: Seq<int>,
) -> bool {
    &&& picks.len() == new_rs.len()
    &&& forall|j: int| 0 <= j < picks.len() ==> 0 <= #[trigger] picks[j] < old_rs.len()
    &&& forall|j: int| 0 <= j && j + 1 < picks.len() ==> #[trigger] picks[j] < picks[j + 1]
    &&& forall|j: int|
        0 <= j < picks.len() ==> (#[trigger] new_rs[j]).address == old_rs[picks[j]].address
            && new_rs[j].perms@ == old_rs[picks[j]].perms@
}

/// A re-read entry of the result set: the address, the permissions and the
/// stored interpretation all survive — only the captured bytes may change.
pub open spec fn revalued_entry(old_e: ScanResult, new_e: ScanResult) -> bool {
    &&& new_e.address == old_e.address
    &&& new_e.perms == old_e.perms
    &&& new_e.value_type == old_e.value_type
}

/// A re-read list: same length, and entry by entry only the captured
/// bytes may change.
pub open spec fn revalued_list(old_l: Seq<ScanResult>, new_l: Seq<ScanResult>) -> bool {
    &&& new_l.len() == old_l.len()
    &&& forall|i: int| 0 <= i < old_l.len() ==> revalued_entry(old_l[i], #[trigger] new_l[i])
}

impl Scan {
    /// The state invariant: an accepted read size lies in `[1, 256]`, and
    /// an accepted address pair is ordered.
    pub open spec fn wf(self) -> bool {
        &&& match self.read_size {
            Some(sz) => 1 <= sz <= 256,
            None => true,
        }
        &&& match (self.start_address, self.end_address) {
            (Some(s), Some(e)) => s <= e,
            _ => true,
        }
    }

    /// Every cached region overlaps the clip range and meets the
    /// permission filter.
    pub open spec fn regions_ok(self) -> bool {
        forall|j: int|
            0 <= j < self.memory_regions@.len() ==> {
                let r = #[trigger] self.memory_regions@[j];
                &&& r.end > bound_lo(self.start_address)
                &&& r.start <= bound_hi(self.end_address)
                &&& region_perms_ok(r.perms@, self.memory_permissions@)
            }
    }

    /// The cached region list is exactly what the given maps text yields
    /// under the current clip range and permission filter.
    pub open spec fn regions_from_maps(self, maps: Seq<u8>) -> bool {
        match spec_regions(
            split_lines(maps),
            bound_lo(self.start_address),
            bound_hi(self.end_address),
            self.memory_permissions@,
        ) {
            Some(rs) => self.memory_regions@.len() == rs.len() && (forall|j: int|
                0 <= j < rs.len() ==> (#[trigger] self.memory_regions@[j]).start == rs[j].0
                    && self.memory_regions@[j].end == rs[j].1 && self.memory_regions@[j].perms@
                    == perms_seq(rs[j].2, rs[j].3)),
            None => false,
        }
    }

    /// Everything but the results and the watchlist.
    pub open spec fn same_config(self, other: Scan) -> bool {
        &&& self.pid == other.pid
        &&& self.value == other.value
        &&& self.value_type == other.value_type
        &&& self.read_size == other.read_size
        &&& self.start_address == other.start_address
        &&& self.end_address == other.end_address
        &&& self.memory_permissions == other.memory_permissions
        &&& self.memory_regions == other.memory_regions
    }

    /// Create a scan bound to a target, deriving the region list from the
    /// maps text under the clip range and the permission filter (write-only
    /// when none is given).
    pub fn new(
        pid: u32,
        value: Vec<u8>,
        value_type: ValueType,
        start_address: Option<u64>,
        end_address: Option<u64>,
        memory_permissions: Option<Vec<MemoryRegionPerms>>,
        maps: &[u8],
    ) -> (r: Result<Scan, ScanError>)
        requires
            match (start_address, end_address) {
                (Some(s), Some(e)) => s <= e,
                _ => true,
            },
        ensures
            ({
                let f = match memory_permissions {
                    Some(p) => p@,
                    None => seq![MemoryRegionPerms::Write],
                };
                match r {
                    Ok(s) => {
                        &&& s.pid == pid
                        &&& s.value == value
                        &&& s.value_type == value_type
                        &&& s.start_address == start_address
                        &&& s.end_address == end_address
                        &&& s.read_size is None
                        &&& s.results@ =~= Seq::<ScanResult>::empty()
                        &&& s.watchlist@ =~= Seq::<ScanResult>::empty()
                        &&& s.memory_permissions@ == f
                        &&& s.wf()
                        &&& s.regions_ok()
                        &&& s.regions_from_maps(maps@)
                    },
                    Err(e) => {
                        &&& e == ScanError::Memory(MemoryError::MemRead(0))
                        &&& spec_regions(
                            split_lines(maps@),
                            bound_lo(start_address),
                            bound_hi(end_address),
                            f,
                        ) is None
                    },
                }
            }),
    {
        let memory_permissions = match memory_permissions {
            Some(p) => p,
            None => crate::mem::default_search_perms(),
        };
        let ghost fsnap = memory_permissions@;
        let memory_regions = match crate::maps::get_memory_regions(
            maps,
            start_address,
            end_address,
            Some(&memory_permissions),
        ) {
            Ok(v) => v,
            Err(e) => {
                return Err(ScanError::Memory(e));
            },
        };
        let ghost vsnap = memory_regions@;
        let s = Scan {
            pid,
            value,
            value_type,
            results: Vec::new(),
            watchlist: Vec::new(),
            read_size: None,
            start_address,
            end_address,
            memory_permissions,
            memory_regions,
        };
        proof {
            assert(s.memory_permissions@ == fsnap);
            assert(s.memory_regions@ == vsnap);
            let rs = spec_regions(
                split_lines(maps@),
                bound_lo(start_address),
                bound_hi(end_address),
                fsnap,
            ).unwrap();
            assert forall|j: int| 0 <= j < s.memory_regions@.len() implies {
                let r = #[trigger] s.memory_regions@[j];
                &&& r.end > bound_lo(s.start_address)
                &&& r.start <= bound_hi(s.end_address)
                &&& region_perms_ok(r.perms@, s.memory_permissions@)
            } by {
                assert(vsnap[j].end > bound_lo(start_address) && vsnap[j].start <= bound_hi(
                    end_address,
                ) && perm_match(fsnap, rs[j].2, rs[j].3));
                lemma_perm_match_seq(fsnap, rs[j].2, rs[j].3);
                assert(s.memory_regions@[j] == vsnap[j]);
            }
        }
        Ok(s)
    }

    /// Re-derive the cached region list from the maps text.
    fn update_memory_regions(&mut self, maps: &[u8]) -> (r: Result<(), ScanError>)
        ensures
            final(self).pid == old(self).pid,
            final(self).value == old(self).value,
            final(self).value_type == old(self).value_type,
            final(self).read_size == old(self).read_size,
            final(self).start_address == old(self).start_address,
            final(self).end_address == old(self).end_address,
            final(self).memory_permissions == old(self).memory_permissions,
            final(self).results == old(self).results,
            final(self).watchlist == old(self).watchlist,
            r is Ok <==> spec_regions(
                split_lines(maps@),
                bound_lo(old(self).start_address),
                bound_hi(old(self).end_address),
                old(self).memory_permissions@,
            ) is Some,
            match r {
                Ok(()) => final(self).regions_ok() && final(self).regions_from_maps(maps@),
                Err(e) => e == ScanError::Memory(MemoryError::MemRead(0)) && final(self).memory_regions == old(self).memory_regions,
            },
    {
        match crate::maps::get_memory_regions(
            maps,
            self.start_address,
            self.end_address,
            Some(&self.memory_permissions),
        ) {
            Ok(v) => {
                let ghost vsnap = v@;
                let ghost fsnap = self.memory_permissions@;
                self.memory_regions = v;
                proof {
                    assert(self.memory_regions@ == vsnap);
                    let rs = spec_regions(
                        split_lines(maps@),
                        bound_lo(self.start_address),
                        bound_hi(self.end_address),
                        fsnap,
                    ).unwrap();
                    assert forall|j: int| 0 <= j < self.memory_regions@.len() implies {
                        let r = #[trigger] self.memory_regions@[j];
                        &&& r.end > bound_lo(self.start_address)
                        &&& r.start <= bound_hi(self.end_address)
                        &&& region_perms_ok(r.perms@, self.memory_permissions@)
                    } by {
                        assert(vsnap[j].end > bound_lo(self.start_address) && vsnap[j].start
                            <= bound_hi(self.end_address) && perm_match(fsnap, rs[j].2, rs[j].3));
                        lemma_perm_match_seq(fsnap, rs[j].2, rs[j].3);
                        assert(self.memory_regions@[j] == vsnap[j]);
                    }
                }
                Ok(())
            },
            Err(e) => Err(ScanError::Memory(e)),
        }
    }

    /// Replace the permission filter and re-derive the region list.
    pub fn set_mem_permissions(
        &mut self,
        memory_permissions: Vec<MemoryRegionPerms>,
        maps: &[u8],
    ) -> (r: Result<(), ScanError>)
        ensures
            final(self).memory_permissions == memory_permissions,
            final(self).pid == old(self).pid,
            final(self).value == old(self).value,
            final(self).value_type == old(self).value_type,
            final(self).read_size == old(self).read_size,
            final(self).start_address == old(self).start_address,
            final(self).end_address == old(self).end_address,
            final(self).results == old(self).results,
            final(self).watchlist == old(self).watchlist,
            old(self).wf() ==> final(self).wf(),
            r is Ok <==> spec_regions(
                split_lines(maps@),
                bound_lo(old(self).start_address),
                bound_hi(old(self).end_address),
                memory_permissions@,
            ) is Some,
            match r {
                Ok(()) => final(self).regions_ok() && final(self).regions_from_maps(maps@),
                Err(e) => e == ScanError::Memory(MemoryError::MemRead(0)) && final(self).memory_regions == old(self).memory_regions,
            },
    {
        self.memory_permissions = memory_permissions;
        self.update_memory_regions(maps)
    }

    /// Change the value type; when a pattern string is supplied, re-encode
    /// it under the new type.
    pub fn set_value_type(&mut self, value_type: ValueType, value_str: Option<&str>) -> (r: Result<
        (),
        ScanError,
    >)
        ensures
            final(self).value_type == value_type,
            final(self).pid == old(self).pid,
            final(self).read_size == old(self).read_size,
            final(self).start_address == old(self).start_address,
            final(self).end_address == old(self).end_address,
            final(self).memory_permissions == old(self).memory_permissions,
            final(self).memory_regions == old(self).memory_regions,
            final(self).results == old(self).results,
            final(self).watchlist == old(self).watchlist,
            old(self).wf() ==> final(self).wf(),
            match value_str {
                None => r is Ok && final(self).value == old(self).value,
                Some(s) => match spec_encode_value(value_type, s@) {
                    Some(b) => r is Ok && final(self).value@ == b,
                    None => r == Err::<(), ScanError>(ScanError::InvalidValue) && final(self).value == old(self).value,
                },
            },
    {
        self.value_type = value_type;
        match value_str {
            Some(value) => self.set_value_from_str(value),
            None => Ok(()),
        }
    }

    /// Accept a capture width override in `[1, 256]`; `None` clears it.
    pub fn set_read_size(&mut self, size: Option<usize>) -> (r: Result<(), ScanError>)
        ensures
            final(self).pid == old(self).pid,
            final(self).value == old(self).value,
            final(self).value_type == old(self).value_type,
            final(self).start_address == old(self).start_address,
            final(self).end_address == old(self).end_address,
            final(self).memory_permissions == old(self).memory_permissions,
            final(self).memory_regions == old(self).memory_regions,
            final(self).results == old(self).results,
            final(self).watchlist == old(self).watchlist,
            old(self).wf() ==> final(self).wf(),
            match size {
                None => r is Ok && final(self).read_size is None,
                Some(sz) => if 1 <= sz <= 256 {
                    r is Ok && final(self).read_size == Some(sz)
                } else {
                    r == Err::<(), ScanError>(ScanError::ReadSizeInvalid(1, 256)) && final(self).read_size == old(self).read_size
                },
            },
    {
        match size {
            Some(sz) => {
                if sz < 1 || sz > 256 {
                    return Err(ScanError::ReadSizeInvalid(1, 256));
                }
                self.read_size = Some(sz);
                Ok(())
            },
            None => {
                self.read_size = None;
                Ok(())
            },
        }
    }

    /// Encode a pattern string under the current value type.
    pub fn value_from_str(&self, value_str: &str) -> (r: Result<Vec<u8>, ScanError>)
        ensures
            r matches Ok(v) ==> spec_encode_value(self.value_type, value_str@) == Some(v@),
            r matches Err(e) ==> e == ScanError::InvalidValue && spec_encode_value(
                self.value_type,
                value_str@,
            ) is None,
    {
        self.value_type.parse_value(value_str)
    }

    /// Encode a pattern string under the current value type and make it
    /// the active pattern.
    pub fn set_value_from_str(&mut self, value_str: &str) -> (r: Result<(), ScanError>)
        ensures
            final(self).pid == old(self).pid,
            final(self).value_type == old(self).value_type,
            final(self).read_size == old(self).read_size,
            final(self).start_address == old(self).start_address,
            final(self).end_address == old(self).end_address,
            final(self).memory_permissions == old(self).memory_permissions,
            final(self).memory_regions == old(self).memory_regions,
            final(self).results == old(self).results,
            final(self).watchlist == old(self).watchlist,
            old(self).wf() ==> final(self).wf(),
            match spec_encode_value(old(self).value_type, value_str@) {
                Some(b) => r is Ok && final(self).value@ == b,
                None => r == Err::<(), ScanError>(ScanError::InvalidValue) && final(self).value == old(self).value,
            },
    {
        match self.value_type.parse_value(value_str) {
            Ok(v) => {
                self.value = v;
                Ok(())
            },
            Err(e) => Err(e),
        }
    }
}

/// Carrying one freshly scanned block's results over to the accumulated
/// result list preserves every per-result property of a region scan.
#[verifier::rlimit(60)]
proof fn lemma_block_results_props(
    pres: Seq<ScanResult>,
    found: Seq<ScanResult>,
    block: Seq<u8>,
    pat: Seq<u8>,
    cap: int,
    cur: u64,
    rstart: u64,
    rend: u64,
    perms: Seq<MemoryRegionPerms>,
    read_size: Option<usize>,
    vt: ValueType,
)
    requires
        pat.len() >= 1,
        cap == capture_of(read_size, pat.len() as int),
        rstart <= cur,
        cur + block.len() <= rend,
        block.len() >= pat.len(),
        ({
            let mp = match_positions(block, pat);
            found.len() == mp.len() && (forall|j: int|
                0 <= j < mp.len() ==> {
                    let res = #[trigger] found[j];
                    &&& res.address == cur + mp[j]
                    &&& res.value_type == vt
                    &&& res.perms@ == perms
                    &&& res.value@ == block.subrange(
                        mp[j],
                        if mp[j] + cap <= block.len() {
                            mp[j] + cap
                        } else {
                            block.len() as int
                        },
                    )
                })
        }),
        forall|j: int|
            0 <= j < pres.len() ==> {
                let res = #[trigger] pres[j];
                &&& rstart <= res.address
                &&& res.address + pat.len() <= rend
                &&& res.perms@ == perms
                &&& capture_shape(res, pat, read_size, vt)
            },
        forall|j: int| 0 <= j < pres.len() ==> (#[trigger] pres[j]).address < cur,
        forall|j: int|
            0 <= j && j + 1 < pres.len() ==> (#[trigger] pres[j]).address < pres[j + 1].address,
    ensures
        forall|j: int|
            0 <= j < (pres + found).len() ==> {
                let res = #[trigger] (pres + found)[j];
                &&& rstart <= res.address
                &&& res.address + pat.len() <= rend
                &&& res.perms@ == perms
                &&& capture_shape(res, pat, read_size, vt)
            },
        forall|j: int|
            0 <= j < (pres + found).len() ==> (#[trigger] (pres + found)[j]).address + pat.len()
                <= cur + block.len(),
        forall|j: int|
            0 <= j && j + 1 < (pres + found).len() ==> (#[trigger] (pres + found)[j]).address < (
            pres + found)[j + 1].address,
{
    reveal(capture_shape);
    lemma_match_positions_sound(block, pat);
    let mp = match_positions(block, pat);
    let all = pres + found;
    assert forall|j: int| 0 <= j < all.len() implies {
        let res = #[trigger] all[j];
        &&& rstart <= res.address
        &&& res.address + pat.len() <= rend
        &&& res.perms@ == perms
        &&& capture_shape(res, pat, read_size, vt)
        &&& res.address + pat.len() <= cur + block.len()
    } by {
        if j < pres.len() {
            assert(all[j] == pres[j]);
            assert(pres[j].address < cur);
        } else {
            let a = j - pres.len();
            assert(all[j] == found[a]);
            let res = found[a];
            assert(is_match_at(block, pat, mp[a]));
            assert(res.address == cur + mp[a]);
            let iend = if mp[a] + cap <= block.len() {
                mp[a] + cap
            } else {
                block.len() as int
            };
            assert(res.value@ == block.subrange(mp[a], iend));
            assert(res.value@.len() == iend - mp[a]);
            if cap >= pat.len() {
                assert(iend >= mp[a] + pat.len());
                assert(res.value@.subrange(0, pat.len() as int) =~= block.subrange(
                    mp[a],
                    mp[a] + pat.len(),
                ));
                assert(block.subrange(mp[a], mp[a] + pat.len()) == pat);
            }
        }
    }
    assert forall|j: int| 0 <= j && j + 1 < all.len() implies (#[trigger] all[j]).address < all[j
        + 1].address by {
        if j + 1 < pres.len() {
            assert(all[j] == pres[j] && all[j + 1] == pres[j + 1]);
        } else if j + 1 == pres.len() {
            assert(all[j] == pres[j]);
            assert(all[j + 1] == found[0]);
            assert(is_match_at(block, pat, mp[0]));
            assert(pres[j].address < cur);
        } else {
            let a = j - pres.len();
            assert(all[j] == found[a] && all[j + 1] == found[a + 1]);
            assert(mp[a] + pat.len() <= mp[a + 1]);
        }
    }
}


/// Appending one region's results to the accumulated list keeps the list
/// ascending when the cached regions are ascending and non-overlapping.
#[verifier::rlimit(100)]
proof fn lemma_region_results_ascending(
    pres: Seq<ScanResult>,
    found: Seq<ScanResult>,
    all: Seq<ScanResult>,
    regions: Seq<MemoryRegion>,
    ri: int,
    need: int,
)
    requires
        regions_ascending(regions),
        0 <= ri < regions.len(),
        need >= 1,
        all == pres + found,
        forall|j: int|
            0 <= j < pres.len() ==> (#[trigger] pres[j]).address + need <= next_region_floor(
                regions,
                ri,
            ),
        forall|j: int|
            0 <= j && j + 1 < pres.len() ==> (#[trigger] pres[j]).address < pres[j + 1].address,
        forall|j: int|
            0 <= j < found.len() ==> regions[ri].start <= (#[trigger] found[j]).address && found[
                j
            ].address + need <= regions[ri].end,
        forall|j: int|
            0 <= j && j + 1 < found.len() ==> (#[trigger] found[j]).address < found[j + 1].address,
    ensures
        forall|j: int|
            0 <= j < all.len() ==> (#[trigger] all[j]).address + need <= next_region_floor(
                regions,
                ri + 1,
            ),
        forall|j: int|
            0 <= j && j + 1 < all.len() ==> (#[trigger] all[j]).address < all[j + 1].address,
{
    let rcur = regions[ri];
    assert(rcur.start < rcur.end);
    if ri + 1 < regions.len() {
        assert(rcur.end <= regions[ri + 1].start);
    }
    assert forall|j: int| 0 <= j < all.len() implies (#[trigger] all[j]).address + need
        <= next_region_floor(regions, ri + 1) by {
        if j >= pres.len() {
            assert(all[j] == found[j - pres.len()]);
        } else {
            assert(all[j] == pres[j]);
            assert(pres[j].address + need <= rcur.start);
        }
    }
    assert forall|j: int| 0 <= j && j + 1 < all.len() implies (#[trigger] all[j]).address < all[j
        + 1].address by {
        if j + 1 < pres.len() {
            assert(all[j] == pres[j]);
            assert(all[j + 1] == pres[j + 1]);
        } else if j < pres.len() {
            assert(all[j] == pres[j]);
            assert(all[j + 1] == found[0]);
            assert(pres[j].address + need <= rcur.start);
            assert(rcur.start <= found[0].address);
        } else {
            assert(all[j] == found[j - pres.len()]);
            assert(all[j + 1] == found[j + 1 - pres.len()]);
        }
    }
}


impl Scan {
    /// Read a user-entered address: empty clears the bound, otherwise hex
    /// with any number of leading `0x` prefixes stripped.
    fn parse_address_hex(addr_hex: &str) -> (r: Result<Option<u64>, ScanError>)
        ensures
            match spec_parse_address(addr_hex@) {
                Some(v) => r == Ok::<Option<u64>, ScanError>(v),
                None => r == Err::<Option<u64>, ScanError>(ScanError::InvalidAddress),
            },
    {
        let n = addr_hex.unicode_len();
        if n == 0 {
            return Ok(None);
        }
        let from0 = crate::hexfmt::strip_hex_prefix_index(addr_hex);
        let from: usize = if from0 < n && addr_hex.get_char(from0) == '+' {
            from0 + 1
        } else {
            from0
        };
        proof {
            let d0 = crate::hexfmt::strip_hex_prefix(addr_hex@);
            if from > from0 {
                assert(d0[0] == addr_hex@[from0 as int]);
                assert(addr_hex@.skip(from as int) =~= d0.drop_first());
            } else {
                if d0.len() >= 1 {
                    assert(d0[0] == addr_hex@[from0 as int]);
                }
            }
        }
        match crate::hexfmt::parse_hex_u64(addr_hex, from) {
            Some(v) => Ok(Some(v)),
            None => Err(ScanError::InvalidAddress),
        }
    }

    /// Accept a new start address (empty clears it); reject it when it
    /// would exceed a set end address, leaving the state untouched; on
    /// acceptance re-derive the region list from the maps text.
    pub fn set_start_address(&mut self, addr_hex: &str, maps: &[u8]) -> (r: Result<(), ScanError>)
        ensures
            final(self).pid == old(self).pid,
            final(self).value == old(self).value,
            final(self).value_type == old(self).value_type,
            final(self).read_size == old(self).read_size,
            final(self).end_address == old(self).end_address,
            final(self).memory_permissions == old(self).memory_permissions,
            final(self).results == old(self).results,
            final(self).watchlist == old(self).watchlist,
            old(self).wf() ==> final(self).wf(),
            match spec_parse_address(addr_hex@) {
                None => r == Err::<(), ScanError>(ScanError::InvalidAddress) && final(self).start_address == old(self).start_address && final(self).memory_regions == old(self).memory_regions,
                Some(pa) => {
                    if pa matches Some(a) && old(self).end_address matches Some(e) && a > e {
                        r == Err::<(), ScanError>(ScanError::AddressMismatch) && final(self).start_address == old(self).start_address && final(self).memory_regions
                            == old(self).memory_regions
                    } else {
                        &&& final(self).start_address == pa
                        &&& (r is Ok <==> spec_regions(
                            split_lines(maps@),
                            bound_lo(pa),
                            bound_hi(old(self).end_address),
                            old(self).memory_permissions@,
                        ) is Some)
                        &&& match r {
                            Ok(()) => final(self).regions_ok() && final(self).regions_from_maps(
                                maps@,
                            ),
                            Err(e) => e == ScanError::Memory(MemoryError::MemRead(0)) && final(self).memory_regions == old(self).memory_regions,
                        }
                    }
                },
            },
    {
        let parsed_addr = match Self::parse_address_hex(addr_hex) {
            Ok(v) => v,
            Err(e) => {
                return Err(e);
            },
        };
        if let (Some(start), Some(end)) = (parsed_addr, self.end_address) {
            if start > end {
                return Err(ScanError::AddressMismatch);
            }
        }
        self.start_address = parsed_addr;
        self.update_memory_regions(maps)
    }

    /// Accept a new end address (empty clears it); reject it when it would
    /// undercut a set start address, leaving the state untouched; on
    /// acceptance re-derive the region list from the maps text.
    pub fn set_end_address(&mut self, addr_hex: &str, maps: &[u8]) -> (r: Result<(), ScanError>)
        ensures
            final(self).pid == old(self).pid,
            final(self).value == old(self).value,
            final(self).value_type == old(self).value_type,
            final(self).read_size == old(self).read_size,
            final(self).start_address == old(self).start_address,
            final(self).memory_permissions == old(self).memory_permissions,
            final(self).results == old(self).results,
            final(self).watchlist == old(self).watchlist,
            old(self).wf() ==> final(self).wf(),
            match spec_parse_address(addr_hex@) {
                None => r == Err::<(), ScanError>(ScanError::InvalidAddress) && final(self).end_address == old(self).end_address && final(self).memory_regions == old(self).memory_regions,
                Some(pa) => {
                    if pa matches Some(e) && old(self).start_address matches Some(st) && e < st {
                        r == Err::<(), ScanError>(ScanError::AddressMismatch) && final(self).end_address == old(self).end_address && final(self).memory_regions
                            == old(self).memory_regions
                    } else {
                        &&& final(self).end_address == pa
                        &&& (r is Ok <==> spec_regions(
                            split_lines(maps@),
                            bound_lo(old(self).start_address),
                            bound_hi(pa),
                            old(self).memory_permissions@,
                        ) is Some)
                        &&& match r {
                            Ok(()) => final(self).regions_ok() && final(self).regions_from_maps(
                                maps@,
                            ),
                            Err(e) => e == ScanError::Memory(MemoryError::MemRead(0)) && final(self).memory_regions == old(self).memory_regions,
                        }
                    }
                },
            },
    {
        let parsed_addr = match Self::parse_address_hex(addr_hex) {
            Ok(v) => v,
            Err(e) => {
                return Err(e);
            },
        };
        if let (Some(start), Some(end)) = (self.start_address, parsed_addr) {
            if end < start {
                return Err(ScanError::AddressMismatch);
            }
        }
        self.end_address = parsed_addr;
        self.update_memory_regions(maps)
    }

    /// The guard every scan operation runs first: the pattern must be
    /// non-empty and must render under the current interpretation.
    fn check_value(&self) -> (r: Result<(), ScanError>)
        ensures
            match pattern_status(self.value_type, self.value@) {
                Some(e) => r == Err::<(), ScanError>(e),
                None => r is Ok,
            },
    {
        if self.value.len() == 0 {
            return Err(ScanError::EmptyValue);
        }
        match self.value_type.get_value_string(self.value.as_slice()) {
            Ok(_) => Ok(()),
            Err(_) => Err(ScanError::TypeMismatch),
        }
    }

    /// Scan one region block by block for the pattern. Consecutive blocks
    /// overlap by one byte less than the pattern's length, so a needle
    /// straddling a block boundary is still seen. A block that fails to
    /// read is skipped (the region may have gone away); losing access to
    /// the process aborts the scan.
    #[verifier::rlimit(100)]
    fn scan_region(&self, region: &MemoryRegion) -> (r: Result<Vec<ScanResult>, MemoryError>)
        requires
            self.wf(),
            self.value@.len() >= 1,
        ensures
            r matches Ok(v) ==> forall|j: int|
                0 <= j < v@.len() ==> {
                    let res = #[trigger] v@[j];
                    &&& region.start <= res.address
                    &&& res.address + self.value@.len() <= region.end
                    &&& res.perms@ == region.perms@
                    &&& capture_shape(res, self.value@, self.read_size, self.value_type)
                },
            r matches Ok(v) ==> forall|j: int|
                0 <= j && j + 1 < v@.len() ==> (#[trigger] v@[j]).address < v@[j + 1].address,
            r matches Err(e) ==> e matches MemoryError::ProcessAttach(_),
    {
        let mut results: Vec<ScanResult> = Vec::new();
        let size: usize = match self.read_size {
            Some(s) => s,
            None => self.value.len(),
        };
        let need = self.value.len();
        let mut cur: u64 = region.start;
        while cur < region.end
            invariant
                self.wf(),
                self.value@.len() >= 1,
                size as int == capture_of(self.read_size, self.value@.len() as int),
                size >= 1,
                need == self.value@.len(),
                region.start <= cur,
                forall|j: int|
                    0 <= j < results@.len() ==> {
                        let res = #[trigger] results@[j];
                        &&& region.start <= res.address
                        &&& res.address + self.value@.len() <= region.end
                        &&& res.perms@ == region.perms@
                        &&& capture_shape(res, self.value@, self.read_size, self.value_type)
                        &&& res.address < cur
                        &&& (j + 1 < results@.len() ==> res.address < results@[j + 1].address)
                    },
            decreases region.end - cur,
        {
            let avail: u64 = region.end - cur;
            let to_read: usize = if avail < 0x10000 {
                avail as usize
            } else {
                0x10000
            };
            if to_read < size || to_read < need {
                break ;
            }
            match read_memory_address(self.pid, cur, to_read) {
                Err(e) => {
                    match e {
                        MemoryError::ProcessAttach(_) => {
                            return Err(e);
                        },
                        _ => {},
                    }
                },
                Ok(val) => {
                    let mut found = scan_block(
                        &val,
                        &self.value,
                        size,
                        cur,
                        self.value_type,
                        &region.perms,
                    );
                    let ghost fsnap = found@;
                    let ghost presnap = results@;
                    results.append(&mut found);
                    proof {
                        lemma_block_results_props(
                            presnap,
                            fsnap,
                            val@,
                            self.value@,
                            size as int,
                            cur,
                            region.start,
                            region.end,
                            region.perms@,
                            self.read_size,
                            self.value_type,
                        );
                        assert(results@ == presnap + fsnap);
                    }
                },
            }
            cur = cur + ((to_read - (need - 1)) as u64);
        }
        Ok(results)
    }

    /// Re-read the captured bytes of every entry in place; the entries
    /// adopt the engine's interpretation only when asked to. An entry whose
    /// read fails benignly keeps its previous bytes; losing access to the
    /// process aborts. An empty list always succeeds: nothing is read.
    fn refresh_entries(
        entries: &mut Vec<ScanResult>,
        pid: u32,
        read_size: Option<usize>,
        vt: ValueType,
        adopt_type: bool,
    ) -> (r: Result<(), MemoryError>)
        ensures
            adopt_type ==> refreshed_list(old(entries)@, final(entries)@, vt),
            !adopt_type ==> revalued_list(old(entries)@, final(entries)@),
            old(entries)@.len() == 0 ==> r is Ok,
            r matches Err(e) ==> e matches MemoryError::ProcessAttach(_),
    {
        let n = entries.len();
        let mut i: usize = 0;
        while i < n
            invariant
                i <= n,
                n == entries@.len(),
                entries@.len() == old(entries)@.len(),
                adopt_type ==> forall|k: int|
                    0 <= k < i ==> refreshed_entry(old(entries)@[k], #[trigger] entries@[k], vt),
                !adopt_type ==> forall|k: int|
                    0 <= k < i ==> revalued_entry(old(entries)@[k], #[trigger] entries@[k]),
                forall|k: int| i <= k < n ==> #[trigger] entries@[k] == old(entries)@[k],
            decreases n - i,
        {
            let sz: usize = match read_size {
                Some(s) => s,
                None => entries[i].value.len(),
            };
            let addr = entries[i].address;
            match read_memory_address(pid, addr, sz) {
                Err(e) => {
                    match e {
                        MemoryError::ProcessAttach(_) => {
                            return Err(e);
                        },
                        _ => {},
                    }
                },
                Ok(val) => {
                    let entry = &mut entries[i];
                    if adopt_type {
                        entry.value_type = vt;
                    }
                    entry.value = val;
                },
            }
            i = i + 1;
        }
        Ok(())
    }

    /// Refresh the live values of every watchlist entry; the entries adopt
    /// the engine's current interpretation.
    fn refresh_watchlist(&mut self) -> (r: Result<(), ScanError>)
        ensures
            final(self).same_config(*old(self)),
            final(self).results == old(self).results,
            refreshed_list(old(self).watchlist@, final(self).watchlist@, old(self).value_type),
            match pattern_status(old(self).value_type, old(self).value@) {
                Some(e) => r == Err::<(), ScanError>(e) && final(self).watchlist == old(self).watchlist,
                None => {
                    &&& (r is Ok || (r matches Err(e2) && e2 matches ScanError::Memory(m) && m
                        matches MemoryError::ProcessAttach(_)))
                    &&& (old(self).watchlist@.len() == 0 ==> r is Ok)
                },
            },
    {
        match self.check_value() {
            Ok(()) => {},
            Err(e) => {
                return Err(e);
            },
        }
        let pid = self.pid;
        let read_size = self.read_size;
        let vt = self.value_type;
        match Self::refresh_entries(&mut self.watchlist, pid, read_size, vt, true) {
            Ok(()) => Ok(()),
            Err(e) => Err(ScanError::Memory(e)),
        }
    }

    /// Run a full scan: search every cached region for the pattern, make
    /// the matches the new result set, and refresh the watchlist.
    #[verifier::rlimit(100)]
    pub fn init(&mut self) -> (r: Result<&Vec<ScanResult>, ScanError>)
        requires
            old(self).wf(),
        ensures
            final(self).same_config(*old(self)),
            final(self).wf(),
            refreshed_list(old(self).watchlist@, final(self).watchlist@, old(self).value_type),
            match pattern_status(old(self).value_type, old(self).value@) {
                Some(e) => r matches Err(e2) && e2 == e && final(self).results == old(self).results && final(self).watchlist == old(self).watchlist,
                None => {
                    &&& (r is Ok || (r matches Err(e2) && e2 matches ScanError::Memory(m) && m
                        matches MemoryError::ProcessAttach(_)))
                    &&& (old(self).memory_regions@.len() == 0 && old(self).watchlist@.len() == 0
                        ==> r is Ok)
                    &&& (r is Ok && regions_ascending(old(self).memory_regions@) ==> forall|
                        j: int,
                    |
                        0 <= j && j + 1 < final(self).results@.len() ==> (#[trigger] final(self).results@[j]).address < final(self).results@[j + 1].address)
                    &&& (r matches Ok(v) ==> v@ == final(self).results@ && forall|j: int|
                        0 <= j < final(self).results@.len() ==> {
                            let res = #[trigger] final(self).results@[j];
                            &&& result_in_regions(
                                res,
                                old(self).memory_regions@,
                                old(self).value@.len() as int,
                            )
                            &&& capture_shape(
                                res,
                                old(self).value@,
                                old(self).read_size,
                                old(self).value_type,
                            )
                        })
                },
            },
    {
        match self.check_value() {
            Ok(()) => {},
            Err(e) => {
                return Err(e);
            },
        }
        let mut results: Vec<ScanResult> = Vec::new();
        let nregions = self.memory_regions.len();
        let mut ri: usize = 0;
        while ri < nregions
            invariant
                *self == *old(self),
                pattern_status(old(self).value_type, old(self).value@) is None,
                self.wf(),
                self.value@.len() >= 1,
                ri <= nregions,
                nregions == self.memory_regions@.len(),
                forall|j: int|
                    0 <= j < results@.len() ==> {
                        let res = #[trigger] results@[j];
                        &&& result_in_regions(
                            res,
                            self.memory_regions@,
                            self.value@.len() as int,
                        )
                        &&& capture_shape(res, self.value@, self.read_size, self.value_type)
                    },
                regions_ascending(self.memory_regions@) ==> forall|j: int|
                    0 <= j < results@.len() ==> (#[trigger] results@[j]).address
                        + self.value@.len() <= next_region_floor(self.memory_regions@, ri as int),
                regions_ascending(self.memory_regions@) ==> forall|j: int|
                    0 <= j && j + 1 < results@.len() ==> (#[trigger] results@[j]).address
                        < results@[j + 1].address,
            decreases nregions - ri,
        {
            let ghost presnap = results@;
            let mut found = match self.scan_region(&self.memory_regions[ri]) {
                Ok(v) => v,
                Err(e) => {
                    return Err(ScanError::Memory(e));
                },
            };
            let ghost fsnap = found@;
            results.append(&mut found);
            proof {
                assert forall|j: int| 0 <= j < results@.len() implies {
                    let res = #[trigger] results@[j];
                    &&& result_in_regions(res, self.memory_regions@, self.value@.len() as int)
                    &&& capture_shape(res, self.value@, self.read_size, self.value_type)
                } by {
                    if j >= presnap.len() {
                        assert(results@[j] == fsnap[j - presnap.len()]);
                        let res = fsnap[j - presnap.len()];
                        assert(self.memory_regions@[ri as int].start <= res.address
                            && res.address + self.value@.len()
                            <= self.memory_regions@[ri as int].end && res.perms@
                            == self.memory_regions@[ri as int].perms@);
                    } else {
                        assert(results@[j] == presnap[j]);
                    }
                }
                if regions_ascending(self.memory_regions@) {
                    lemma_region_results_ascending(
                        presnap,
                        fsnap,
                        results@,
                        self.memory_regions@,
                        ri as int,
                        self.value@.len() as int,
                    );
                }
            }
            ri = ri + 1;
        }
        self.results = results;
        match self.refresh_watchlist() {
            Ok(()) => {},
            Err(e) => {
                return Err(e);
            },
        }
        Ok(&self.results)
    }

    /// Re-read the captured bytes of every result and every watchlist
    /// entry. Every result keeps its length, address, permissions and
    /// stored interpretation; only its captured bytes change. The
    /// watchlist entries adopt the engine's current interpretation.
    pub fn refresh(&mut self) -> (r: Result<&Vec<ScanResult>, ScanError>)
        ensures
            final(self).same_config(*old(self)),
            revalued_list(old(self).results@, final(self).results@),
            refreshed_list(old(self).watchlist@, final(self).watchlist@, old(self).value_type),
            match pattern_status(old(self).value_type, old(self).value@) {
                Some(e) => r matches Err(e2) && e2 == e && final(self).results == old(self).results && final(self).watchlist == old(self).watchlist,
                None => {
                    &&& (r is Ok || (r matches Err(e2) && e2 matches ScanError::Memory(m) && m
                        matches MemoryError::ProcessAttach(_)))
                    &&& (old(self).results@.len() == 0 && old(self).watchlist@.len() == 0 ==> r
                        is Ok)
                    &&& (r matches Ok(v) ==> v@ == final(self).results@)
                },
            },
    {
        match self.check_value() {
            Ok(()) => {},
            Err(e) => {
                return Err(e);
            },
        }
        let pid = self.pid;
        let read_size = self.read_size;
        let vt = self.value_type;
        match Self::refresh_entries(&mut self.results, pid, read_size, vt, false) {
            Ok(()) => {},
            Err(e) => {
                return Err(ScanError::Memory(e));
            },
        }
        match self.refresh_watchlist() {
            Ok(()) => {},
            Err(e) => {
                return Err(e);
            },
        }
        Ok(&self.results)
    }

    /// Narrow the result set: re-read each result's address and keep only
    /// the results whose fresh bytes still start with the pattern. The
    /// surviving addresses are a subset of the previous ones.
    pub fn next_scan(&mut self) -> (r: Result<&Vec<ScanResult>, ScanError>)
        ensures
            final(self).same_config(*old(self)),
            refreshed_list(old(self).watchlist@, final(self).watchlist@, old(self).value_type),
            match pattern_status(old(self).value_type, old(self).value@) {
                Some(e) => r matches Err(e2) && e2 == e && final(self).results == old(self).results && final(self).watchlist == old(self).watchlist,
                None => {
                    &&& (r is Ok || (r matches Err(e2) && e2 matches ScanError::Memory(m) && m
                        matches MemoryError::ProcessAttach(_)))
                    &&& (old(self).results@.len() == 0 && old(self).watchlist@.len() == 0 ==> r
                        is Ok)
                    &&& (r matches Ok(v) ==> v@ == final(self).results@ && (exists|picks: Seq<
                        int,
                    >| narrowed_from(old(self).results@, final(self).results@, picks)) && forall|
                        j: int,
                    |
                        0 <= j < final(self).results@.len() ==> {
                            let res = #[trigger] final(self).results@[j];
                            &&& res.value_type == old(self).value_type
                            &&& res.value@.len() >= old(self).value@.len()
                            &&& res.value@.subrange(0, old(self).value@.len() as int) == old(self).value@
                        })
                },
            },
    {
        match self.check_value() {
            Ok(()) => {},
            Err(e) => {
                return Err(e);
            },
        }
        let mut new_results: Vec<ScanResult> = Vec::new();
        let ghost mut picks: Seq<int> = Seq::empty();
        let n = self.results.len();
        let mut i: usize = 0;
        while i < n
            invariant
                *self == *old(self),
                pattern_status(old(self).value_type, old(self).value@) is None,
                i <= n,
                n == self.results@.len(),
                self.value@.len() >= 1,
                narrowed_from(self.results@, new_results@, picks),
                forall|j: int| 0 <= j < picks.len() ==> #[trigger] picks[j] < i,
                forall|j: int|
                    0 <= j < new_results@.len() ==> {
                        let res = #[trigger] new_results@[j];
                        &&& res.value_type == self.value_type
                        &&& res.value@.len() >= self.value@.len()
                        &&& res.value@.subrange(0, self.value@.len() as int) == self.value@
                    },
            decreases n - i,
        {
            let sz: usize = match self.read_size {
                Some(s) => s,
                None => self.results[i].value.len(),
            };
            let addr = self.results[i].address;
            match read_memory_address(self.pid, addr, sz) {
                Err(e) => {
                    match e {
                        MemoryError::ProcessAttach(_) => {
                            return Err(ScanError::Memory(e));
                        },
                        _ => {},
                    }
                },
                Ok(val) => {
                    if val.len() >= self.value.len() && crate::search::is_match_at_exec(
                        &val,
                        &self.value,
                        0,
                    ) {
                        let res = ScanResult {
                            address: addr,
                            value_type: self.value_type,
                            perms: clone_perms(&self.results[i].perms),
                            value: val,
                        };
                        proof {
                            assert(res.perms@ == self.results@[i as int].perms@);
                            assert(res.value@.subrange(0, self.value@.len() as int)
                                == self.value@);
                        }
                        new_results.push(res);
                        proof {
                            picks = picks.push(i as int);
                        }
                    }
                },
            }
            i = i + 1;
        }
        let ghost picks_final = picks;
        self.results = new_results;
        proof {
            assert(narrowed_from(old(self).results@, self.results@, picks_final));
        }
        match self.refresh_watchlist() {
            Ok(()) => {},
            Err(e) => {
                return Err(e);
            },
        }
        Ok(&self.results)
    }

    /// Pin a result: a duplicate address is a no-op.
    pub fn add_to_watchlist(&mut self, result: ScanResult)
        ensures
            final(self).same_config(*old(self)),
            final(self).results == old(self).results,
            final(self).watchlist@ == add_watch(old(self).watchlist@, result),
    {
        proof {
            lemma_watch_index(self.watchlist@, result.address);
        }
        let n = self.watchlist.len();
        let mut i: usize = 0;
        while i < n
            invariant
                *self == *old(self),
                i <= n,
                n == self.watchlist@.len(),
                forall|k: int|
                    0 <= k < i ==> (#[trigger] self.watchlist@[k]).address != result.address,
            decreases n - i,
        {
            if self.watchlist[i].address == result.address {
                proof {
                    lemma_watch_index_found(self.watchlist@, result.address, i as int);
                }
                return ;
            }
            i = i + 1;
        }
        proof {
            lemma_watch_index(self.watchlist@, result.address);
            if watch_index(self.watchlist@, result.address) >= 0 {
                assert(false);
            }
        }
        self.watchlist.push(result);
    }

    /// Unpin an address: absent addresses are a no-op, otherwise the first
    /// entry with the address leaves the watchlist.
    pub fn remove_from_watchlist(&mut self, address: u64)
        ensures
            final(self).same_config(*old(self)),
            final(self).results == old(self).results,
            final(self).watchlist@ == remove_watch(old(self).watchlist@, address),
    {
        proof {
            lemma_watch_index(self.watchlist@, address);
        }
        let n = self.watchlist.len();
        let mut i: usize = 0;
        while i < n
            invariant
                *self == *old(self),
                i <= n,
                n == self.watchlist@.len(),
                forall|k: int| 0 <= k < i ==> (#[trigger] self.watchlist@[k]).address != address,
            decreases n - i,
        {
            if self.watchlist[i].address == address {
                proof {
                    lemma_watch_index_found(self.watchlist@, address, i as int);
                    lemma_watch_index(self.watchlist@, address);
                    assert(watch_index(self.watchlist@, address) == i);
                }
                self.watchlist.remove(i);
                return ;
            }
            i = i + 1;
        }
        proof {
            lemma_watch_index(self.watchlist@, address);
            if watch_index(self.watchlist@, address) >= 0 {
                assert(false);
            }
        }
    }

    /// Encode a value string under the current type and write it into the
    /// target at the given address.
    pub fn update_value(&mut self, address: u64, value_str: &str) -> (r: Result<(), ScanError>)
        ensures
            *final(self) == *old(self),
            match spec_encode_value(old(self).value_type, value_str@) {
                None => r == Err::<(), ScanError>(ScanError::InvalidValue),
                Some(b) => r is Ok || (r matches Err(e) && e matches ScanError::Memory(m) && (m
                    matches MemoryError::MemWrite(_) || m matches MemoryError::ProcessAttach(_))),
            },
    {
        let value = match self.value_type.parse_value(value_str) {
            Ok(v) => v,
            Err(e) => {
                return Err(e);
            },
        };
        match write_memory_address(self.pid, address, value.as_slice()) {
            Ok(()) => Ok(()),
            Err(e) => Err(ScanError::Memory(e)),
        }
    }
}

/// Read a user-entered address: `Some(None)` for the empty string,
/// `Some(Some(a))` for well-formed hex (any number of leading `0x`
/// stripped, one optional `+`), `None` when the text does not parse.
pub open spec fn spec_parse_address(s: Seq<char>) -> Option<Option<u64>> {
    if s.len() == 0 {
        Some(None)
    } else {
        let d0 = crate::hexfmt::strip_hex_prefix(s);
        let d = if d0.len() >= 1 && d0[0] == '+' {
            d0.drop_first()
        } else {
            d0
        };
        if d.len() >= 1 && crate::hexfmt::all_hex_digits(d) && crate::hexfmt::hex_val(d)
            <= u64::MAX {
            Some(Some(crate::hexfmt::hex_val(d) as u64))
        } else {
            None
        }
    }
}

} // verus!
