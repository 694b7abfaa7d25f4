//! Point-in-time snapshots of a process's readable memory.
//!
//! A snapshot holds, for every region that could be copied, the region's
//! metadata together with its contents reinterpreted as pointer-sized
//! words. All queries run against the snapshot alone; nothing here touches
//! the live process.

use vstd::prelude::*;

verus! {

/// Size in bytes of one pointer-sized word of the target process.
pub const WORD_SIZE: u64 = 8;

/// Identity of the file (if any) backing a mapped region.
#[derive(Clone, Debug)]
pub enum Backing {
    /// The region is not backed by a file.
    Anonymous,
    /// The region is backed by the file whose path is these raw bytes.
    File(Vec<u8>),
}

/// Permission flags of a mapped region.
#[derive(Clone, Copy, PartialEq, Eq, Structural, Debug)]
pub struct Perms {
    pub read: bool,
    pub write: bool,
    pub execute: bool,
}

/// One mapped segment of the target's address space.
#[derive(Clone, Debug)]
pub struct Region {
    /// First address of the region.
    pub start: u64,
    /// First address past the region's last word; `start <= end`.
    pub end: u64,
    /// Permission flags reported for the region.
    pub perms: Perms,
    /// Backing-file identity.
    pub backing: Backing,
}

/// The region's bounds are ordered and aligned to the word size.
pub open spec fn region_wf(r: Region) -> bool {
    &&& r.start <= r.end
    &&& r.start % WORD_SIZE == 0
    &&& r.end % WORD_SIZE == 0
}

/// A region together with the words captured from it.
#[derive(Clone, Debug)]
pub struct CapturedRegion {
    pub region: Region,
    pub words: Vec<u64>,
}

/// The captured words exactly tile the region: one word per `WORD_SIZE` bytes.
pub open spec fn captured_wf(c: CapturedRegion) -> bool {
    &&& region_wf(c.region)
    &&& c.words@.len() == (c.region.end - c.region.start) / (WORD_SIZE as int)
}

/// The absolute address of word `i` of a captured region.
pub open spec fn word_addr(c: CapturedRegion, i: int) -> int {
    c.region.start + i * (WORD_SIZE as int)
}

/// `addr` is the address of one of the words captured for `c`.
pub open spec fn covers_word(c: CapturedRegion, addr: u64) -> bool {
    &&& c.region.start <= addr < c.region.end
    &&& (addr - c.region.start) % (WORD_SIZE as int) == 0
}

/// The word stored at `addr` within `c`.
pub open spec fn word_at(c: CapturedRegion, addr: u64) -> u64
    recommends
        captured_wf(c),
        covers_word(c, addr),
{
    c.words@[(addr - c.region.start) / (WORD_SIZE as int)]
}

/// Some captured word of `regions` equals `value`.
pub open spec fn some_word_equals(regions: Seq<CapturedRegion>, value: u64) -> bool {
    exists|i: int, j: int|
        0 <= i < regions.len() && 0 <= j < regions[i].words@.len() && regions[i].words@[j]
            == value
}

/// Why a region was rejected when building a snapshot.
#[derive(Clone, Copy, PartialEq, Eq, Structural, Debug)]
pub enum RegionError {
    /// The region's start lies above its end.
    InvertedBounds,
    /// A bound is not aligned to the word size.
    Misaligned,
    /// The captured words do not tile the region exactly.
    WordCountMismatch,
}

/// The outcome of validating a region offered to a snapshot, given the
/// number of words captured for it.
pub open spec fn validate_region(region: Region, word_len: int) -> Result<(), RegionError> {
    if region.start > region.end {
        Err(RegionError::InvertedBounds)
    } else if !(region.start % WORD_SIZE == 0 && region.end % WORD_SIZE == 0) {
        Err(RegionError::Misaligned)
    } else if word_len != (region.end - region.start) / (WORD_SIZE as int) {
        Err(RegionError::WordCountMismatch)
    } else {
        Ok(())
    }
}

/// An immutable, best-effort copy of a process's readable mapped memory,
/// together with the path of the process's own executable.
pub struct Snapshot {
    /// The captured regions, in the order they were offered.
    pub regions: Vec<CapturedRegion>,
    /// Path of the process's executable, as raw bytes.
    pub exe_path: Vec<u8>,
}

impl Snapshot {
    /// Every captured region is well formed.
    pub open spec fn wf(self) -> bool {
        forall|i: int|
            0 <= i < self.regions@.len() ==> captured_wf(#[trigger] self.regions@[i])
    }

    /// An empty snapshot for the process whose executable is `exe_path`.
    pub fn new(exe_path: Vec<u8>) -> (s: Snapshot)
        ensures
            s.wf(),
            s.regions@.len() == 0,
            s.exe_path@ == exe_path@,
    {
        Snapshot { regions: Vec::new(), exe_path }
    }

    /// Appends one captured region, rejecting any region whose bounds are
    /// inverted or misaligned, or whose words do not tile it exactly; a
    /// rejected region leaves the snapshot unchanged.
    pub fn push_region(&mut self, region: Region, words: Vec<u64>) -> (r: Result<
        (),
        RegionError,
    >)
        requires
            old(self).wf(),
        ensures
            final(self).wf(),
            r == validate_region(region, words@.len() as int),
            final(self).exe_path@ == old(self).exe_path@,
            match r {
                Ok(_) => final(self).regions@ == old(self).regions@.push(
                    CapturedRegion { region, words },
                ),
                Err(_) => final(self).regions@ == old(self).regions@,
            },
    {
        if region.start > region.end {
            return Err(RegionError::InvertedBounds);
        }
        if region.start % WORD_SIZE != 0 || region.end % WORD_SIZE != 0 {
            return Err(RegionError::Misaligned);
        }
        let span = region.end - region.start;
        let expected = span / WORD_SIZE;
        if words.len() as u64 != expected {
            return Err(RegionError::WordCountMismatch);
        }
        self.regions.push(CapturedRegion { region, words });
        Ok(())
    }
}

/// `addr` lies within `r`'s bounds, inclusive on both ends.
pub open spec fn region_covers(r: Region, addr: u64) -> bool {
    r.start <= addr <= r.end
}

/// `r` is backed by the file at `exe`.
pub open spec fn backed_by(r: Region, exe: Seq<u8>) -> bool {
    r.backing matches Backing::File(p) && p@ == exe
}

/// `addr` lies (inclusively) within some captured region backed by the
/// process's own executable.
pub open spec fn in_main_image(regions: Seq<CapturedRegion>, exe: Seq<u8>, addr: u64) -> bool {
    exists|i: int|
        0 <= i < regions.len() && backed_by(#[trigger] regions[i].region, exe) && region_covers(
            regions[i].region,
            addr,
        )
}

/// Index of the first region at or after `k` that covers `addr`.
pub open spec fn first_covering_from(regions: Seq<CapturedRegion>, addr: u64, k: int) -> Option<
    int,
>
    decreases regions.len() - k,
{
    if k < 0 || k >= regions.len() {
        None
    } else if region_covers(regions[k].region, addr) {
        Some(k)
    } else {
        first_covering_from(regions, addr, k + 1)
    }
}

/// Index of the first region that covers `addr`, if any.
pub open spec fn first_covering(regions: Seq<CapturedRegion>, addr: u64) -> Option<int> {
    first_covering_from(regions, addr, 0)
}

/// The first covering index is a covering index, and nothing before it is.
pub proof fn lemma_first_covering(regions: Seq<CapturedRegion>, addr: u64, k: int)
    requires
        0 <= k <= regions.len(),
    ensures
        match first_covering_from(regions, addr, k) {
            Some(i) => k <= i < regions.len() && region_covers(regions[i].region, addr)
                && forall|j: int|
                k <= j < i ==> !region_covers(#[trigger] regions[j].region, addr),
            None => forall|j: int|
                k <= j < regions.len() ==> !region_covers(#[trigger] regions[j].region, addr),
        },
    decreases regions.len() - k,
{
    if k < regions.len() && !region_covers(regions[k].region, addr) {
        lemma_first_covering(regions, addr, k + 1);
    }
}

/// Index of the first region at or after `k` that holds a word at `addr`.
pub open spec fn first_word_covering_from(
    regions: Seq<CapturedRegion>,
    addr: u64,
    k: int,
) -> Option<int>
    decreases regions.len() - k,
{
    if k < 0 || k >= regions.len() {
        None
    } else if covers_word(regions[k], addr) {
        Some(k)
    } else {
        first_word_covering_from(regions, addr, k + 1)
    }
}

/// The word a snapshot stores at `addr`: the word of the first captured
/// region holding one at that address, if any does.
pub open spec fn stored_word(regions: Seq<CapturedRegion>, addr: u64) -> Option<u64> {
    match first_word_covering_from(regions, addr, 0) {
        None => None,
        Some(i) => Some(word_at(regions[i], addr)),
    }
}

impl Snapshot {
    /// Index of the first captured region containing `addr` (bounds
    /// inclusive on both ends), or `None` when no captured region does.
    pub fn region_containing(&self, addr: u64) -> (r: Option<usize>)
        ensures
            match r {
                Some(i) => first_covering(self.regions@, addr) == Some(i as int),
                None => first_covering(self.regions@, addr) is None,
            },
    {
        let n = self.regions.len();
        let mut k: usize = 0;
        while k < n
            invariant
                n == self.regions@.len(),
                0 <= k <= n,
                first_covering(self.regions@, addr) == first_covering_from(
                    self.regions@,
                    addr,
                    k as int,
                ),
            decreases n - k,
        {
            if self.regions[k].region.start <= addr && addr <= self.regions[k].region.end {
                return Some(k);
            }
            k = k + 1;
        }
        None
    }

    /// The pointer-sized value the snapshot captured at `addr`, or `None`
    /// when no captured region holds a word at that address.
    pub fn value_at(&self, addr: u64) -> (r: Option<u64>)
        requires
            self.wf(),
        ensures
            r == stored_word(self.regions@, addr),
    {
        let n = self.regions.len();
        let mut k: usize = 0;
        while k < n
            invariant
                self.wf(),
                n == self.regions@.len(),
                0 <= k <= n,
                first_word_covering_from(self.regions@, addr, 0) == first_word_covering_from(
                    self.regions@,
                    addr,
                    k as int,
                ),
            decreases n - k,
        {
            let start = self.regions[k].region.start;
            let end = self.regions[k].region.end;
            if start <= addr && addr < end && (addr - start) % WORD_SIZE == 0 {
                let i: u64 = (addr - start) / WORD_SIZE;
                proof {
                    lemma_word_index_in_range(self.regions@[k as int], addr);
                }
                let ws_len: usize = self.regions[k].words.len();
                assert(i < ws_len);
                return Some(self.regions[k].words[i as usize]);
            }
            k = k + 1;
        }
        None
    }

    /// `addr` lies (inclusively) within a captured region backed by the
    /// process's own executable image.
    pub fn is_in_main_image(&self, addr: u64) -> (r: bool)
        ensures
            r == in_main_image(self.regions@, self.exe_path@, addr),
    {
        let n = self.regions.len();
        let mut k: usize = 0;
        while k < n
            invariant
                n == self.regions@.len(),
                0 <= k <= n,
                forall|j: int|
                    0 <= j < k ==> !(backed_by(#[trigger] self.regions@[j].region, self.exe_path@)
                        && region_covers(self.regions@[j].region, addr)),
            decreases n - k,
        {
            let covered = self.regions[k].region.start <= addr && addr
                <= self.regions[k].region.end;
            let backed = match &self.regions[k].region.backing {
                Backing::File(p) => bytes_eq(p, &self.exe_path),
                Backing::Anonymous => false,
            };
            if covered && backed {
                return true;
            }
            k = k + 1;
        }
        false
    }
}

/// The word index of a covered address lies within the captured words.
pub proof fn lemma_word_index_in_range(c: CapturedRegion, addr: u64)
    requires
        captured_wf(c),
        covers_word(c, addr),
    ensures
        0 <= (addr - c.region.start) / (WORD_SIZE as int) < c.words@.len(),
        word_at(c, addr) == c.words@[(addr - c.region.start) / (WORD_SIZE as int)],
{
    let w = WORD_SIZE as int;
    let d = addr - c.region.start;
    let span = c.region.end - c.region.start;
    lemma_span_is_word_multiple(c.region.start, c.region.end);
    vstd::arithmetic::div_mod::lemma_fundamental_div_mod(d, w);
    assert(d / w < span / w) by (nonlinear_arith)
        requires
            d == w * (d / w),
            (span / w) * w == span,
            d < span,
            w > 0,
    ;
}

/// The two byte strings hold the same bytes.
fn bytes_eq(a: &Vec<u8>, b: &Vec<u8>) -> (r: bool)
    ensures
        r == (a@ == b@),
{
    if a.len() != b.len() {
        return false;
    }
    let n = a.len();
    let mut k: usize = 0;
    while k < n
        invariant
            n == a@.len(),
            n == b@.len(),
            0 <= k <= n,
            forall|j: int| 0 <= j < k ==> a@[j] == b@[j],
        decreases n - k,
    {
        if a[k] != b[k] {
            return false;
        }
        k = k + 1;
    }
    proof {
        assert(a@ =~= b@);
    }
    true
}

/// The addresses of the words equal to `value` among the first `n` words
/// of `c`, in ascending order.
pub open spec fn region_locations(c: CapturedRegion, value: u64, n: int) -> Seq<u64>
    decreases n,
{
    if n <= 0 {
        Seq::empty()
    } else {
        region_locations(c, value, n - 1) + if c.words@[n - 1] == value {
            seq![word_addr(c, n - 1) as u64]
        } else {
            Seq::empty()
        }
    }
}

/// The addresses of all words equal to `value` in the first `k` regions:
/// regions in snapshot order, words in ascending address order.
pub open spec fn snapshot_locations_prefix(
    regions: Seq<CapturedRegion>,
    value: u64,
    k: int,
) -> Seq<u64>
    decreases k,
{
    if k <= 0 {
        Seq::empty()
    } else {
        snapshot_locations_prefix(regions, value, k - 1) + region_locations(
            regions[k - 1],
            value,
            regions[k - 1].words@.len() as int,
        )
    }
}

/// The addresses of all captured words equal to `value`, in deterministic
/// order: regions in snapshot order, words in ascending address order.
pub open spec fn snapshot_locations(regions: Seq<CapturedRegion>, value: u64) -> Seq<u64> {
    snapshot_locations_prefix(regions, value, regions.len() as int)
}

/// Each captured word lies fully inside its region's bounds.
pub proof fn lemma_word_addr_in_region(c: CapturedRegion, j: int)
    requires
        captured_wf(c),
        0 <= j < c.words@.len(),
    ensures
        c.region.start <= word_addr(c, j),
        word_addr(c, j) + WORD_SIZE <= c.region.end,
{
    lemma_span_is_word_multiple(c.region.start, c.region.end);
    let w = WORD_SIZE as int;
    let len = c.words@.len() as int;
    assert(j * w <= (len - 1) * w) by (nonlinear_arith)
        requires
            j <= len - 1,
            w > 0,
    ;
    assert(len * w == c.region.end - c.region.start);
}

/// Membership in a concatenation is membership in either part.
pub proof fn lemma_concat_contains(x: Seq<u64>, y: Seq<u64>, a: u64)
    ensures
        (x + y).contains(a) <==> x.contains(a) || y.contains(a),
{
    if x.contains(a) {
        let i = choose|i: int| 0 <= i < x.len() && x[i] == a;
        assert((x + y)[i] == a);
    }
    if y.contains(a) {
        let i = choose|i: int| 0 <= i < y.len() && y[i] == a;
        assert((x + y)[x.len() + i] == a);
    }
    if (x + y).contains(a) {
        let i = choose|i: int| 0 <= i < (x + y).len() && (x + y)[i] == a;
        if i < x.len() {
            assert(x[i] == a);
        } else {
            assert(y[i - x.len()] == a);
        }
    }
}

/// An address is among the first `n` locations of `c` holding `value`
/// exactly when one of those words equals `value` at that address.
pub proof fn lemma_region_locations_membership(c: CapturedRegion, value: u64, n: int)
    requires
        captured_wf(c),
        0 <= n <= c.words@.len(),
    ensures
        forall|a: u64|
            #[trigger] region_locations(c, value, n).contains(a) <==> (exists|j: int|
                0 <= j < n && c.words@[j] == value && a == word_addr(c, j)),
    decreases n,
{
    if n > 0 {
        lemma_region_locations_membership(c, value, n - 1);
        let head = region_locations(c, value, n - 1);
        let tail: Seq<u64> = if c.words@[n - 1] == value {
            seq![word_addr(c, n - 1) as u64]
        } else {
            Seq::empty()
        };
        lemma_word_addr_in_region(c, n - 1);
        assert forall|a: u64| #[trigger]
            region_locations(c, value, n).contains(a) <==> (exists|j: int|
                0 <= j < n && c.words@[j] == value && a == word_addr(c, j)) by {
            lemma_concat_contains(head, tail, a);
            if exists|j: int| 0 <= j < n && c.words@[j] == value && a == word_addr(c, j) {
                let j = choose|j: int| 0 <= j < n && c.words@[j] == value && a == word_addr(c, j);
                if j == n - 1 {
                    assert(tail[0] == a);
                    assert(tail.contains(a));
                }
            }
            if tail.contains(a) {
                assert(c.words@[n - 1] == value && a == word_addr(c, n - 1));
            }
        }
    }
}

/// An address is among the locations of the first `k` regions holding
/// `value` exactly when one of their words equals `value` at that address.
pub proof fn lemma_snapshot_locations_membership(regions: Seq<CapturedRegion>, value: u64, k: int)
    requires
        forall|i: int| 0 <= i < regions.len() ==> captured_wf(#[trigger] regions[i]),
        0 <= k <= regions.len(),
    ensures
        forall|a: u64|
            #[trigger] snapshot_locations_prefix(regions, value, k).contains(a) <==> (exists|
                i: int,
                j: int,
            |
                0 <= i < k && 0 <= j < regions[i].words@.len() && regions[i].words@[j] == value
                    && a == word_addr(regions[i], j)),
    decreases k,
{
    if k > 0 {
        lemma_snapshot_locations_membership(regions, value, k - 1);
        let head = snapshot_locations_prefix(regions, value, k - 1);
        let m = regions[k - 1].words@.len() as int;
        let tail = region_locations(regions[k - 1], value, m);
        lemma_region_locations_membership(regions[k - 1], value, m);
        assert forall|a: u64| #[trigger]
            snapshot_locations_prefix(regions, value, k).contains(a) <==> (exists|i: int, j: int|
                0 <= i < k && 0 <= j < regions[i].words@.len() && regions[i].words@[j] == value
                    && a == word_addr(regions[i], j)) by {
            lemma_concat_contains(head, tail, a);
            if exists|i: int, j: int|
                0 <= i < k && 0 <= j < regions[i].words@.len() && regions[i].words@[j] == value
                    && a == word_addr(regions[i], j) {
                let (i, j) = choose|i: int, j: int|
                    0 <= i < k && 0 <= j < regions[i].words@.len() && regions[i].words@[j] == value
                        && a == word_addr(regions[i], j);
                if i == k - 1 {
                    assert(tail.contains(a));
                }
            }
        }
    }
}

/// Empty-result safety: the scan yields no location exactly when no
/// captured word equals the value; it never fails either way.
pub proof fn lemma_locations_empty_iff(regions: Seq<CapturedRegion>, value: u64)
    requires
        forall|i: int| 0 <= i < regions.len() ==> captured_wf(#[trigger] regions[i]),
    ensures
        snapshot_locations(regions, value).len() == 0 <==> !some_word_equals(regions, value),
{
    let locs = snapshot_locations(regions, value);
    lemma_snapshot_locations_membership(regions, value, regions.len() as int);
    if some_word_equals(regions, value) {
        let (i, j) = choose|i: int, j: int|
            0 <= i < regions.len() && 0 <= j < regions[i].words@.len() && regions[i].words@[j]
                == value;
        assert(locs.contains(word_addr(regions[i], j) as u64));
    }
    if locs.len() > 0 {
        assert(locs.contains(locs[0]));
    }
}

impl Snapshot {
    /// Every captured address whose word equals `value`, in deterministic
    /// order: regions in snapshot order, words in ascending address order.
    /// Yields an empty vector, not a failure, when nothing matches.
    pub fn locations_holding(&self, value: u64) -> (r: Vec<u64>)
        requires
            self.wf(),
        ensures
            r@ == snapshot_locations(self.regions@, value),
    {
        let mut res: Vec<u64> = Vec::new();
        let n = self.regions.len();
        let mut k: usize = 0;
        while k < n
            invariant
                self.wf(),
                n == self.regions@.len(),
                0 <= k <= n,
                res@ == snapshot_locations_prefix(self.regions@, value, k as int),
            decreases n - k,
        {
            let m = self.regions[k].words.len();
            let start = self.regions[k].region.start;
            let mut j: usize = 0;
            while j < m
                invariant
                    self.wf(),
                    n == self.regions@.len(),
                    0 <= k < n,
                    m == self.regions@[k as int].words@.len(),
                    start == self.regions@[k as int].region.start,
                    0 <= j <= m,
                    res@ == snapshot_locations_prefix(self.regions@, value, k as int)
                        + region_locations(self.regions@[k as int], value, j as int),
                decreases m - j,
            {
                if self.regions[k].words[j] == value {
                    proof {
                        lemma_word_addr_in_region(self.regions@[k as int], j as int);
                    }
                    let a = start + (j as u64) * WORD_SIZE;
                    res.push(a);
                }
                proof {
                    assert(res@ =~= snapshot_locations_prefix(self.regions@, value, k as int)
                        + region_locations(self.regions@[k as int], value, j + 1));
                }
                j = j + 1;
            }
            proof {
                assert(snapshot_locations_prefix(self.regions@, value, k + 1) =~= res@);
            }
            k = k + 1;
        }
        res
    }
}

/// Boundary inclusivity: both bounds of a main-image region classify as
/// inside the main image.
pub proof fn lemma_main_image_boundaries(regions: Seq<CapturedRegion>, exe: Seq<u8>, i: int)
    requires
        0 <= i < regions.len(),
        region_wf(regions[i].region),
        backed_by(regions[i].region, exe),
    ensures
        in_main_image(regions, exe, regions[i].region.start),
        in_main_image(regions, exe, regions[i].region.end),
{
    assert(region_covers(regions[i].region, regions[i].region.start));
    assert(region_covers(regions[i].region, regions[i].region.end));
}

/// Alignment invariant: every region of a well-formed snapshot spans an
/// exact multiple of the word size.
pub proof fn lemma_captured_span_aligned(s: Snapshot, i: int)
    requires
        s.wf(),
        0 <= i < s.regions@.len(),
    ensures
        (s.regions@[i].region.end - s.regions@[i].region.start) % (WORD_SIZE as int) == 0,
        s.regions@[i].words@.len() * (WORD_SIZE as int) == s.regions@[i].region.end
            - s.regions@[i].region.start,
{
    let r = s.regions@[i].region;
    lemma_span_is_word_multiple(r.start, r.end);
}

/// For word-aligned bounds `start <= end`, the span is a multiple of the
/// word size, and the word count times the word size gives it back.
pub proof fn lemma_span_is_word_multiple(start: u64, end: u64)
    requires
        start <= end,
        start % WORD_SIZE == 0,
        end % WORD_SIZE == 0,
    ensures
        (end - start) % (WORD_SIZE as int) == 0,
        ((end - start) / (WORD_SIZE as int)) * (WORD_SIZE as int) == end - start,
{
    let w = WORD_SIZE as int;
    vstd::arithmetic::div_mod::lemma_fundamental_div_mod(start as int, w);
    vstd::arithmetic::div_mod::lemma_fundamental_div_mod(end as int, w);
    let q = end as int / w - start as int / w;
    assert(end - start == q * w) by (nonlinear_arith)
        requires
            start as int == w * (start as int / w),
            end as int == w * (end as int / w),
            q == end as int / w - start as int / w,
    ;
    vstd::arithmetic::div_mod::lemma_mod_multiples_basic(q, w);
    vstd::arithmetic::div_mod::lemma_fundamental_div_mod(end - start, w);
    assert(((end - start) / w) * w == end - start) by (nonlinear_arith)
        requires
            end - start == w * ((end - start) / w) + (end - start) % w,
            (end - start) % w == 0,
    ;
}

} // verus!
