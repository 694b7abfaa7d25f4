//! The backward pointer-chain search: an offset-search primitive that
//! finds storage locations pointing (with a bounded byte offset) at a
//! given address, and a breadth-first expander that grows candidate
//! pointer paths level by level against one immutable snapshot.

use crate::snapshot::{
    captured_wf, first_covering, in_main_image, lemma_first_covering, lemma_locations_empty_iff,
    lemma_snapshot_locations_membership, lemma_word_addr_in_region, region_wf, snapshot_locations,
    some_word_equals, word_addr, CapturedRegion, Snapshot, WORD_SIZE,
};
use vstd::prelude::*;

verus! {

/// One step of a pointer path: the pointer-sized value stored at `addr`,
/// plus `offset`, equals the address the next step (or the final target)
/// requires.
#[derive(Clone, Copy, PartialEq, Eq, Structural, Debug)]
pub struct Step {
    /// Address of the storage location.
    pub addr: u64,
    /// Byte offset added to the stored value.
    pub offset: u64,
}

/// The smallest word-aligned offset at or above `offset` that stays within
/// the bound and the containing region (whose start is `lo`) and for which
/// some captured word equals `target - offset`; `None` when the bound or
/// the region is exhausted first.
pub open spec fn first_hit(
    regions: Seq<CapturedRegion>,
    target: u64,
    lo: u64,
    max_offset: u64,
    offset: int,
) -> Option<u64>
    decreases max_offset + WORD_SIZE - offset,
{
    if offset < 0 || offset > max_offset || offset > target - lo {
        None
    } else if some_word_equals(regions, (target - offset) as u64) {
        Some(offset as u64)
    } else {
        first_hit(regions, target, lo, max_offset, offset + WORD_SIZE)
    }
}

/// What the offset search returns: the smallest viable offset together
/// with every location holding `target` minus that offset, or `None` when
/// no captured region contains `target` or no probe within the bound hits.
pub open spec fn find_offset_spec(
    regions: Seq<CapturedRegion>,
    target: u64,
    max_offset: u64,
) -> Option<(u64, Seq<u64>)> {
    match first_covering(regions, target) {
        None => None,
        Some(i) => match first_hit(regions, target, regions[i].region.start, max_offset, 0) {
            None => None,
            Some(off) => Some((off, snapshot_locations(regions, (target - off) as u64))),
        },
    }
}

/// The probe at byte offset `o` below `target` finds no captured word:
/// nothing in the snapshot holds `target - o`.
pub open spec fn probe_misses(regions: Seq<CapturedRegion>, target: u64, o: int) -> bool {
    !some_word_equals(regions, (target - o) as u64)
}

/// Word-aligned integers below another word-aligned integer lie at least
/// one word below it.
proof fn lemma_aligned_gap(a: int, b: int)
    requires
        a % (WORD_SIZE as int) == 0,
        b % (WORD_SIZE as int) == 0,
        a < b,
    ensures
        a + WORD_SIZE <= b,
{
    let w = WORD_SIZE as int;
    vstd::arithmetic::div_mod::lemma_fundamental_div_mod(a, w);
    vstd::arithmetic::div_mod::lemma_fundamental_div_mod(b, w);
    assert(a + w <= b) by (nonlinear_arith)
        requires
            a == w * (a / w),
            b == w * (b / w),
            a < b,
            w > 0,
    ;
}

/// The offset `first_hit` returns is a hit, is word-aligned, and no
/// smaller word-aligned offset (at or above the starting one) hits; when
/// it returns nothing, no viable offset hits at all.
pub proof fn lemma_first_hit(
    regions: Seq<CapturedRegion>,
    target: u64,
    lo: u64,
    max_offset: u64,
    offset: int,
)
    requires
        0 <= offset,
        offset % (WORD_SIZE as int) == 0,
        lo <= target,
    ensures
        match first_hit(regions, target, lo, max_offset, offset) {
            Some(off) => offset <= off <= max_offset && off % WORD_SIZE == 0 && off <= target - lo
                && some_word_equals(regions, (target - off) as u64) && forall|o: int|
                offset <= o < off && o % (WORD_SIZE as int) == 0 ==> #[trigger] probe_misses(
                    regions,
                    target,
                    o,
                ),
            None => forall|o: int|
                offset <= o <= max_offset && o % (WORD_SIZE as int) == 0 && o <= target - lo
                    ==> #[trigger] probe_misses(regions, target, o),
        },
    decreases max_offset + WORD_SIZE - offset,
{
    let w = WORD_SIZE as int;
    if offset > max_offset || offset > target - lo {
        // exhausted: the range of viable offsets at or above `offset` is empty
    } else if some_word_equals(regions, (target - offset) as u64) {
        // the probe at `offset` itself hits, and no aligned offset lies below it
    } else {
        lemma_first_hit(regions, target, lo, max_offset, offset + w);
        match first_hit(regions, target, lo, max_offset, offset + w) {
            Some(off) => {
                assert forall|o: int|
                    offset <= o < off && o % w == 0 implies #[trigger] probe_misses(
                    regions,
                    target,
                    o,
                ) by {
                    if o > offset {
                        lemma_aligned_gap(offset, o);
                    }
                }
            },
            None => {
                assert forall|o: int|
                    offset <= o <= max_offset && o % w == 0 && o <= target - lo
                        implies #[trigger] probe_misses(regions, target, o) by {
                    if o > offset {
                        lemma_aligned_gap(offset, o);
                    }
                }
            },
        }
    }
}

/// Bound respect: with a zero bound the search probes only offset zero,
/// hitting exactly when some captured word equals the target itself.
pub proof fn lemma_find_offset_zero_bound(regions: Seq<CapturedRegion>, target: u64)
    ensures
        match find_offset_spec(regions, target, 0) {
            Some(p) => p.0 == 0 && some_word_equals(regions, target) && p.1 == snapshot_locations(
                regions,
                target,
            ),
            None => first_covering(regions, target) is None || !some_word_equals(regions, target),
        },
{
    match first_covering(regions, target) {
        None => {},
        Some(i) => {
            lemma_first_covering(regions, target, 0);
            let lo = regions[i].region.start;
            assert((target - 0) as u64 == target);
            if some_word_equals(regions, target) {
                assert(first_hit(regions, target, lo, 0, 0) == Some(0u64));
            } else {
                assert(first_hit(regions, target, lo, 0, WORD_SIZE as int) is None);
                assert(first_hit(regions, target, lo, 0, 0) is None);
            }
        },
    }
}

/// Smallest-offset tie-break: when the snapshot holds `target - k` at
/// `s_loc` and nowhere else, `k` is word-aligned, within the bound and
/// within the region containing `target` (the one at index `ri`), and no
/// smaller aligned offset hits, the search returns exactly `(k, {s_loc})`.
pub proof fn lemma_find_offset_smallest(
    regions: Seq<CapturedRegion>,
    target: u64,
    max_offset: u64,
    k: u64,
    s_loc: u64,
    ri: int,
)
    requires
        forall|i: int| 0 <= i < regions.len() ==> captured_wf(#[trigger] regions[i]),
        first_covering(regions, target) == Some(ri),
        k % WORD_SIZE == 0,
        k <= max_offset,
        k <= target - regions[ri].region.start,
        exists|i: int, j: int|
            0 <= i < regions.len() && 0 <= j < regions[i].words@.len()
                && #[trigger] regions[i].words@[j] == (target - k) as u64 && word_addr(
                regions[i],
                j,
            ) == s_loc,
        forall|i: int, j: int|
            0 <= i < regions.len() && 0 <= j < regions[i].words@.len()
                && #[trigger] regions[i].words@[j] == (target - k) as u64 ==> word_addr(
                regions[i],
                j,
            ) == s_loc,
        forall|o: int|
            0 <= o < k && o % (WORD_SIZE as int) == 0 ==> #[trigger] probe_misses(
                regions,
                target,
                o,
            ),
    ensures
        find_offset_spec(regions, target, max_offset) matches Some(p) && p.0 == k && (forall|
            a: u64,
        |
            p.1.contains(a) <==> a == s_loc),
{
    lemma_first_covering(regions, target, 0);
    let lo = regions[ri].region.start;
    lemma_first_hit(regions, target, lo, max_offset, 0);
    let value = (target - k) as u64;
    let (wi, wj) = choose|i: int, j: int|
        0 <= i < regions.len() && 0 <= j < regions[i].words@.len()
            && #[trigger] regions[i].words@[j] == value && word_addr(regions[i], j) == s_loc;
    assert(some_word_equals(regions, value));
    match first_hit(regions, target, lo, max_offset, 0) {
        None => {
            assert(probe_misses(regions, target, k as int));
            assert(false);
        },
        Some(off) => {
            if off < k {
                assert(probe_misses(regions, target, off as int));
                assert(false);
            }
            if off > k {
                assert(probe_misses(regions, target, k as int));
                assert(false);
            }
            lemma_snapshot_locations_membership(regions, value, regions.len() as int);
            assert forall|a: u64| snapshot_locations(regions, value).contains(a) <==> a
                == s_loc by {
                if a == s_loc {
                    lemma_word_addr_in_region(regions[wi], wj);
                    assert(snapshot_locations(regions, value).contains(
                        word_addr(regions[wi], wj) as u64,
                    ));
                }
                if snapshot_locations(regions, value).contains(a) {
                    let (i2, j2) = choose|i: int, j: int|
                        0 <= i < regions.len() && 0 <= j < regions[i].words@.len()
                            && regions[i].words@[j] == value && a == word_addr(regions[i], j);
                    lemma_word_addr_in_region(regions[i2], j2);
                }
            }
        },
    }
}

impl Snapshot {
    /// Probes offsets `0, WORD_SIZE, 2 * WORD_SIZE, ...` while they stay
    /// within `max_offset` and within the region containing `target`, and
    /// returns the first offset at which some captured word equals
    /// `target` minus the offset, together with every address holding that
    /// word; `None` when no captured region contains `target` or the bound
    /// is exhausted without a match.
    pub fn find_offset(&self, target: u64, max_offset: u64) -> (r: Option<(u64, Vec<u64>)>)
        requires
            self.wf(),
        ensures
            match r {
                None => find_offset_spec(self.regions@, target, max_offset) is None,
                Some(p) => find_offset_spec(self.regions@, target, max_offset) == Some(
                    (p.0, p.1@),
                ),
            },
    {
        let idx = match self.region_containing(target) {
            None => {
                return None;
            },
            Some(i) => i,
        };
        proof {
            lemma_first_covering(self.regions@, target, 0);
        }
        let lo = self.regions[idx].region.start;
        let mut offset: u64 = 0;
        loop
            invariant
                self.wf(),
                first_covering(self.regions@, target) == Some(idx as int),
                idx < self.regions@.len(),
                lo == self.regions@[idx as int].region.start,
                lo <= target,
                offset % WORD_SIZE == 0,
                offset <= max_offset,
                offset <= target - lo,
                first_hit(self.regions@, target, lo, max_offset, 0) == first_hit(
                    self.regions@,
                    target,
                    lo,
                    max_offset,
                    offset as int,
                ),
            decreases max_offset - offset,
        {
            let candidate = target - offset;
            let locs = self.locations_holding(candidate);
            proof {
                lemma_locations_empty_iff(self.regions@, candidate);
            }
            if locs.len() > 0 {
                return Some((offset, locs));
            }
            if max_offset - offset < WORD_SIZE || (target - lo) - offset < WORD_SIZE {
                proof {
                    assert(first_hit(
                        self.regions@,
                        target,
                        lo,
                        max_offset,
                        offset + WORD_SIZE,
                    ) is None);
                    assert(first_hit(self.regions@, target, lo, max_offset, offset as int) is None);
                }
                return None;
            }
            offset = offset + WORD_SIZE;
        }
    }
}

/// The mathematical view of a vector of paths.
pub open spec fn paths_view(v: Vec<Vec<Step>>) -> Seq<Seq<Step>> {
    v@.map_values(|p: Vec<Step>| p@)
}

/// Every path of the frontier has a head step.
pub open spec fn all_nonempty(frontier: Seq<Seq<Step>>) -> bool {
    forall|i: int| 0 <= i < frontier.len() ==> #[trigger] frontier[i].len() > 0
}

/// The one-step extensions of a single path: one new path per storage
/// location the offset search finds for the path's head, each with the
/// location prepended as new head; no extension when the search finds
/// nothing (the path is pruned).
pub open spec fn expand_path(
    regions: Seq<CapturedRegion>,
    path: Seq<Step>,
    max_offset: u64,
) -> Seq<Seq<Step>> {
    match find_offset_spec(regions, path[0].addr, max_offset) {
        None => Seq::empty(),
        Some(p) => p.1.map_values(|a: u64| seq![Step { addr: a, offset: p.0 }] + path),
    }
}

/// One level of expansion: every path's extensions, in frontier order.
pub open spec fn expand_frontier(
    regions: Seq<CapturedRegion>,
    frontier: Seq<Seq<Step>>,
    max_offset: u64,
) -> Seq<Seq<Step>>
    decreases frontier.len(),
{
    if frontier.len() == 0 {
        Seq::empty()
    } else {
        expand_path(regions, frontier[0], max_offset) + expand_frontier(
            regions,
            frontier.drop_first(),
            max_offset,
        )
    }
}

/// Empty-result safety: a path whose head yields no offset-search match
/// contributes no extensions; it is pruned and expansion goes on.
pub proof fn lemma_pruned_path(regions: Seq<CapturedRegion>, path: Seq<Step>, max_offset: u64)
    requires
        find_offset_spec(regions, path[0].addr, max_offset) is None,
    ensures
        expand_path(regions, path, max_offset) == Seq::<Seq<Step>>::empty(),
{
}

/// Expansion processes the frontier path by path, in order.
pub proof fn lemma_expand_frontier_push(
    regions: Seq<CapturedRegion>,
    frontier: Seq<Seq<Step>>,
    path: Seq<Step>,
    max_offset: u64,
)
    ensures
        expand_frontier(regions, frontier.push(path), max_offset) == expand_frontier(
            regions,
            frontier,
            max_offset,
        ) + expand_path(regions, path, max_offset),
    decreases frontier.len(),
{
    let whole = frontier.push(path);
    assert(whole.len() > 0);
    assert(expand_frontier(regions, whole, max_offset) == expand_path(regions, whole[0], max_offset)
        + expand_frontier(regions, whole.drop_first(), max_offset));
    if frontier.len() == 0 {
        assert(whole[0] == path);
        assert(whole.drop_first() =~= Seq::<Seq<Step>>::empty());
        assert(expand_frontier(regions, whole.drop_first(), max_offset) =~= Seq::<
            Seq<Step>,
        >::empty());
        assert(expand_frontier(regions, frontier, max_offset) =~= Seq::<Seq<Step>>::empty());
        assert(expand_frontier(regions, whole, max_offset) =~= expand_frontier(
            regions,
            frontier,
            max_offset,
        ) + expand_path(regions, path, max_offset));
    } else {
        lemma_expand_frontier_push(regions, frontier.drop_first(), path, max_offset);
        assert(whole[0] == frontier[0]);
        assert(whole.drop_first() =~= frontier.drop_first().push(path));
        assert(expand_frontier(regions, whole.drop_first(), max_offset) == expand_frontier(
            regions,
            frontier.drop_first(),
            max_offset,
        ) + expand_path(regions, path, max_offset));
        assert(expand_frontier(regions, frontier, max_offset) == expand_path(
            regions,
            frontier[0],
            max_offset,
        ) + expand_frontier(regions, frontier.drop_first(), max_offset));
        assert(expand_frontier(regions, whole, max_offset) =~= expand_frontier(
            regions,
            frontier,
            max_offset,
        ) + expand_path(regions, path, max_offset));
    }
}

/// Every path an expansion produces carries its new head: none is empty.
pub proof fn lemma_expand_frontier_nonempty(
    regions: Seq<CapturedRegion>,
    frontier: Seq<Seq<Step>>,
    max_offset: u64,
)
    ensures
        all_nonempty(expand_frontier(regions, frontier, max_offset)),
    decreases frontier.len(),
{
    if frontier.len() > 0 {
        lemma_expand_frontier_nonempty(regions, frontier.drop_first(), max_offset);
        let head = expand_path(regions, frontier[0], max_offset);
        let rest = expand_frontier(regions, frontier.drop_first(), max_offset);
        assert forall|i: int|
            0 <= i < expand_frontier(regions, frontier, max_offset).len() implies #[trigger]
        expand_frontier(regions, frontier, max_offset)[i].len() > 0 by {
            if i < head.len() {
                assert(expand_frontier(regions, frontier, max_offset)[i] == head[i]);
            } else {
                assert(expand_frontier(regions, frontier, max_offset)[i] == rest[i - head.len()]);
            }
        }
    }
}

/// The extensions of `path` by the first `t` found locations.
pub open spec fn extensions_prefix(
    addrs: Seq<u64>,
    off: u64,
    path: Seq<Step>,
    t: int,
) -> Seq<Seq<Step>> {
    addrs.take(t).map_values(|a: u64| seq![Step { addr: a, offset: off }] + path)
}

/// A path extended by a new head step.
fn prepend_step(step: Step, path: &Vec<Step>) -> (r: Vec<Step>)
    ensures
        r@ == seq![step] + path@,
{
    let mut r: Vec<Step> = Vec::new();
    r.push(step);
    let n = path.len();
    let mut q: usize = 0;
    while q < n
        invariant
            n == path@.len(),
            0 <= q <= n,
            r@ == seq![step] + path@.take(q as int),
        decreases n - q,
    {
        r.push(path[q]);
        proof {
            assert(seq![step] + path@.take(q + 1) =~= (seq![step] + path@.take(q as int)).push(
                path@[q as int],
            ));
        }
        q = q + 1;
    }
    proof {
        assert(path@.take(n as int) =~= path@);
    }
    r
}

/// An unchanged copy of a path.
fn copy_path(path: &Vec<Step>) -> (r: Vec<Step>)
    ensures
        r@ == path@,
{
    let mut r: Vec<Step> = Vec::new();
    let n = path.len();
    let mut q: usize = 0;
    while q < n
        invariant
            n == path@.len(),
            0 <= q <= n,
            r@ == path@.take(q as int),
        decreases n - q,
    {
        r.push(path[q]);
        proof {
            assert(path@.take(q + 1) =~= path@.take(q as int).push(path@[q as int]));
        }
        q = q + 1;
    }
    proof {
        assert(path@.take(n as int) =~= path@);
    }
    r
}

impl Snapshot {
    /// Expands every path of the frontier by one level: a path whose head
    /// yields no offset-search match is dropped; a match produces one new
    /// path per found location, the location prepended as the new head.
    /// The results keep frontier order, then found-location order.
    pub fn search_next_level(&self, frontier: &Vec<Vec<Step>>, max_offset: u64) -> (res: Vec<
        Vec<Step>,
    >)
        requires
            self.wf(),
            all_nonempty(paths_view(*frontier)),
        ensures
            paths_view(res) == expand_frontier(self.regions@, paths_view(*frontier), max_offset),
            all_nonempty(paths_view(res)),
    {
        let mut res: Vec<Vec<Step>> = Vec::new();
        let n = frontier.len();
        let mut k: usize = 0;
        while k < n
            invariant
                self.wf(),
                n == frontier@.len(),
                all_nonempty(paths_view(*frontier)),
                0 <= k <= n,
                paths_view(res) == expand_frontier(
                    self.regions@,
                    paths_view(*frontier).take(k as int),
                    max_offset,
                ),
            decreases n - k,
        {
            proof {
                assert(paths_view(*frontier)[k as int] == frontier@[k as int]@);
                assert(paths_view(*frontier)[k as int].len() > 0);
            }
            let head: u64 = frontier[k][0].addr;
            match self.find_offset(head, max_offset) {
                None => {
                    proof {
                        assert(expand_path(self.regions@, frontier@[k as int]@, max_offset)
                            =~= Seq::<Seq<Step>>::empty());
                        assert(paths_view(*frontier).take(k + 1) =~= paths_view(
                            *frontier,
                        ).take(k as int).push(frontier@[k as int]@));
                        lemma_expand_frontier_push(
                            self.regions@,
                            paths_view(*frontier).take(k as int),
                            frontier@[k as int]@,
                            max_offset,
                        );
                        assert(paths_view(res) =~= expand_frontier(
                            self.regions@,
                            paths_view(*frontier).take(k + 1),
                            max_offset,
                        ));
                    }
                },
                Some(pair) => {
                    let off = pair.0;
                    let addrs = pair.1;
                    let m = addrs.len();
                    let mut t: usize = 0;
                    proof {
                        assert(extensions_prefix(addrs@, off, frontier@[k as int]@, 0)
                            =~= Seq::<Seq<Step>>::empty());
                    }
                    while t < m
                        invariant
                            self.wf(),
                            n == frontier@.len(),
                            0 <= k < n,
                            all_nonempty(paths_view(*frontier)),
                            m == addrs@.len(),
                            find_offset_spec(
                                self.regions@,
                                frontier@[k as int]@[0].addr,
                                max_offset,
                            ) == Some((off, addrs@)),
                            paths_view(*frontier)[k as int] == frontier@[k as int]@,
                            0 <= t <= m,
                            paths_view(res) == expand_frontier(
                                self.regions@,
                                paths_view(*frontier).take(k as int),
                                max_offset,
                            ) + extensions_prefix(addrs@, off, frontier@[k as int]@, t as int),
                        decreases m - t,
                    {
                        let ghost pre = paths_view(res);
                        let new_path = prepend_step(
                            Step { addr: addrs[t], offset: off },
                            &frontier[k],
                        );
                        res.push(new_path);
                        proof {
                            assert(extensions_prefix(addrs@, off, frontier@[k as int]@, t + 1)
                                =~= extensions_prefix(
                                addrs@,
                                off,
                                frontier@[k as int]@,
                                t as int,
                            ).push(
                                seq![Step { addr: addrs@[t as int], offset: off }]
                                    + frontier@[k as int]@,
                            ));
                            assert(paths_view(res) =~= pre.push(new_path@));
                            assert(pre.push(new_path@) =~= expand_frontier(
                                self.regions@,
                                paths_view(*frontier).take(k as int),
                                max_offset,
                            ) + extensions_prefix(addrs@, off, frontier@[k as int]@, t + 1));
                        }
                        t = t + 1;
                    }
                    proof {
                        assert(addrs@.take(m as int) =~= addrs@);
                        assert(extensions_prefix(addrs@, off, frontier@[k as int]@, m as int)
                            =~= expand_path(self.regions@, frontier@[k as int]@, max_offset));
                        assert(paths_view(*frontier).take(k + 1) =~= paths_view(
                            *frontier,
                        ).take(k as int).push(frontier@[k as int]@));
                        lemma_expand_frontier_push(
                            self.regions@,
                            paths_view(*frontier).take(k as int),
                            frontier@[k as int]@,
                            max_offset,
                        );
                        assert(paths_view(res) =~= expand_frontier(
                            self.regions@,
                            paths_view(*frontier).take(k + 1),
                            max_offset,
                        ));
                    }
                },
            }
            k = k + 1;
        }
        proof {
            assert(paths_view(*frontier).take(n as int) =~= paths_view(*frontier));
            lemma_expand_frontier_nonempty(self.regions@, paths_view(*frontier), max_offset);
        }
        res
    }
}

/// The frontier after `depth` levels of expansion, seeded with the single
/// one-step path at the target with offset zero.
pub open spec fn frontier_at(
    regions: Seq<CapturedRegion>,
    target: u64,
    max_offset: u64,
    depth: nat,
) -> Seq<Seq<Step>>
    decreases depth,
{
    if depth == 0 {
        seq![seq![Step { addr: target, offset: 0u64 }]]
    } else {
        expand_frontier(
            regions,
            frontier_at(regions, target, max_offset, (depth - 1) as nat),
            max_offset,
        )
    }
}

/// The paths of a frontier whose head is classified inside the main
/// image, in frontier order.
pub open spec fn flagged_paths(
    regions: Seq<CapturedRegion>,
    exe: Seq<u8>,
    frontier: Seq<Seq<Step>>,
) -> Seq<Seq<Step>>
    decreases frontier.len(),
{
    if frontier.len() == 0 {
        Seq::empty()
    } else {
        let rest = flagged_paths(regions, exe, frontier.drop_first());
        if frontier[0].len() > 0 && in_main_image(regions, exe, frontier[0][0].addr) {
            seq![frontier[0]] + rest
        } else {
            rest
        }
    }
}

/// Flagging examines the frontier path by path, in order.
pub proof fn lemma_flagged_paths_push(
    regions: Seq<CapturedRegion>,
    exe: Seq<u8>,
    frontier: Seq<Seq<Step>>,
    path: Seq<Step>,
)
    ensures
        flagged_paths(regions, exe, frontier.push(path)) == flagged_paths(regions, exe, frontier)
            + (if path.len() > 0 && in_main_image(regions, exe, path[0].addr) {
            seq![path]
        } else {
            Seq::<Seq<Step>>::empty()
        }),
    decreases frontier.len(),
{
    let whole = frontier.push(path);
    let tail = if path.len() > 0 && in_main_image(regions, exe, path[0].addr) {
        seq![path]
    } else {
        Seq::<Seq<Step>>::empty()
    };
    if frontier.len() == 0 {
        assert(whole[0] == path);
        assert(whole.drop_first() =~= Seq::<Seq<Step>>::empty());
        assert(flagged_paths(regions, exe, whole.drop_first()) =~= Seq::<Seq<Step>>::empty());
        assert(flagged_paths(regions, exe, frontier) =~= Seq::<Seq<Step>>::empty());
        assert(flagged_paths(regions, exe, whole) =~= flagged_paths(regions, exe, frontier)
            + tail);
    } else {
        lemma_flagged_paths_push(regions, exe, frontier.drop_first(), path);
        assert(whole[0] == frontier[0]);
        assert(whole.drop_first() =~= frontier.drop_first().push(path));
        assert(flagged_paths(regions, exe, whole.drop_first()) == flagged_paths(
            regions,
            exe,
            frontier.drop_first(),
        ) + tail);
        assert(flagged_paths(regions, exe, whole) =~= flagged_paths(regions, exe, frontier)
            + tail);
    }
}

impl Snapshot {
    /// Runs the expander for exactly `depth` levels from the one-step
    /// seed path `(target, 0)` and returns the resulting frontier. The
    /// depth bound is the search's explicit termination policy.
    pub fn search_to_depth(&self, target: u64, max_offset: u64, depth: u64) -> (res: Vec<
        Vec<Step>,
    >)
        requires
            self.wf(),
        ensures
            paths_view(res) == frontier_at(self.regions@, target, max_offset, depth as nat),
            all_nonempty(paths_view(res)),
    {
        let mut frontier: Vec<Vec<Step>> = Vec::new();
        let mut seed: Vec<Step> = Vec::new();
        seed.push(Step { addr: target, offset: 0 });
        frontier.push(seed);
        proof {
            assert(paths_view(frontier) =~= frontier_at(self.regions@, target, max_offset, 0nat));
            assert(forall|i: int|
                0 <= i < paths_view(frontier).len() ==> #[trigger] paths_view(frontier)[i].len()
                    > 0);
        }
        let mut level: u64 = 0;
        while level < depth
            invariant
                self.wf(),
                0 <= level <= depth,
                paths_view(frontier) == frontier_at(
                    self.regions@,
                    target,
                    max_offset,
                    level as nat,
                ),
                all_nonempty(paths_view(frontier)),
            decreases depth - level,
        {
            frontier = self.search_next_level(&frontier, max_offset);
            level = level + 1;
        }
        frontier
    }

    /// The paths of a frontier whose head lies in the main image: each is
    /// a candidate for a restart-stable pointer path.
    pub fn candidates_in(&self, frontier: &Vec<Vec<Step>>) -> (res: Vec<Vec<Step>>)
        ensures
            paths_view(res) == flagged_paths(self.regions@, self.exe_path@, paths_view(*frontier)),
    {
        let mut res: Vec<Vec<Step>> = Vec::new();
        let n = frontier.len();
        let mut k: usize = 0;
        while k < n
            invariant
                n == frontier@.len(),
                0 <= k <= n,
                paths_view(res) == flagged_paths(
                    self.regions@,
                    self.exe_path@,
                    paths_view(*frontier).take(k as int),
                ),
            decreases n - k,
        {
            proof {
                assert(paths_view(*frontier)[k as int] == frontier@[k as int]@);
            }
            let flagged = frontier[k].len() > 0 && self.is_in_main_image(frontier[k][0].addr);
            let ghost pre = paths_view(res);
            if flagged {
                let kept = copy_path(&frontier[k]);
                res.push(kept);
                proof {
                    assert(paths_view(res) =~= pre.push(frontier@[k as int]@));
                }
            }
            proof {
                assert(paths_view(*frontier).take(k + 1) =~= paths_view(*frontier).take(
                    k as int,
                ).push(frontier@[k as int]@));
                lemma_flagged_paths_push(
                    self.regions@,
                    self.exe_path@,
                    paths_view(*frontier).take(k as int),
                    frontier@[k as int]@,
                );
                assert(paths_view(res) =~= flagged_paths(
                    self.regions@,
                    self.exe_path@,
                    paths_view(*frontier).take(k + 1),
                ));
            }
            k = k + 1;
        }
        proof {
            assert(paths_view(*frontier).take(n as int) =~= paths_view(*frontier));
        }
        res
    }
}

/// Chain reconstruction: when each level's offset search finds exactly
/// the next link of a hand-built chain — link `k` holding, at its sole
/// location, the value that reaches link `k - 1`'s address — the expander
/// discovers exactly that chain after exactly `n` levels, its steps in
/// head-first order; and when the chain's outermost location lies in the
/// main image, that path is flagged as a candidate.
pub proof fn lemma_chain_reconstruction(
    regions: Seq<CapturedRegion>,
    exe: Seq<u8>,
    chain: Seq<Step>,
    target: u64,
    max_offset: u64,
    n: int,
)
    requires
        0 <= n < chain.len(),
        chain[0].addr == target,
        chain[0].offset == 0,
        forall|k: int|
            1 <= k <= n ==> find_offset_spec(regions, chain[k - 1].addr, max_offset) == Some(
                ((#[trigger] chain[k]).offset, seq![chain[k].addr]),
            ),
    ensures
        frontier_at(regions, target, max_offset, n as nat) == seq![
            Seq::new((n + 1) as nat, |j: int| chain[n - j]),
        ],
        in_main_image(regions, exe, chain[n].addr) ==> flagged_paths(
            regions,
            exe,
            frontier_at(regions, target, max_offset, n as nat),
        ) == frontier_at(regions, target, max_offset, n as nat),
    decreases n,
{
    let path_n = Seq::new((n + 1) as nat, |j: int| chain[n - j]);
    if n == 0 {
        assert(path_n =~= seq![chain[0]]);
        assert(frontier_at(regions, target, max_offset, 0nat) == seq![
            seq![Step { addr: target, offset: 0u64 }],
        ]);
        assert(seq![Step { addr: target, offset: 0u64 }] =~= seq![chain[0]]);
    } else {
        lemma_chain_reconstruction(regions, exe, chain, target, max_offset, n - 1);
        let path_prev = Seq::new(n as nat, |j: int| chain[n - 1 - j]);
        let prev = frontier_at(regions, target, max_offset, (n - 1) as nat);
        assert(prev == seq![path_prev]);
        assert(frontier_at(regions, target, max_offset, n as nat) == expand_frontier(
            regions,
            prev,
            max_offset,
        ));
        assert(prev[0] == path_prev);
        assert(prev.drop_first() =~= Seq::<Seq<Step>>::empty());
        assert(expand_frontier(regions, prev.drop_first(), max_offset) =~= Seq::<
            Seq<Step>,
        >::empty());
        assert(expand_frontier(regions, prev, max_offset) == expand_path(
            regions,
            path_prev,
            max_offset,
        ) + expand_frontier(regions, prev.drop_first(), max_offset));
        assert(path_prev[0] == chain[n - 1]);
        assert(find_offset_spec(regions, path_prev[0].addr, max_offset) == Some(
            (chain[n].offset, seq![chain[n].addr]),
        ));
        let exts = seq![chain[n].addr].map_values(
            |a: u64| seq![Step { addr: a, offset: chain[n].offset }] + path_prev,
        );
        assert(expand_path(regions, path_prev, max_offset) == exts);
        assert(exts =~= seq![seq![Step { addr: chain[n].addr, offset: chain[n].offset }]
            + path_prev]);
        assert(Step { addr: chain[n].addr, offset: chain[n].offset } == chain[n]);
        assert(seq![chain[n]] + path_prev =~= path_n);
        assert(frontier_at(regions, target, max_offset, n as nat) =~= seq![path_n]);
    }
    if in_main_image(regions, exe, chain[n].addr) {
        let fr = frontier_at(regions, target, max_offset, n as nat);
        assert(fr[0] == path_n);
        assert(path_n[0] == chain[n]);
        assert(fr.drop_first() =~= Seq::<Seq<Step>>::empty());
        assert(flagged_paths(regions, exe, fr.drop_first()) =~= Seq::<Seq<Step>>::empty());
        assert(flagged_paths(regions, exe, fr) =~= seq![path_n] + Seq::<Seq<Step>>::empty());
        assert(flagged_paths(regions, exe, fr) =~= fr);
    }
}

} // verus!
