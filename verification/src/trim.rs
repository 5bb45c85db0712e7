//! Trimming of a goal's puck track, at the start and at the end.
//!
//! The start is cut while the puck sits still at a faceoff dot; the end is cut
//! at the instant the puck enters the net, chosen by how far into the track it
//! first gets there. Missing instants are dropped. The geometry (distances to
//! the dots, to the first position, to the net) is measured by the caller on
//! the real coordinates and arrives here as one [`InstantFeatures`] per
//! present instant; this module makes every decision from those facts and the
//! instants' indices.

use vstd::prelude::*;

verus! {

/// What the trimming reads of one present instant of a track. Distances are
/// to the first present instant of the track.
#[derive(Clone, Copy, Debug, PartialEq, Eq, Structural)]
pub struct InstantFeatures {
    /// The puck is more than 30 units from the first position along x or y.
    pub moved_from_first: bool,
    /// The puck is within 50 units (along both axes) of one of the nine faceoff dots.
    pub near_faceoff_dot: bool,
    /// The puck is within 20 units along x and 45 along y of the first position.
    pub near_first_start: bool,
    /// The puck is inside the net area.
    pub in_goal_area: bool,
}

/// The state of the trimming scan after some instants.
#[derive(Clone, Copy, Debug)]
pub struct TrimScan {
    /// A present instant has been seen (the first position is known).
    pub first_seen: bool,
    /// The puck has not moved far from the first position among the first instants.
    pub stationary: bool,
    /// The puck has been near a faceoff dot among the first instants.
    pub in_faceoff: bool,
    /// Number of missing instants so far.
    pub missing: usize,
    /// Index of the first instant kept.
    pub start: usize,
    /// Earliest instant at which the puck was in the net area.
    pub earliest_in_goal: Option<usize>,
    /// First instant of the current run of instants in the net area.
    pub interval_first: Option<usize>,
    /// Last instant of the latest run in the net area.
    pub interval_last: Option<usize>,
    /// Last instant kept, when the end is cut.
    pub cutoff: Option<usize>,
    /// The scan stopped early: the cutoff is final.
    pub stopped: bool,
}

/// How many of the first present instants (after missing ones) are checked for
/// a stationary puck at a faceoff dot, counting from zero.
pub const NUM_FIRST_X_CHECK: usize = 5;

/// `i / n < pct / 100`.
pub open spec fn frac_below(i: int, n: int, pct: int) -> bool {
    100 * i < pct * n
}

/// The state before any instant.
pub open spec fn scan_start() -> TrimScan {
    TrimScan {
        first_seen: false,
        stationary: true,
        in_faceoff: false,
        missing: 0,
        start: 0,
        earliest_in_goal: None,
        interval_first: None,
        interval_last: None,
        cutoff: None,
        stopped: false,
    }
}

/// Whether the earliest entry into the net, at fraction `e / n` of the track,
/// lets the cutoff follow later runs in the net: before 35%, between 35% and
/// 40% for tracks shorter than 200 instants, or between 40% and 60%.
pub open spec fn follows_runs(e: int, n: int) -> bool {
    ||| frac_below(e, n, 35)
    ||| (!frac_below(e, n, 35) && frac_below(e, n, 40) && n < 200)
    ||| (!frac_below(e, n, 40) && frac_below(e, n, 60))
}

/// Whether an earliest entry at `e / n` fixes the cutoff at the current
/// instant: between 35% and 40% for tracks of 200 instants or more, or from 60% on.
pub open spec fn cuts_at_once(e: int, n: int) -> bool {
    ||| (!frac_below(e, n, 35) && frac_below(e, n, 40) && n >= 200)
    ||| !frac_below(e, n, 60)
}

/// The part of a step that tracks the net area, for a present instant `i`
/// of a track of `n` instants.
pub open spec fn goal_step(s: TrimScan, i: usize, in_goal: bool, n: usize) -> TrimScan {
    if !in_goal {
        TrimScan { interval_first: None, ..s }
    } else {
        let e: usize = match s.earliest_in_goal {
            Some(e) => e,
            None => i,
        };
        let s1 = TrimScan { earliest_in_goal: Some(e), ..s };
        if follows_runs(e as int, n as int) {
            if !frac_below(i as int, n as int, 60) {
                match s1.interval_first {
                    Some(f) => TrimScan { cutoff: Some(f), stopped: true, ..s1 },
                    None => TrimScan { cutoff: Some(i), stopped: true, ..s1 },
                }
            } else if s1.interval_first is None {
                TrimScan {
                    interval_first: Some(i),
                    interval_last: Some(i),
                    cutoff: Some(i),
                    ..s1
                }
            } else if s1.interval_last is Some && i == s1.interval_last.unwrap() + 1 {
                TrimScan { interval_last: Some(i), ..s1 }
            } else {
                TrimScan { interval_first: None, ..s1 }
            }
        } else if cuts_at_once(e as int, n as int) {
            TrimScan { cutoff: Some(i), stopped: true, ..s1 }
        } else {
            s1
        }
    }
}

/// One step of the scan at instant `i` of a track of `n` instants.
pub open spec fn trim_step(s: TrimScan, i: usize, inst: Option<InstantFeatures>, n: usize) -> TrimScan {
    if s.stopped {
        s
    } else {
        match inst {
            None => {
                let missing = (s.missing + 1) as usize;
                let start = if i == s.start + 1 && missing > 1 { (s.start + 1) as usize } else { s.start };
                TrimScan { missing, start, ..s }
            },
            Some(f) => {
                let early = i - s.missing <= NUM_FIRST_X_CHECK;
                let first_seen = s.first_seen || early;
                let stationary = if early && s.first_seen && f.moved_from_first {
                    false
                } else {
                    s.stationary
                };
                let in_faceoff = s.in_faceoff || (early && f.near_faceoff_dot);
                let trims = stationary && first_seen && in_faceoff && f.near_first_start;
                let start = if trims { (s.start + 1) as usize } else { s.start };
                let s1 = TrimScan { first_seen, stationary, in_faceoff, start, ..s };
                goal_step(s1, i, f.in_goal_area, n)
            },
        }
    }
}

/// The state after the first `k` instants of `instants`.
pub open spec fn trim_scan(instants: Seq<Option<InstantFeatures>>, k: int) -> TrimScan
    decreases k,
{
    if k <= 0 {
        scan_start()
    } else {
        trim_step(
            trim_scan(instants, k - 1),
            (k - 1) as usize,
            instants[k - 1],
            instants.len() as usize,
        )
    }
}

/// One past the last instant kept by a finished scan of `n` instants.
pub open spec fn kept_end(s: TrimScan, n: int) -> int {
    match s.cutoff {
        Some(c) => c + 1,
        None => n,
    }
}

/// The full scan of a track.
pub open spec fn full_scan(instants: Seq<Option<InstantFeatures>>) -> TrimScan {
    trim_scan(instants, instants.len() as int)
}

/// Whether the kept range of a finished scan is well formed: its start is not
/// past its end. (On other tracks the selection of the range fails.)
pub open spec fn trim_range_ok(instants: Seq<Option<InstantFeatures>>) -> bool {
    full_scan(instants).start <= kept_end(full_scan(instants), instants.len() as int)
}

/// The indices in `[lo, hi)` of present instants, in increasing order.
pub open spec fn present_in(instants: Seq<Option<InstantFeatures>>, lo: int, hi: int) -> Seq<usize>
    decreases hi - lo,
{
    if hi <= lo {
        Seq::empty()
    } else {
        let before = present_in(instants, lo, hi - 1);
        if instants[hi - 1] is Some {
            before.push((hi - 1) as usize)
        } else {
            before
        }
    }
}

/// The bounds that every scan state keeps after `k` instants.
pub open spec fn scan_bounded(s: TrimScan, k: int) -> bool {
    &&& s.missing <= k
    &&& s.start <= k
    &&& (s.earliest_in_goal matches Some(e) ==> e < k)
    &&& (s.interval_first matches Some(f) ==> f < k)
    &&& (s.interval_last matches Some(l) ==> l < k)
    &&& (s.cutoff matches Some(c) ==> c < k)
}

/// After `k` instants the counters and recorded instants stay below `k`
/// (the start at most `k`).
pub proof fn lemma_scan_bounded(instants: Seq<Option<InstantFeatures>>, k: int)
    requires
        0 <= k <= instants.len(),
    ensures
        scan_bounded(trim_scan(instants, k), k),
    decreases k,
{
    if k > 0 {
        lemma_scan_bounded(instants, k - 1);
    }
}

/// Runs one step of the scan.
fn step(s: TrimScan, i: usize, inst: Option<InstantFeatures>, n: usize) -> (r: TrimScan)
    requires
        i < n,
        scan_bounded(s, i as int),
    ensures
        r == trim_step(s, i, inst, n),
        scan_bounded(r, i + 1),
{
    if s.stopped {
        return s;
    }
    match inst {
        None => {
            let missing: usize = s.missing + 1;
            let start: usize = if i == s.start + 1 && missing > 1 { s.start + 1 } else { s.start };
            TrimScan { missing, start, ..s }
        },
        Some(f) => {
            let early: bool = i - s.missing <= NUM_FIRST_X_CHECK;
            let first_seen: bool = s.first_seen || early;
            let stationary: bool = if early && s.first_seen && f.moved_from_first {
                false
            } else {
                s.stationary
            };
            let in_faceoff: bool = s.in_faceoff || (early && f.near_faceoff_dot);
            let trims: bool = stationary && first_seen && in_faceoff && f.near_first_start;
            let start: usize = if trims { s.start + 1 } else { s.start };
            let s1 = TrimScan { first_seen, stationary, in_faceoff, start, ..s };
            goal_step_exec(s1, i, f.in_goal_area, n)
        },
    }
}

/// `100 * i < pct * n`, computed without overflow.
fn frac_below_exec(i: usize, n: usize, pct: u128) -> (b: bool)
    requires
        pct <= 100,
    ensures
        b == frac_below(i as int, n as int, pct as int),
{
    let ii: u128 = i as u128;
    let nn: u128 = n as u128;
    assert(pct * nn <= 100 * 0xffff_ffff_ffff_ffffu128) by (nonlinear_arith)
        requires
            pct <= 100,
            nn <= 0xffff_ffff_ffff_ffffu128,
    ;
    ii * 100 < pct * nn
}

/// Runs the net-area part of a step.
fn goal_step_exec(s: TrimScan, i: usize, in_goal: bool, n: usize) -> (r: TrimScan)
    requires
        i < n,
        s.missing <= i + 1,
        s.start <= i + 1,
        s.earliest_in_goal matches Some(e) ==> e < i,
        s.interval_first matches Some(f) ==> f < i,
        s.interval_last matches Some(l) ==> l < i,
        s.cutoff matches Some(c) ==> c < i,
    ensures
        r == goal_step(s, i, in_goal, n),
        scan_bounded(r, i + 1),
{
    if !in_goal {
        return TrimScan { interval_first: None, ..s };
    }
    let e: usize = match s.earliest_in_goal {
        Some(e) => e,
        None => i,
    };
    let s1 = TrimScan { earliest_in_goal: Some(e), ..s };
    let below35: bool = frac_below_exec(e, n, 35);
    let below40: bool = frac_below_exec(e, n, 40);
    let below60: bool = frac_below_exec(e, n, 60);
    let follows: bool = below35 || (!below35 && below40 && n < 200) || (!below40 && below60);
    if follows {
        if !frac_below_exec(i, n, 60) {
            match s1.interval_first {
                Some(f) => TrimScan { cutoff: Some(f), stopped: true, ..s1 },
                None => TrimScan { cutoff: Some(i), stopped: true, ..s1 },
            }
        } else if s1.interval_first.is_none() {
            TrimScan { interval_first: Some(i), interval_last: Some(i), cutoff: Some(i), ..s1 }
        } else if s1.interval_last.is_some() && i == s1.interval_last.unwrap() + 1 {
            TrimScan { interval_last: Some(i), ..s1 }
        } else {
            TrimScan { interval_first: None, ..s1 }
        }
    } else if (!below35 && below40 && n >= 200) || !below60 {
        TrimScan { cutoff: Some(i), stopped: true, ..s1 }
    } else {
        s1
    }
}

/// Scans a track and returns where it is cut: the first instant kept and,
/// when the end is cut, the last instant kept.
pub fn scan_trim_points(instants: &Vec<Option<InstantFeatures>>) -> (s: TrimScan)
    ensures
        s == full_scan(instants@),
        scan_bounded(s, instants.len() as int),
        forall|e: int, m: int|
            #[trigger] enters_and_stays(instants@, e, m) ==> s.cutoff == Some(e as usize),
{
    proof {
        assert(instants@.len() == instants.len());
        assert forall|e: int, m: int| #[trigger] enters_and_stays(instants@, e, m) implies full_scan(
            instants@,
        ).cutoff == Some(e as usize) by {
            lemma_cut_at_entry(instants@, e, m);
        }
    }
    let n: usize = instants.len();
    let mut s: TrimScan = TrimScan {
        first_seen: false,
        stationary: true,
        in_faceoff: false,
        missing: 0,
        start: 0,
        earliest_in_goal: None,
        interval_first: None,
        interval_last: None,
        cutoff: None,
        stopped: false,
    };
    let mut i: usize = 0;
    while i < n
        invariant
            i <= n,
            n == instants.len(),
            s == trim_scan(instants@, i as int),
            scan_bounded(s, i as int),
        decreases n - i,
    {
        s = step(s, i, instants[i], n);
        i = i + 1;
    }
    s
}

/// The indices of the present instants in `[lo, hi)`, in increasing order.
pub fn kept_instants(instants: &Vec<Option<InstantFeatures>>, lo: usize, hi: usize) -> (kept: Vec<
    usize,
>)
    requires
        lo <= hi <= instants.len(),
    ensures
        kept@ == present_in(instants@, lo as int, hi as int),
{
    let mut kept: Vec<usize> = Vec::new();
    let mut i: usize = lo;
    while i < hi
        invariant
            lo <= i <= hi <= instants.len(),
            kept@ == present_in(instants@, lo as int, i as int),
        decreases hi - i,
    {
        if instants[i].is_some() {
            kept.push(i);
        }
        i = i + 1;
    }
    kept
}

/// Trims a goal's track, both at the start and at the end, and drops the
/// missing instants: returns the indices of the instants kept, in order.
pub fn trim_goal_coords(instants: &Vec<Option<InstantFeatures>>) -> (kept: Vec<usize>)
    requires
        trim_range_ok(instants@),
    ensures
        kept@ == present_in(
            instants@,
            full_scan(instants@).start as int,
            kept_end(full_scan(instants@), instants.len() as int),
        ),
{
    let s = scan_trim_points(instants);
    let end: usize = match s.cutoff {
        Some(c) => c + 1,
        None => instants.len(),
    };
    kept_instants(instants, s.start, end)
}

/// Number of missing instants among the first `k`.
pub open spec fn count_missing(instants: Seq<Option<InstantFeatures>>, k: int) -> nat
    decreases k,
{
    if k <= 0 {
        0
    } else {
        count_missing(instants, k - 1) + if instants[k - 1] is None { 1nat } else { 0nat }
    }
}

/// The kept indices are exactly the present instants of `[lo, hi)`, in
/// strictly increasing order.
pub proof fn lemma_present_in(instants: Seq<Option<InstantFeatures>>, lo: int, hi: int)
    requires
        0 <= lo <= hi <= instants.len(),
        instants.len() <= usize::MAX,
    ensures
        forall|k: int|
            0 <= k < present_in(instants, lo, hi).len() ==> lo <= #[trigger] present_in(
                instants,
                lo,
                hi,
            )[k] < hi && instants[present_in(instants, lo, hi)[k] as int] is Some,
        forall|k1: int, k2: int|
            0 <= k1 < k2 < present_in(instants, lo, hi).len() ==> #[trigger] present_in(
                instants,
                lo,
                hi,
            )[k1] < #[trigger] present_in(instants, lo, hi)[k2],
        forall|i: int|
            lo <= i < hi && #[trigger] instants[i] is Some ==> present_in(instants, lo, hi).contains(
                i as usize,
            ),
    decreases hi - lo,
{
    if hi > lo {
        lemma_present_in(instants, lo, hi - 1);
        let before = present_in(instants, lo, hi - 1);
        if instants[hi - 1] is Some {
            let after = before.push((hi - 1) as usize);
            assert(present_in(instants, lo, hi) == after);
            assert forall|k: int| 0 <= k < after.len() implies lo <= #[trigger] after[k] < hi
                && instants[after[k] as int] is Some by {
                if k < before.len() {
                    assert(after[k] == before[k]);
                }
            }
            assert forall|k1: int, k2: int| 0 <= k1 < k2 < after.len() implies #[trigger] after[k1]
                < #[trigger] after[k2] by {
                assert(after[k1] == before[k1]);
                assert(lo <= before[k1] < hi - 1);
                if k2 < before.len() {
                    assert(after[k2] == before[k2]);
                }
            }
            assert forall|i: int| lo <= i < hi && #[trigger] instants[i] is Some implies after.contains(
                i as usize,
            ) by {
                if i < hi - 1 {
                    assert(instants[i] is Some);
                    assert(before.contains(i as usize));
                    let k = choose|k: int| 0 <= k < before.len() && before[k] == i as usize;
                    assert(after[k] == i as usize);
                } else {
                    assert(after[before.len() as int] == i as usize);
                }
            }
        }
    }
}

/// A track whose puck never enters the net area is not cut at the end: the
/// scan records no cutoff, so the kept range reaches the last instant and the
/// range is always well formed.
pub proof fn lemma_no_goal_no_cutoff(instants: Seq<Option<InstantFeatures>>)
    requires
        forall|i: int|
            0 <= i < instants.len() ==> (#[trigger] instants[i] matches Some(f) ==> !f.in_goal_area),
    ensures
        full_scan(instants).cutoff is None,
        kept_end(full_scan(instants), instants.len() as int) == instants.len(),
        trim_range_ok(instants),
{
    lemma_no_goal_prefix(instants, instants.len() as int);
    lemma_scan_bounded(instants, instants.len() as int);
}

proof fn lemma_no_goal_prefix(instants: Seq<Option<InstantFeatures>>, k: int)
    requires
        0 <= k <= instants.len(),
        forall|i: int|
            0 <= i < instants.len() ==> (#[trigger] instants[i] matches Some(f) ==> !f.in_goal_area),
    ensures
        trim_scan(instants, k).cutoff is None,
        !trim_scan(instants, k).stopped,
    decreases k,
{
    if k > 0 {
        lemma_no_goal_prefix(instants, k - 1);
        let _ = instants[k - 1];
    }
}

/// The count of missing instants that the scan keeps never exceeds the true count.
proof fn lemma_missing_counted(instants: Seq<Option<InstantFeatures>>, k: int)
    requires
        0 <= k <= instants.len(),
    ensures
        trim_scan(instants, k).missing <= count_missing(instants, k),
    decreases k,
{
    if k > 0 {
        lemma_missing_counted(instants, k - 1);
    }
}

/// Whether none of the first present instants checked at the start (the
/// present instants with at most `NUM_FIRST_X_CHECK` present instants before
/// them) is near a faceoff dot.
pub open spec fn no_early_faceoff(instants: Seq<Option<InstantFeatures>>) -> bool {
    forall|i: int|
        0 <= i < instants.len() && i - count_missing(instants, i) <= NUM_FIRST_X_CHECK ==> (
        #[trigger] instants[i] matches Some(f) ==> !f.near_faceoff_dot)
}

/// Until the scan stops, its count of missing instants is exact.
proof fn lemma_missing_exact(instants: Seq<Option<InstantFeatures>>, k: int)
    requires
        0 <= k <= instants.len(),
        instants.len() <= usize::MAX,
    ensures
        !trim_scan(instants, k).stopped ==> trim_scan(instants, k).missing == count_missing(instants, k),
    decreases k,
{
    if k > 0 {
        lemma_missing_exact(instants, k - 1);
        lemma_scan_bounded(instants, k - 1);
        let _ = instants[k - 1];
    }
}

/// When the puck is near no faceoff dot at the first present instants, the
/// start of the track is cut only where instants are missing: every instant
/// before the first one kept is missing.
pub proof fn lemma_start_cut_only_missing(instants: Seq<Option<InstantFeatures>>)
    requires
        instants.len() <= usize::MAX,
        no_early_faceoff(instants),
    ensures
        forall|j: int| 0 <= j < full_scan(instants).start ==> #[trigger] instants[j] is None,
{
    lemma_start_missing_prefix(instants, instants.len() as int);
}

#[verifier::rlimit(40)]
proof fn lemma_start_missing_prefix(instants: Seq<Option<InstantFeatures>>, k: int)
    requires
        0 <= k <= instants.len(),
        instants.len() <= usize::MAX,
        no_early_faceoff(instants),
    ensures
        !trim_scan(instants, k).in_faceoff,
        trim_scan(instants, k).start > 0 ==> trim_scan(instants, k).start < k && forall|j: int|
            0 <= j <= trim_scan(instants, k).start ==> #[trigger] instants[j] is None,
        trim_scan(instants, k).start == 0 ==> forall|j: int|
            0 <= j < trim_scan(instants, k).start ==> #[trigger] instants[j] is None,
    decreases k,
{
    if k > 0 {
        lemma_start_missing_prefix(instants, k - 1);
        lemma_missing_counted(instants, k - 1);
        lemma_missing_exact(instants, k - 1);
        lemma_scan_bounded(instants, k - 1);
        let s = trim_scan(instants, k - 1);
        let t = trim_scan(instants, k);
        let i = k - 1;
        assert(t == trim_step(s, i as usize, instants[i], instants.len() as usize));
        if !s.stopped {
            match instants[i] {
                None => {
                    if i == s.start + 1 && s.missing + 1 > 1 {
                        assert(t.start == i);
                        if s.start == 0 {
                            assert(count_missing(instants, 1) == count_missing(instants, 0) + if instants[0] is None {
                                1nat
                            } else {
                                0nat
                            });
                            assert(instants[0] is None);
                        }
                        assert forall|j: int| 0 <= j <= t.start implies #[trigger] instants[j] is None by {
                            if j < i {
                                assert(j <= s.start);
                            }
                        }
                    } else {
                        assert(t.start == s.start);
                    }
                },
                Some(f) => {
                    if i - s.missing <= NUM_FIRST_X_CHECK {
                        assert(!f.near_faceoff_dot);
                    }
                    assert(!t.in_faceoff);
                    assert(t.start == s.start);
                },
            }
        }
    }
}

/// Whether instant `i` is present with the puck in the net area.
pub open spec fn in_goal_at(instants: Seq<Option<InstantFeatures>>, i: int) -> bool {
    0 <= i < instants.len() && (instants[i] matches Some(f) && f.in_goal_area)
}

/// When the end of a track is cut, it is cut at an instant where the puck is
/// in the net area.
pub proof fn lemma_cutoff_in_goal(instants: Seq<Option<InstantFeatures>>)
    requires
        instants.len() <= usize::MAX,
    ensures
        full_scan(instants).cutoff matches Some(c) ==> in_goal_at(instants, c as int),
{
    lemma_cutoff_in_goal_prefix(instants, instants.len() as int);
}

#[verifier::rlimit(40)]
proof fn lemma_cutoff_in_goal_prefix(instants: Seq<Option<InstantFeatures>>, k: int)
    requires
        0 <= k <= instants.len(),
        instants.len() <= usize::MAX,
    ensures
        trim_scan(instants, k).cutoff matches Some(c) ==> in_goal_at(instants, c as int),
        trim_scan(instants, k).interval_first matches Some(f) ==> in_goal_at(instants, f as int),
    decreases k,
{
    if k > 0 {
        lemma_cutoff_in_goal_prefix(instants, k - 1);
        lemma_scan_bounded(instants, k - 1);
        let _ = instants[k - 1];
    }
}

/// A track whose puck enters the net area is cut at the end.
pub proof fn lemma_goal_entry_cut(instants: Seq<Option<InstantFeatures>>, i: int)
    requires
        instants.len() <= usize::MAX,
        in_goal_at(instants, i),
    ensures
        full_scan(instants).cutoff is Some,
        full_scan(instants).cutoff matches Some(c) ==> in_goal_at(instants, c as int),
{
    lemma_goal_entry_prefix(instants, instants.len() as int, i);
    lemma_cutoff_in_goal(instants);
}

#[verifier::rlimit(40)]
proof fn lemma_goal_entry_prefix(instants: Seq<Option<InstantFeatures>>, k: int, g: int)
    requires
        0 <= k <= instants.len(),
        instants.len() <= usize::MAX,
        in_goal_at(instants, g),
    ensures
        g < k ==> trim_scan(instants, k).cutoff is Some,
        trim_scan(instants, k).stopped ==> trim_scan(instants, k).cutoff is Some,
        trim_scan(instants, k).interval_first is Some ==> trim_scan(instants, k).cutoff is Some,
    decreases k,
{
    if k > 0 {
        lemma_goal_entry_prefix(instants, k - 1, g);
        lemma_scan_bounded(instants, k - 1);
        let _ = instants[k - 1];
    }
}

/// Whether the puck first enters the net area at instant `e`, before 60% of
/// the track, and is in the net area at every instant from `e` through `m`,
/// an instant at 60% of the track or later.
pub open spec fn enters_and_stays(instants: Seq<Option<InstantFeatures>>, e: int, m: int) -> bool {
    &&& 0 <= e <= m < instants.len()
    &&& forall|j: int| 0 <= j < e ==> !in_goal_at(instants, j)
    &&& frac_below(e, instants.len() as int, 60)
    &&& !frac_below(m, instants.len() as int, 60)
    &&& forall|j: int| e <= j <= m ==> in_goal_at(instants, j)
}

/// Once the scan has stopped, later instants change nothing.
proof fn lemma_stopped_frozen(instants: Seq<Option<InstantFeatures>>, k: int, k2: int)
    requires
        0 <= k <= k2 <= instants.len(),
        trim_scan(instants, k).stopped,
    ensures
        trim_scan(instants, k2) == trim_scan(instants, k),
    decreases k2 - k,
{
    if k2 > k {
        lemma_stopped_frozen(instants, k, k2 - 1);
    }
}

#[verifier::rlimit(40)]
proof fn lemma_before_entry(instants: Seq<Option<InstantFeatures>>, k: int, e: int)
    requires
        0 <= k <= e < instants.len(),
        instants.len() <= usize::MAX,
        forall|j: int| 0 <= j < e ==> !in_goal_at(instants, j),
    ensures
        !trim_scan(instants, k).stopped,
        trim_scan(instants, k).cutoff is None,
        trim_scan(instants, k).interval_first is None,
        trim_scan(instants, k).earliest_in_goal is None,
    decreases k,
{
    if k > 0 {
        lemma_before_entry(instants, k - 1, e);
        lemma_scan_bounded(instants, k - 1);
        assert(!in_goal_at(instants, k - 1));
        let _ = instants[k - 1];
    }
}

#[verifier::rlimit(40)]
proof fn lemma_after_entry(instants: Seq<Option<InstantFeatures>>, k: int, e: int, m: int)
    requires
        e < k <= m + 1,
        instants.len() <= usize::MAX,
        enters_and_stays(instants, e, m),
    ensures
        trim_scan(instants, k).cutoff == Some(e as usize),
        trim_scan(instants, k).earliest_in_goal == Some(e as usize),
        !trim_scan(instants, k).stopped ==> {
            &&& follows_runs(e, instants.len() as int)
            &&& trim_scan(instants, k).interval_first == Some(e as usize)
            &&& trim_scan(instants, k).interval_last == Some((k - 1) as usize)
        },
        k == m + 1 ==> trim_scan(instants, k).stopped,
    decreases k,
{
    let n = instants.len() as int;
    lemma_scan_bounded(instants, k - 1);
    assert(in_goal_at(instants, k - 1));
    let _ = instants[k - 1];
    if k == e + 1 {
        lemma_before_entry(instants, e, e);
        if !follows_runs(e, n) {
            assert(cuts_at_once(e, n));
        }
    } else {
        lemma_after_entry(instants, k - 1, e, m);
    }
}

/// When the puck first enters the net area before 60% of the track and stays
/// there through the 60% mark, the end is cut at the entry instant: the cutoff
/// is the first instant of the run in the net, not where the scan stops.
pub proof fn lemma_cut_at_entry(instants: Seq<Option<InstantFeatures>>, e: int, m: int)
    requires
        instants.len() <= usize::MAX,
        enters_and_stays(instants, e, m),
    ensures
        full_scan(instants).cutoff == Some(e as usize),
        kept_end(full_scan(instants), instants.len() as int) == e + 1,
{
    lemma_after_entry(instants, m + 1, e, m);
    lemma_stopped_frozen(instants, m + 1, instants.len() as int);
}

} // verus!
