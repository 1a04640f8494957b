//! The click gate of the adaptive camera: the activation-window rule that
//! decides which clicks count, the retro-inclusion of a rapid
//! predecessor, and the merging of gated clicks into time clusters.
//! These rules are pure functions of the click timestamps; the
//! surrounding simulation attaches positions and bounding rectangles to
//! the clicks that pass.

use vstd::prelude::*;
use crate::capture::AutoZoomTriggerMode;

verus! {

/// How clicks arm the zoom, as the camera engine distinguishes them.
#[derive(Debug, Clone, Copy, PartialEq, Eq, Structural)]
pub enum ClickActivationMode {
    SingleClick,
    MultiClickWindow,
    CtrlClick,
}

/// The discrete knobs of the click gate.
#[derive(Debug, Clone, Copy, PartialEq, Eq, Structural)]
pub struct ClickGateConfig {
    pub click_activation_mode: ClickActivationMode,
    pub activation_window_ms: u64,
    pub min_clicks_to_activate: usize,
    pub click_cluster_gap_ms: u64,
    pub min_zoom_interval_ms: u64,
}

/// Maps a trigger mode onto the discrete gate settings: the one-click
/// modes fire on each click, the multi-click window demands two clicks
/// within three seconds and debounces with the wider gaps.
pub fn camera_config_for_trigger_mode(auto_zoom_trigger_mode: AutoZoomTriggerMode) -> (r:
    ClickGateConfig)
    ensures
        r.activation_window_ms == 3000,
        auto_zoom_trigger_mode == AutoZoomTriggerMode::SingleClick ==> r == (ClickGateConfig {
            click_activation_mode: ClickActivationMode::SingleClick,
            activation_window_ms: 3000u64,
            min_clicks_to_activate: 1usize,
            click_cluster_gap_ms: 1u64,
            min_zoom_interval_ms: 1u64,
        }),
        auto_zoom_trigger_mode == AutoZoomTriggerMode::CtrlClick ==> r == (ClickGateConfig {
            click_activation_mode: ClickActivationMode::CtrlClick,
            activation_window_ms: 3000u64,
            min_clicks_to_activate: 1usize,
            click_cluster_gap_ms: 1u64,
            min_zoom_interval_ms: 1u64,
        }),
        auto_zoom_trigger_mode == AutoZoomTriggerMode::MultiClickWindow ==> r == (ClickGateConfig {
            click_activation_mode: ClickActivationMode::MultiClickWindow,
            activation_window_ms: 3000u64,
            min_clicks_to_activate: 2usize,
            click_cluster_gap_ms: 300u64,
            min_zoom_interval_ms: 2000u64,
        }),
{
    match auto_zoom_trigger_mode {
        AutoZoomTriggerMode::SingleClick => ClickGateConfig {
            click_activation_mode: ClickActivationMode::SingleClick,
            activation_window_ms: 3000,
            min_clicks_to_activate: 1,
            click_cluster_gap_ms: 1,
            min_zoom_interval_ms: 1,
        },
        AutoZoomTriggerMode::CtrlClick => ClickGateConfig {
            click_activation_mode: ClickActivationMode::CtrlClick,
            activation_window_ms: 3000,
            min_clicks_to_activate: 1,
            click_cluster_gap_ms: 1,
            min_zoom_interval_ms: 1,
        },
        AutoZoomTriggerMode::MultiClickWindow => ClickGateConfig {
            click_activation_mode: ClickActivationMode::MultiClickWindow,
            activation_window_ms: 3000,
            min_clicks_to_activate: 2,
            click_cluster_gap_ms: 300,
            min_zoom_interval_ms: 2000,
        },
    }
}

/// A timestamp minus a span, stopping at zero.
pub open spec fn sat_sub(a: int, b: int) -> int {
    if a >= b {
        a - b
    } else {
        0
    }
}

/// Where the trailing activation window of click `i` begins inside the
/// click list: the walk left from `i` over clicks no older than
/// `start`.
pub open spec fn window_left(ts: Seq<u64>, i: int, start: int) -> int
    decreases i,
{
    if i > 0 && ts[i - 1] >= start {
        window_left(ts, i - 1, start)
    } else {
        i
    }
}

/// Whether click `i` passes the activation rule on its own: at least
/// `min_clicks` clicks (itself included) lie within the trailing
/// activation window ending at it.
pub open spec fn directly_selected(ts: Seq<u64>, window_ms: int, min_clicks: int, i: int) -> bool {
    let w = if window_ms >= 1 {
        window_ms
    } else {
        1
    };
    let start = sat_sub(ts[i] as int, w);
    i + 1 - window_left(ts, i, start) >= min_clicks
}

/// Whether click `i` counts: it passes the rule itself, or its immediate
/// successor does and follows it within the rapid-click gap.
pub open spec fn click_selected(
    ts: Seq<u64>,
    window_ms: int,
    min_clicks: int,
    rapid_gap_ms: int,
    i: int,
) -> bool {
    let g = if rapid_gap_ms >= 1 {
        rapid_gap_ms
    } else {
        1
    };
    directly_selected(ts, window_ms, min_clicks, i) || (i + 1 < ts.len() && directly_selected(
        ts,
        window_ms,
        min_clicks,
        i + 1,
    ) && sat_sub(ts[i + 1] as int, ts[i] as int) <= g)
}

/// The timestamps of the first `i` clicks that count, in order.
pub open spec fn gate_keep(
    ts: Seq<u64>,
    window_ms: int,
    min_clicks: int,
    rapid_gap_ms: int,
    i: int,
) -> Seq<u64>
    decreases i,
{
    if i <= 0 {
        Seq::empty()
    } else {
        let prev = gate_keep(ts, window_ms, min_clicks, rapid_gap_ms, i - 1);
        if click_selected(ts, window_ms, min_clicks, rapid_gap_ms, i - 1) {
            prev.push(ts[i - 1])
        } else {
            prev
        }
    }
}

/// The gated click list: empty when there are fewer clicks than the
/// activation minimum, else every click that counts.
pub open spec fn spec_gate(
    ts: Seq<u64>,
    window_ms: int,
    min_clicks: int,
    rapid_gap_ms: int,
) -> Seq<u64> {
    let m = if min_clicks >= 1 {
        min_clicks
    } else {
        1
    };
    if ts.len() < m {
        Seq::empty()
    } else {
        gate_keep(ts, window_ms, min_clicks, rapid_gap_ms, ts.len() as int)
    }
}

/// Filters click timestamps through the activation-window rule: a click
/// counts if at least `min_clicks` clicks fall inside the trailing
/// `window_ms` window ending at it; a click that counts also pulls in
/// its immediate predecessor when that one precedes it by no more than
/// `rapid_gap_ms`.
pub fn filter_clicks_by_activation_window(
    clicks: &Vec<u64>,
    window_ms: u64,
    min_clicks: usize,
    rapid_gap_ms: u64,
) -> (r: Vec<u64>)
    ensures
        r@ == spec_gate(clicks@, window_ms as int, min_clicks as int, rapid_gap_ms as int),
{
    let n: usize = clicks.len();
    let min_eff: usize = if min_clicks >= 1 {
        min_clicks
    } else {
        1
    };
    if n < min_eff {
        return Vec::new();
    }
    let w_eff: u64 = if window_ms >= 1 {
        window_ms
    } else {
        1
    };
    let g_eff: u64 = if rapid_gap_ms >= 1 {
        rapid_gap_ms
    } else {
        1
    };
    let mut marks: Vec<bool> = Vec::new();
    let mut z: usize = 0;
    while z < n
        invariant
            0 <= z <= n,
            marks@.len() == z,
            forall|k: int| 0 <= k < z ==> marks@[k] == false,
        decreases n - z,
    {
        marks.push(false);
        z = z + 1;
    }
    let ghost tsv: Seq<u64> = clicks@;
    let ghost wi: int = window_ms as int;
    let ghost mi: int = min_clicks as int;
    let ghost gi: int = rapid_gap_ms as int;
    let mut idx: usize = 0;
    while idx < n
        invariant
            n == tsv.len(),
            tsv == clicks@,
            wi == window_ms as int,
            mi == min_clicks as int,
            gi == rapid_gap_ms as int,
            w_eff == if wi >= 1 {
                wi
            } else {
                1int
            },
            g_eff == if gi >= 1 {
                gi
            } else {
                1int
            },
            0 <= idx <= n,
            marks@.len() == n,
            forall|k: int|
                0 <= k < idx - 1 ==> marks@[k] == click_selected(tsv, wi, mi, gi, k),
            idx >= 1 ==> marks@[idx - 1] == directly_selected(tsv, wi, mi, idx - 1),
            forall|k: int| idx <= k < n ==> marks@[k] == false,
        decreases n - idx,
    {
        let click_ts: u64 = clicks[idx];
        let window_start: u64 = if click_ts >= w_eff {
            click_ts - w_eff
        } else {
            0
        };
        let mut left: usize = idx;
        while left > 0 && clicks[left - 1] >= window_start
            invariant
                n == tsv.len(),
                tsv == clicks@,
                0 <= left <= idx < n,
                window_start == sat_sub(tsv[idx as int] as int, if wi >= 1 {
                    wi
                } else {
                    1int
                }),
                window_left(tsv, idx as int, window_start as int) == window_left(
                    tsv,
                    left as int,
                    window_start as int,
                ),
            decreases left,
        {
            left = left - 1;
        }
        proof {
            assert(window_left(tsv, left as int, window_start as int) == left);
        }
        let count: usize = idx + 1 - left;
        let ghost pre_marks: Seq<bool> = marks@;
        if count >= min_clicks {
            marks.set(idx, true);
            if idx > 0 && clicks[idx].saturating_sub(clicks[idx - 1]) <= g_eff {
                marks.set(idx - 1, true);
            }
        }
        proof {
            assert(directly_selected(tsv, wi, mi, idx as int) == (count >= min_clicks));
            if idx >= 1 {
                assert(marks@[idx - 1] == click_selected(tsv, wi, mi, gi, idx - 1));
            }
            assert(marks@[idx as int] == directly_selected(tsv, wi, mi, idx as int));
        }
        idx = idx + 1;
    }
    let mut result: Vec<u64> = Vec::new();
    let mut i: usize = 0;
    proof {
        if n >= 1 {
            assert(marks@[n - 1] == click_selected(tsv, wi, mi, gi, n - 1));
        }
    }
    while i < n
        invariant
            n == tsv.len(),
            tsv == clicks@,
            wi == window_ms as int,
            mi == min_clicks as int,
            gi == rapid_gap_ms as int,
            0 <= i <= n,
            marks@.len() == n,
            forall|k: int| 0 <= k < n ==> marks@[k] == click_selected(tsv, wi, mi, gi, k),
            result@ == gate_keep(tsv, wi, mi, gi, i as int),
        decreases n - i,
    {
        if marks[i] {
            result.push(clicks[i]);
        }
        i = i + 1;
    }
    proof {
        assert((if mi >= 1 {
            mi
        } else {
            1int
        }) == min_eff as int);
    }
    result
}

/// An isolated click never passes a gate that demands more than one
/// click: with `min_clicks` of at least two, a single click yields no
/// gated clicks and so no cluster at all — the camera never locks onto
/// it.
pub proof fn lemma_single_click_not_gated(
    t: u64,
    window_ms: int,
    min_clicks: int,
    rapid_gap_ms: int,
    cluster_gap_ms: int,
)
    requires
        min_clicks >= 2,
    ensures
        spec_gate(seq![t], window_ms, min_clicks, rapid_gap_ms) == Seq::<u64>::empty(),
        spec_cluster_spans(
            spec_gate(seq![t], window_ms, min_clicks, rapid_gap_ms),
            cluster_gap_ms,
        ) == Seq::<ClusterSpan>::empty(),
{
    assert(seq![t].len() == 1);
}

/// Two clicks within one activation window do pass a two-click gate:
/// the later click counts, and the earlier one counts exactly when it
/// precedes the later by no more than the rapid-click gap.
pub proof fn lemma_click_pair_gated(t1: u64, t2: u64, window_ms: int, rapid_gap_ms: int)
    requires
        t1 <= t2,
        window_ms >= 1,
        rapid_gap_ms >= 1,
        t2 - t1 <= window_ms,
    ensures
        spec_gate(seq![t1, t2], window_ms, 2, rapid_gap_ms) == if t2 - t1 <= rapid_gap_ms {
            seq![t1, t2]
        } else {
            seq![t2]
        },
{
    reveal_with_fuel(window_left, 3);
    reveal_with_fuel(gate_keep, 3);
    let ts = seq![t1, t2];
    let start2 = sat_sub(t2 as int, window_ms);
    assert(ts[0] == t1 && ts[1] == t2);
    assert(t1 >= start2);
    assert(window_left(ts, 1, start2) == 0);
    assert(directly_selected(ts, window_ms, 2, 1));
    let start1 = sat_sub(t1 as int, window_ms);
    assert(window_left(ts, 0, start1) == 0);
    assert(!directly_selected(ts, window_ms, 2, 0));
    assert(click_selected(ts, window_ms, 2, rapid_gap_ms, 1));
    assert(click_selected(ts, window_ms, 2, rapid_gap_ms, 0) == (t2 - t1 <= rapid_gap_ms));
    assert(gate_keep(ts, window_ms, 2, rapid_gap_ms, 0) =~= Seq::<u64>::empty());
    if t2 - t1 <= rapid_gap_ms {
        assert(gate_keep(ts, window_ms, 2, rapid_gap_ms, 2) =~= seq![t1, t2]);
    } else {
        assert(gate_keep(ts, window_ms, 2, rapid_gap_ms, 2) =~= seq![t2]);
    }
}

/// One cluster of gated clicks: its first and last click timestamp and
/// how many clicks it merged.
#[derive(Debug, Clone, Copy, PartialEq, Eq, Structural)]
pub struct ClusterSpan {
    pub start_ts: u64,
    pub end_ts: u64,
    pub click_count: usize,
}

/// The cluster list after consuming the first `i` clicks: the finished
/// clusters and the one still open. Consecutive clicks merge into the
/// open cluster while the gap from its end is at most `gap_ms`.
pub open spec fn cluster_scan(ts: Seq<u64>, gap_ms: int, i: int) -> (Seq<ClusterSpan>, ClusterSpan)
    decreases i,
{
    if i <= 1 {
        (
            Seq::empty(),
            ClusterSpan { start_ts: ts[0], end_ts: ts[0], click_count: 1usize },
        )
    } else {
        let prev = cluster_scan(ts, gap_ms, i - 1);
        let cur = prev.1;
        if sat_sub(ts[i - 1] as int, cur.end_ts as int) <= gap_ms {
            (
                prev.0,
                ClusterSpan {
                    start_ts: cur.start_ts,
                    end_ts: ts[i - 1],
                    click_count: (cur.click_count + 1) as usize,
                },
            )
        } else {
            (
                prev.0.push(cur),
                ClusterSpan { start_ts: ts[i - 1], end_ts: ts[i - 1], click_count: 1usize },
            )
        }
    }
}

/// The clusters of a gated click list: each maximal run of consecutive
/// clicks whose gaps stay within `gap_ms`.
pub open spec fn spec_cluster_spans(ts: Seq<u64>, gap_ms: int) -> Seq<ClusterSpan> {
    if ts.len() == 0 {
        Seq::empty()
    } else {
        let scan = cluster_scan(ts, gap_ms, ts.len() as int);
        scan.0.push(scan.1)
    }
}

/// Merges consecutive gated clicks into clusters: a click joins the open
/// cluster when it follows the cluster's end within `gap_ms`, else it
/// opens a new one. Every click lands in exactly one cluster.
pub fn cluster_click_spans(clicks: &Vec<u64>, gap_ms: u64) -> (r: Vec<ClusterSpan>)
    ensures
        r@ == spec_cluster_spans(clicks@, gap_ms as int),
{
    let n: usize = clicks.len();
    if n == 0 {
        return Vec::new();
    }
    let mut finished: Vec<ClusterSpan> = Vec::new();
    let mut cur: ClusterSpan = ClusterSpan {
        start_ts: clicks[0],
        end_ts: clicks[0],
        click_count: 1,
    };
    let mut i: usize = 1;
    while i < n
        invariant
            n == clicks@.len(),
            1 <= i <= n,
            cur.click_count <= i,
            (finished@, cur) == cluster_scan(clicks@, gap_ms as int, i as int),
        decreases n - i,
    {
        let ts: u64 = clicks[i];
        if ts.saturating_sub(cur.end_ts) <= gap_ms {
            cur = ClusterSpan {
                start_ts: cur.start_ts,
                end_ts: ts,
                click_count: cur.click_count + 1,
            };
        } else {
            finished.push(cur);
            cur = ClusterSpan { start_ts: ts, end_ts: ts, click_count: 1 };
        }
        i = i + 1;
    }
    finished.push(cur);
    finished
}


/// One trailing-speed observation: when it was taken and whether the
/// cursor was then still moving faster than the pre-roll threshold.
#[derive(Debug, Clone, Copy, PartialEq, Eq, Structural)]
pub struct SpeedSample {
    pub ts: u64,
    pub fast: bool,
}

/// The observations of the first `i` samples that fall into the window
/// `[lo, hi]`, in order.
pub open spec fn window_filter(samples: Seq<SpeedSample>, lo: int, hi: int, i: int) -> Seq<
    SpeedSample,
>
    decreases i,
{
    if i <= 0 {
        Seq::empty()
    } else {
        let prev = window_filter(samples, lo, hi, i - 1);
        if lo <= samples[i - 1].ts <= hi {
            prev.push(samples[i - 1])
        } else {
            prev
        }
    }
}

/// The first position in `w` whose predecessor was fast while it is no
/// longer: where the cursor crossed below the speed threshold.
pub open spec fn first_crossing(w: Seq<SpeedSample>, j: int) -> Option<int>
    decreases w.len() - j,
{
    if !(1 <= j < w.len()) {
        None
    } else if w[j - 1].fast && !w[j].fast {
        Some(j)
    } else {
        first_crossing(w, j + 1)
    }
}

/// When the camera move for a click should start: at the click itself
/// when no speed observation falls into the lookahead window or the
/// cursor is still fast at the click; at the first crossing below the
/// threshold when the cursor decelerated inside the window; else at the
/// window's first observation. Never after the click.
pub open spec fn spec_preroll_start(click_ts: int, samples: Seq<SpeedSample>, lookahead_ms: int) -> int {
    let look = if lookahead_ms >= 1 {
        lookahead_ms
    } else {
        1
    };
    let lo = sat_sub(click_ts, look);
    let w = window_filter(samples, lo, click_ts, samples.len() as int);
    if w.len() == 0 {
        click_ts
    } else if w.last().fast {
        click_ts
    } else {
        match first_crossing(w, 1) {
            Some(j) => if w[j].ts <= click_ts {
                w[j].ts as int
            } else {
                click_ts
            },
            None => if w[0].ts <= click_ts {
                w[0].ts as int
            } else {
                click_ts
            },
        }
    }
}

/// Chooses the pre-roll start for a click from the trailing speed
/// observations: a fast flick is not anticipated, a deceleration inside
/// the lookahead window leads the camera in from the crossing point.
pub fn choose_preroll_start(click_ts: u64, samples: &Vec<SpeedSample>, max_lookahead_ms: u64) -> (r:
    u64)
    ensures
        r == spec_preroll_start(click_ts as int, samples@, max_lookahead_ms as int),
        r <= click_ts,
{
    let look: u64 = if max_lookahead_ms >= 1 {
        max_lookahead_ms
    } else {
        1
    };
    let lo: u64 = if click_ts >= look {
        click_ts - look
    } else {
        0
    };
    let mut w: Vec<SpeedSample> = Vec::new();
    let mut i: usize = 0;
    while i < samples.len()
        invariant
            0 <= i <= samples@.len(),
            lo == sat_sub(click_ts as int, if max_lookahead_ms as int >= 1 {
                max_lookahead_ms as int
            } else {
                1int
            }),
            w@ == window_filter(samples@, lo as int, click_ts as int, i as int),
        decreases samples@.len() - i,
    {
        let sample: SpeedSample = samples[i];
        if lo <= sample.ts && sample.ts <= click_ts {
            w.push(sample);
        }
        i = i + 1;
    }
    let wl: usize = w.len();
    if wl == 0 {
        return click_ts;
    }
    if w[wl - 1].fast {
        return click_ts;
    }
    let mut j: usize = 1;
    while j < wl
        invariant
            wl == w@.len(),
            wl >= 1,
            1 <= j <= wl,
            w@ == window_filter(
                samples@,
                sat_sub(click_ts as int, if max_lookahead_ms as int >= 1 {
                    max_lookahead_ms as int
                } else {
                    1int
                }),
                click_ts as int,
                samples@.len() as int,
            ),
            !w@.last().fast,
            first_crossing(w@, 1) == first_crossing(w@, j as int),
        decreases wl - j,
    {
        if w[j - 1].fast && !w[j].fast {
            let crossing: u64 = w[j].ts;
            return if crossing <= click_ts {
                crossing
            } else {
                click_ts
            };
        }
        j = j + 1;
    }
    let first: u64 = w[0].ts;
    if first <= click_ts {
        first
    } else {
        click_ts
    }
}

} // verus!
