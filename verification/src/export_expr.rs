//! Pure helpers of the export pipeline: mapping timeline time onto the
//! source clock, thinning point lists to a bounded count, compacting
//! click times, and rendering the fixed-format numbers and the click
//! pulse factor expression that the filter graph embeds.

use vstd::prelude::*;
use vstd::arithmetic::div_mod::{lemma_fundamental_div_mod, lemma_multiply_divide_le};
use crate::text::{
    concat_map, dec_digits, dec_digits_pad, lemma_concat_map_push, push_char, u64_to_dec,
    u64_to_dec_pad,
};

verus! {

/// How far cursor timing is shifted, in milliseconds, to compensate for
/// the capture pipeline's latency.
pub const CURSOR_TIMING_OFFSET_MS: u64 = 45;

/// A timeline timestamp mapped proportionally onto another clock:
/// `ts * to / from`, rounded half up, clamped to `to`; zero when either
/// duration is zero.
pub open spec fn spec_map_time_ms(ts: int, from: int, to: int) -> int {
    if from == 0 || to == 0 {
        0
    } else {
        let q = (ts * to) / from;
        let r = (ts * to) % from;
        let rounded = if 2 * r >= from {
            q + 1
        } else {
            q
        };
        if rounded > to {
            to
        } else {
            rounded
        }
    }
}

/// Maps a timestamp from one recording clock onto another, proportionally
/// by the two durations.
pub fn map_time_ms(ts: u64, from_duration_ms: u64, to_duration_ms: u64) -> (r: u64)
    ensures
        r == spec_map_time_ms(ts as int, from_duration_ms as int, to_duration_ms as int),
{
    if from_duration_ms == 0 || to_duration_ms == 0 {
        return 0;
    }
    proof {
        assert((ts as int) * (to_duration_ms as int) < 0xffffffffffffffffffffffffffffffff && (
        ts as int) * (to_duration_ms as int) >= 0) by (nonlinear_arith)
            requires
                0 <= (ts as int) < 0x1_0000_0000_0000_0000,
                0 <= (to_duration_ms as int) < 0x1_0000_0000_0000_0000,
        ;
    }
    let prod: u128 = (ts as u128) * (to_duration_ms as u128);
    let q: u128 = prod / (from_duration_ms as u128);
    let rem: u128 = prod % (from_duration_ms as u128);
    proof {
        vstd::arithmetic::div_mod::lemma_div_nonincreasing(prod as int, from_duration_ms as int);
        lemma_fundamental_div_mod(prod as int, from_duration_ms as int);
    }
    let rounded: u128 = if 2 * rem >= (from_duration_ms as u128) {
        q + 1
    } else {
        q
    };
    if rounded > to_duration_ms as u128 {
        to_duration_ms
    } else {
        rounded as u64
    }
}

/// Shifts a cursor timestamp later by the fixed timing offset, capped at
/// the recording duration.
pub fn apply_cursor_timing_offset_ms(ts_ms: u64, duration_ms: u64) -> (r: u64)
    ensures
        r == if ts_ms + CURSOR_TIMING_OFFSET_MS <= duration_ms {
            ts_ms + CURSOR_TIMING_OFFSET_MS
        } else {
            duration_ms as int
        },
{
    let shifted: u64 = if ts_ms > u64::MAX - CURSOR_TIMING_OFFSET_MS {
        u64::MAX
    } else {
        ts_ms + CURSOR_TIMING_OFFSET_MS
    };
    if shifted < duration_ms {
        shifted
    } else {
        duration_ms
    }
}

/// The subtitle clock format `H:MM:SS.CC` of a millisecond timestamp:
/// hours unpadded, minutes, seconds and centiseconds zero-padded to two
/// digits.
pub open spec fn spec_format_ass_time(ms: int) -> Seq<char> {
    let total_centis = ms / 10;
    let centis = total_centis % 100;
    let total_seconds = total_centis / 100;
    let seconds = total_seconds % 60;
    let total_minutes = total_seconds / 60;
    let minutes = total_minutes % 60;
    let hours = total_minutes / 60;
    dec_digits(hours) + seq![':'] + dec_digits_pad(minutes, 2) + seq![':'] + dec_digits_pad(
        seconds,
        2,
    ) + seq!['.'] + dec_digits_pad(centis, 2)
}

/// Formats a millisecond timestamp as a subtitle clock value.
pub fn format_ass_time(ms: u64) -> (r: String)
    ensures
        r@ == spec_format_ass_time(ms as int),
{
    let total_centis: u64 = ms / 10;
    let centis: u64 = total_centis % 100;
    let total_seconds: u64 = total_centis / 100;
    let seconds: u64 = total_seconds % 60;
    let total_minutes: u64 = total_seconds / 60;
    let minutes: u64 = total_minutes % 60;
    let hours: u64 = total_minutes / 60;
    let mut out: String = u64_to_dec(hours);
    push_char(&mut out, ':');
    let mm: String = u64_to_dec_pad(minutes, 2);
    let mut out2: String = out.concat(mm.as_str());
    push_char(&mut out2, ':');
    let ss: String = u64_to_dec_pad(seconds, 2);
    let mut out3: String = out2.concat(ss.as_str());
    push_char(&mut out3, '.');
    let cc: String = u64_to_dec_pad(centis, 2);
    let out4: String = out3.concat(cc.as_str());
    proof {
        assert(out4@ =~= spec_format_ass_time(ms as int));
    }
    out4
}

/// The decimal form `S.mmm` of a millisecond count: whole seconds, then
/// exactly three fractional digits.
pub open spec fn spec_format_seconds(ms: int) -> Seq<char> {
    dec_digits(ms / 1000) + seq!['.'] + dec_digits_pad(ms % 1000, 3)
}

/// Formats a millisecond count as seconds with three decimals.
pub fn format_seconds(ms: u64) -> (r: String)
    ensures
        r@ == spec_format_seconds(ms as int),
{
    let mut out: String = u64_to_dec(ms / 1000);
    push_char(&mut out, '.');
    let frac: String = u64_to_dec_pad(ms % 1000, 3);
    let out2: String = out.concat(frac.as_str());
    proof {
        assert(out2@ =~= spec_format_seconds(ms as int));
    }
    out2
}

/// The decimal form of a value counted in ten-thousandths: the whole
/// part, then exactly four fractional digits.
pub open spec fn e4_digits(v: int) -> Seq<char> {
    dec_digits(v / 10000) + seq!['.'] + dec_digits_pad(v % 10000, 4)
}

/// Formats a count of ten-thousandths with four fixed decimals.
fn format_e4(v: u64) -> (r: String)
    ensures
        r@ == e4_digits(v as int),
{
    let mut out: String = u64_to_dec(v / 10000);
    push_char(&mut out, '.');
    let frac: String = u64_to_dec_pad(v % 10000, 4);
    let out2: String = out.concat(frac.as_str());
    proof {
        assert(out2@ =~= e4_digits(v as int));
    }
    out2
}

/// The thinned point list grown by the first `i` of `max` evenly spread
/// samples: the sample index of step `i` is `i * (len - 1) / (max - 1)`,
/// and a step whose index repeats the previous one is skipped. Returns
/// the values taken and the last index taken (`-1` before the first).
pub open spec fn decimate_scan(points: Seq<u64>, max: int, i: int) -> (Seq<u64>, int)
    decreases i,
{
    if i <= 0 {
        (Seq::empty(), -1)
    } else {
        let prev = decimate_scan(points, max, i - 1);
        let k = (i - 1) * (points.len() - 1) / (max - 1);
        if k == prev.1 {
            prev
        } else {
            (prev.0.push(points[k]), k)
        }
    }
}

/// The thinned point list: unchanged when it already fits (or fewer than
/// two samples are allowed); otherwise `max` evenly spread samples,
/// index-deduplicated, with the last point appended when the sampling
/// did not end on its value.
pub open spec fn spec_decimate_u64(points: Seq<u64>, max: int) -> Seq<u64> {
    if points.len() <= max || max < 2 {
        points
    } else {
        let base = decimate_scan(points, max, max).0;
        if base.len() > 0 && base.last() == points.last() {
            base
        } else {
            base.push(points.last())
        }
    }
}

proof fn lemma_decimate_scan_props(points: Seq<u64>, max: int, i: int)
    requires
        points.len() > max >= 2,
        0 <= i <= max,
    ensures
        i == 0 ==> decimate_scan(points, max, i).1 == -1,
        i > 0 ==> 0 <= decimate_scan(points, max, i).1 <= points.len() - 1,
        i > 0 ==> decimate_scan(points, max, i).0.len() > 0,
    decreases i,
{
    if i > 0 {
        lemma_decimate_scan_props(points, max, i - 1);
        let k = (i - 1) * (points.len() - 1) / (max - 1);
        assert((i - 1) * (points.len() - 1) <= (max - 1) * (points.len() - 1)) by (nonlinear_arith)
            requires
                0 <= i - 1 <= max - 1,
                points.len() >= 1,
        ;
        lemma_multiply_divide_le((i - 1) * (points.len() - 1), max - 1, points.len() - 1);
        assert(k >= 0) by (nonlinear_arith)
            requires
                k == (i - 1) * (points.len() - 1) / (max - 1),
                i - 1 >= 0,
                points.len() - 1 >= 0,
                max - 1 > 0,
        ;
    }
}

/// Thins a point list to at most `max_points` evenly spread samples,
/// always keeping the last point's value.
pub fn decimate_u64_points(points: &Vec<u64>, max_points: usize) -> (r: Vec<u64>)
    ensures
        r@ == spec_decimate_u64(points@, max_points as int),
{
    let len: usize = points.len();
    if len <= max_points || max_points < 2 {
        let mut copy: Vec<u64> = Vec::new();
        let mut c: usize = 0;
        while c < points.len()
            invariant
                0 <= c <= points@.len(),
                copy@ == points@.subrange(0, c as int),
            decreases points@.len() - c,
        {
            copy.push(points[c]);
            proof {
                assert(points@.subrange(0, c as int).push(points@[c as int]) =~= points@.subrange(
                    0,
                    c + 1,
                ));
            }
            c = c + 1;
        }
        proof {
            assert(points@.subrange(0, points@.len() as int) =~= points@);
        }
        return copy;
    }
    let last_index: usize = len - 1;
    let max_index: usize = max_points - 1;
    let mut result: Vec<u64> = Vec::new();
    let mut prev_idx: usize = usize::MAX;
    let mut index: usize = 0;
    while index < max_points
        invariant
            points@.len() == len,
            len > max_points >= 2,
            last_index == len - 1,
            max_index == max_points - 1,
            0 <= index <= max_points,
            result@ == decimate_scan(points@, max_points as int, index as int).0,
            index == 0 ==> prev_idx == usize::MAX,
            index > 0 ==> prev_idx == decimate_scan(points@, max_points as int, index as int).1
                && prev_idx <= last_index,
        decreases max_points - index,
    {
        proof {
            lemma_decimate_scan_props(points@, max_points as int, index as int);
            lemma_decimate_scan_props(points@, max_points as int, index + 1);
            assert((index as int) * (last_index as int)
                < 0x1_0000_0000_0000_0000_0000_0000_0000_0000) by (nonlinear_arith)
                requires
                    0 <= (index as int) < 0x1_0000_0000_0000_0000,
                    0 <= (last_index as int) < 0x1_0000_0000_0000_0000,
            ;
            assert((index as int) * (last_index as int) <= (max_index as int) * (
            last_index as int)) by (nonlinear_arith)
                requires
                    0 <= (index as int) <= (max_index as int),
                    0 <= (last_index as int),
            ;
            lemma_multiply_divide_le(
                (index as int) * (last_index as int),
                max_index as int,
                last_index as int,
            );
        }
        let sample_idx_wide: u128 = ((index as u128) * (last_index as u128)) / (max_index as u128);
        let sample_idx: usize = sample_idx_wide as usize;
        if sample_idx == prev_idx {
            proof {
                assert(decimate_scan(points@, max_points as int, index + 1)
                    == decimate_scan(points@, max_points as int, index as int));
            }
        } else {
            result.push(points[sample_idx]);
        }
        prev_idx = sample_idx;
        index = index + 1;
    }
    proof {
        lemma_decimate_scan_props(points@, max_points as int, max_points as int);
    }
    let rl: usize = result.len();
    if result[rl - 1] != points[len - 1] {
        result.push(points[len - 1]);
    }
    result
}

/// Whether a sequence of timestamps is sorted in nondecreasing order.
pub open spec fn sorted_u64(s: Seq<u64>) -> bool {
    forall|a: int, b: int| 0 <= a <= b < s.len() ==> s[a] <= s[b]
}

/// The greedy gap filter over a sorted timestamp list: walk left to
/// right, keeping a timestamp only when it is at least `min_gap` after
/// the last one kept.
pub open spec fn greedy_gap_scan(s: Seq<u64>, min_gap: int, i: int) -> Seq<u64>
    decreases i,
{
    if i <= 0 {
        Seq::empty()
    } else {
        let prev = greedy_gap_scan(s, min_gap, i - 1);
        if prev.len() == 0 {
            prev.push(s[i - 1])
        } else if s[i - 1] >= prev.last() + min_gap {
            prev.push(s[i - 1])
        } else {
            prev
        }
    }
}

/// Sorts a timestamp list in nondecreasing order, keeping its multiset
/// of values.
fn sort_u64(points: &Vec<u64>) -> (r: Vec<u64>)
    ensures
        sorted_u64(r@),
        r@.to_multiset() == points@.to_multiset(),
{
    let mut out: Vec<u64> = Vec::new();
    let mut i: usize = 0;
    proof {
        assert(out@ =~= points@.subrange(0, 0));
    }
    while i < points.len()
        invariant
            0 <= i <= points@.len(),
            sorted_u64(out@),
            out@.to_multiset() == points@.subrange(0, i as int).to_multiset(),
        decreases points@.len() - i,
    {
        let v: u64 = points[i];
        let mut j: usize = out.len();
        while j > 0 && out[j - 1] > v
            invariant
                0 <= j <= out@.len(),
                sorted_u64(out@),
                forall|k: int| j <= k < out@.len() ==> out@[k] > v,
            decreases j,
        {
            j = j - 1;
        }
        let ghost old_out = out@;
        out.insert(j, v);
        proof {
            assert forall|a: int, b: int| 0 <= a <= b < out@.len() implies out@[a] <= out@[b] by {
                if a < j && b == j {
                    assert(out@[a] == old_out[a]);
                } else if a == j && b > j {
                    assert(out@[b] == old_out[b - 1]);
                } else if a < j && b > j {
                    assert(out@[a] == old_out[a] && out@[b] == old_out[b - 1]);
                } else if a > j && b > j {
                    assert(out@[a] == old_out[a - 1] && out@[b] == old_out[b - 1]);
                } else if a < j && b < j {
                    assert(out@[a] == old_out[a] && out@[b] == old_out[b]);
                }
            }
            assert(out@ =~= old_out.subrange(0, j as int).push(v) + old_out.subrange(
                j as int,
                old_out.len() as int,
            ));
            vstd::seq_lib::lemma_multiset_commutative(
                old_out.subrange(0, j as int).push(v),
                old_out.subrange(j as int, old_out.len() as int),
            );
            vstd::seq_lib::lemma_multiset_commutative(
                old_out.subrange(0, j as int),
                old_out.subrange(j as int, old_out.len() as int),
            );
            assert(old_out.subrange(0, j as int).push(v).to_multiset()
                =~= old_out.subrange(0, j as int).to_multiset().insert(v)) by {
                old_out.subrange(0, j as int).to_multiset_ensures();
            }
            assert(old_out.subrange(0, j as int) + old_out.subrange(
                j as int,
                old_out.len() as int,
            ) =~= old_out);
            assert(points@.subrange(0, i + 1) =~= points@.subrange(0, i as int).push(v));
            points@.subrange(0, i as int).to_multiset_ensures();
            old_out.to_multiset_ensures();
            assert(out@.to_multiset() =~= points@.subrange(0, i + 1).to_multiset());
        }
        i = i + 1;
    }
    proof {
        assert(points@.subrange(0, points@.len() as int) =~= points@);
    }
    out
}

/// What the greedy gap filter keeps is sorted, and consecutive kept
/// clicks are at least the minimum gap apart: the pulses they drive
/// never overlap.
pub proof fn lemma_greedy_gap_spacing(s: Seq<u64>, min_gap: int, i: int)
    requires
        sorted_u64(s),
        0 <= i <= s.len(),
        min_gap >= 0,
    ensures
        sorted_u64(greedy_gap_scan(s, min_gap, i)),
        forall|a: int|
            0 <= a < greedy_gap_scan(s, min_gap, i).len() - 1 ==> #[trigger] greedy_gap_scan(
                s,
                min_gap,
                i,
            )[a] + min_gap <= greedy_gap_scan(s, min_gap, i)[a + 1],
    decreases i,
{
    if i > 0 {
        lemma_greedy_gap_spacing(s, min_gap, i - 1);
        let prev = greedy_gap_scan(s, min_gap, i - 1);
        let r = greedy_gap_scan(s, min_gap, i);
        if prev.len() == 0 {
            assert(r =~= prev.push(s[i - 1]));
        } else if s[i - 1] >= prev.last() + min_gap {
            assert(r == prev.push(s[i - 1]));
            assert forall|a: int, b: int| 0 <= a <= b < r.len() implies r[a] <= r[b] by {
                if b < r.len() - 1 {
                    assert(r[a] == prev[a] && r[b] == prev[b]);
                } else if a < r.len() - 1 {
                    assert(r[a] == prev[a]);
                    assert(prev[a] <= prev.last());
                }
            }
            assert forall|a: int| 0 <= a < r.len() - 1 implies #[trigger] r[a] + min_gap <= r[a
                + 1] by {
                if a < prev.len() - 1 {
                    assert(r[a] == prev[a] && r[a + 1] == prev[a + 1]);
                } else {
                    assert(r[a] == prev.last() && r[a + 1] == s[i - 1]);
                }
            }
        }
    }
}

/// Compacts click times: sorts them, then keeps only clicks at least
/// `min_gap_ms` after the one kept before, so pulses never overlap.
/// The result is the greedy gap filter applied to the sorted permutation
/// of the input.
pub fn compact_click_times(points: &Vec<u64>, min_gap_ms: u64) -> (r: Vec<u64>)
    ensures
        points@.len() == 0 ==> r@.len() == 0,
        exists|ss: Seq<u64>| #[trigger] r_matches(ss, points@, r@, min_gap_ms as int),
        sorted_u64(r@),
        forall|a: int| 0 <= a < r@.len() - 1 ==> #[trigger] r@[a] + min_gap_ms <= r@[a + 1],
{
    if points.len() == 0 {
        let empty_out: Vec<u64> = Vec::new();
        proof {
            assert(empty_out@ =~= greedy_gap_scan(points@, min_gap_ms as int, 0));
            assert(r_matches(points@, points@, empty_out@, min_gap_ms as int));
        }
        return empty_out;
    }
    let sorted: Vec<u64> = sort_u64(points);
    let mut result: Vec<u64> = Vec::new();
    let mut i: usize = 0;
    while i < sorted.len()
        invariant
            0 <= i <= sorted@.len(),
            result@ == greedy_gap_scan(sorted@, min_gap_ms as int, i as int),
        decreases sorted@.len() - i,
    {
        let ts: u64 = sorted[i];
        let rl: usize = result.len();
        if rl == 0 {
            result.push(ts);
        } else {
            let last: u64 = result[rl - 1];
            let threshold: u64 = if last > u64::MAX - min_gap_ms {
                u64::MAX
            } else {
                last + min_gap_ms
            };
            if ts >= threshold && ts - last >= min_gap_ms {
                result.push(ts);
            }
        }
        i = i + 1;
    }
    proof {
        assert(r_matches(sorted@, points@, result@, min_gap_ms as int));
        lemma_greedy_gap_spacing(sorted@, min_gap_ms as int, sorted@.len() as int);
    }
    result
}

/// The witness shape of `compact_click_times`' result.
pub open spec fn r_matches(ss: Seq<u64>, points: Seq<u64>, r: Seq<u64>, min_gap: int) -> bool {
    sorted_u64(ss) && ss.to_multiset() == points.to_multiset() && r == greedy_gap_scan(
        ss,
        min_gap,
        ss.len() as int,
    )
}

/// The shrinking branch of one click's pulse, as filter-expression text.
pub open spec fn pulse_down_expr(click_e4: Seq<char>) -> Seq<char> {
    "1-(0.1800)*((t-"@ + click_e4 + ")/0.0650)"@
}

/// The recovery branch of one click's pulse, as filter-expression text.
pub open spec fn pulse_up_expr(down_end_e4: Seq<char>) -> Seq<char> {
    "0.8200+(0.1800)*((t-"@ + down_end_e4 + ")/0.0850)"@
}

/// The two summed interval terms one click contributes to the pulse
/// factor: a shrink over the press, a recovery after it.
pub open spec fn pulse_click_terms(ms: int) -> Seq<char> {
    let click_e4 = e4_digits(ms * 10);
    let down_end_e4 = e4_digits(ms * 10 + 650);
    let up_end_e4 = e4_digits(ms * 10 + 1500);
    "+if(gte(t,"@ + click_e4 + ")*lt(t,"@ + down_end_e4 + "),("@ + pulse_down_expr(click_e4)
        + ")-1,0)"@ + "+if(gte(t,"@ + down_end_e4 + ")*lt(t,"@ + up_end_e4 + "),("@
        + pulse_up_expr(down_end_e4) + ")-1,0)"@
}

/// The pulse factor terms of the first `i` clicks, after the constant
/// term `1`.
pub open spec fn pulse_terms(clicks: Seq<u64>, i: int) -> Seq<char>
    decreases i,
{
    if i <= 0 {
        Seq::empty()
    } else {
        pulse_terms(clicks, i - 1) + pulse_click_terms(clicks[i - 1] as int)
    }
}

/// The whole click pulse factor expression: the constant `1`, plus, for
/// each click, two interval terms that dip the factor to `0.82` over the
/// 65 ms after the click and recover it over the following 85 ms.
pub open spec fn spec_click_pulse_factor_expr(clicks: Seq<u64>) -> Seq<char> {
    if clicks.len() == 0 {
        "1"@
    } else {
        "1"@ + pulse_terms(clicks, clicks.len() as int)
    }
}

fn pulse_click_terms_exec(ms: u64) -> (r: String)
    requires
        ms <= (u64::MAX - 1500) / 10,
    ensures
        r@ == pulse_click_terms(ms as int),
{
    proof {
        lemma_fundamental_div_mod(u64::MAX - 1500, 10);
    }
    let v: u64 = ms * 10;
    let click_e4: String = format_e4(v);
    let down_end_e4: String = format_e4(v + 650);
    let up_end_e4: String = format_e4(v + 1500);
    let mut out: String = String::from_str("+if(gte(t,");
    let mut out2: String = out.concat(click_e4.as_str());
    let out3: String = out2.concat(")*lt(t,");
    let out4: String = out3.concat(down_end_e4.as_str());
    let out5: String = out4.concat("),(");
    let out6: String = out5.concat("1-(0.1800)*((t-");
    let out7: String = out6.concat(click_e4.as_str());
    let out8: String = out7.concat(")/0.0650)");
    let out9: String = out8.concat(")-1,0)");
    let out10: String = out9.concat("+if(gte(t,");
    let out11: String = out10.concat(down_end_e4.as_str());
    let out12: String = out11.concat(")*lt(t,");
    let out13: String = out12.concat(up_end_e4.as_str());
    let out14: String = out13.concat("),(");
    let out15: String = out14.concat("0.8200+(0.1800)*((t-");
    let out16: String = out15.concat(down_end_e4.as_str());
    let out17: String = out16.concat(")/0.0850)");
    let out18: String = out17.concat(")-1,0)");
    proof {
        assert(out18@ =~= pulse_click_terms(ms as int));
    }
    out18
}

/// Builds the click pulse factor expression for the given click times.
pub fn build_click_pulse_factor_expr(click_times_ms: &Vec<u64>) -> (r: String)
    requires
        forall|k: int|
            0 <= k < click_times_ms@.len() ==> click_times_ms@[k] <= (u64::MAX - 1500) / 10,
    ensures
        r@ == spec_click_pulse_factor_expr(click_times_ms@),
{
    if click_times_ms.len() == 0 {
        return String::from_str("1");
    }
    let mut out: String = String::from_str("1");
    let mut i: usize = 0;
    proof {
        assert(out@ =~= "1"@ + pulse_terms(click_times_ms@, 0));
    }
    while i < click_times_ms.len()
        invariant
            0 <= i <= click_times_ms@.len(),
            forall|k: int|
                0 <= k < click_times_ms@.len() ==> click_times_ms@[k] <= (u64::MAX - 1500) / 10,
            out@ == "1"@ + pulse_terms(click_times_ms@, i as int),
        decreases click_times_ms@.len() - i,
    {
        let terms: String = pulse_click_terms_exec(click_times_ms[i]);
        let next: String = out.concat(terms.as_str());
        proof {
            assert(next@ =~= "1"@ + pulse_terms(click_times_ms@, i + 1));
        }
        out = next;
        i = i + 1;
    }
    out
}


/// A path escaped for use inside a filter graph: backslashes become
/// forward slashes, and colons and single quotes are escaped with a
/// backslash.
pub open spec fn spec_filter_path_escape(s: Seq<char>) -> Seq<char> {
    concat_map(
        s,
        |c: char|
            if c == '\\' {
                seq!['/']
            } else if c == ':' {
                seq!['\\', ':']
            } else if c == '\'' {
                seq!['\\', '\'']
            } else {
                seq![c]
            },
    )
}

/// Escapes a path for embedding in a filter graph argument.
pub fn escape_filter_path(path: &str) -> (r: String)
    ensures
        r@ == spec_filter_path_escape(path@),
{
    let ghost f: spec_fn(char) -> Seq<char> = |c: char|
        if c == '\\' {
            seq!['/']
        } else if c == ':' {
            seq!['\\', ':']
        } else if c == '\'' {
            seq!['\\', '\'']
        } else {
            seq![c]
        };
    let n: usize = path.unicode_len();
    let mut out: String = String::new();
    let mut i: usize = 0;
    proof {
        assert(out@ =~= concat_map(path@.subrange(0, 0), f));
    }
    while i < n
        invariant
            n == path@.len(),
            f == (|c: char|
                if c == '\\' {
                    seq!['/']
                } else if c == ':' {
                    seq!['\\', ':']
                } else if c == '\'' {
                    seq!['\\', '\'']
                } else {
                    seq![c]
                }),
            0 <= i <= n,
            out@ == concat_map(path@.subrange(0, i as int), f),
        decreases n - i,
    {
        let c: char = path.get_char(i);
        if c == '\\' {
            push_char(&mut out, '/');
        } else if c == ':' {
            push_char(&mut out, '\\');
            push_char(&mut out, ':');
        } else if c == '\'' {
            push_char(&mut out, '\\');
            push_char(&mut out, '\'');
        } else {
            push_char(&mut out, c);
        }
        proof {
            lemma_concat_map_push(path@.subrange(0, i as int), path@[i as int], f);
            assert(path@.subrange(0, i as int).push(path@[i as int]) =~= path@.subrange(0, i + 1));
            assert(out@ =~= concat_map(path@.subrange(0, i + 1), f));
        }
        i = i + 1;
    }
    proof {
        assert(path@.subrange(0, n as int) =~= path@);
    }
    out
}

} // verus!
