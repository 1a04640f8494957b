//! Parsers for the lines an external video tool prints while probing or
//! transcoding: the `HH:MM:SS.frac` clock values, the stream duration,
//! the running `time=` progress marker, and the video frame size.

use vstd::prelude::*;
use crate::text::{
    all_digits, contains_seq, contains_sub, dec_value, digit_val, find_first_sub,
    find_first_sub_exec, is_digit_exec, is_space_char, is_space_char_exec, lemma_find_first_sub,
    matches_at, parse_u64_dec, spec_trim, spec_trim_nondigit, trim_front, trim_nondigit, trim_str,
};

verus! {

/// The fractional-seconds digits cut to three and right-padded with
/// zeros to exactly three digits.
pub open spec fn frac_pad3(f: Seq<char>) -> Seq<char> {
    let t = if f.len() >= 3 {
        f.subrange(0, 3)
    } else {
        f
    };
    t + Seq::new((3 - t.len()) as nat, |i: int| '0')
}

/// The value in milliseconds of an `H:MM:SS.frac` clock string: exactly
/// two `:`-separated boundaries, all-digit hour, minute and second
/// fields, an optional fraction after the first `.` (read to at most
/// three digits, zero-padded on the right), and nothing else.
pub open spec fn spec_hhmmss(v: Seq<char>) -> Option<int> {
    match find_first_sub(v, seq![':']) {
        None => None,
        Some(i) => {
            let hpart = v.subrange(0, i);
            let rest = v.subrange(i + 1, v.len() as int);
            match find_first_sub(rest, seq![':']) {
                None => None,
                Some(j) => {
                    let mpart = rest.subrange(0, j);
                    let secpart = rest.subrange(j + 1, rest.len() as int);
                    if find_first_sub(secpart, seq![':']) is Some {
                        None
                    } else {
                        let sec = match find_first_sub(secpart, seq!['.']) {
                            None => secpart,
                            Some(d) => secpart.subrange(0, d),
                        };
                        let frac = match find_first_sub(secpart, seq!['.']) {
                            None => Seq::<char>::empty(),
                            Some(d) => {
                                let after = secpart.subrange(d + 1, secpart.len() as int);
                                match find_first_sub(after, seq!['.']) {
                                    None => after,
                                    Some(d2) => after.subrange(0, d2),
                                }
                            },
                        };
                        let f3 = frac_pad3(frac);
                        if all_digits(hpart) && all_digits(mpart) && all_digits(sec) && all_digits(
                            f3,
                        ) && dec_value(hpart) <= u64::MAX && dec_value(mpart) <= u64::MAX
                            && dec_value(sec) <= u64::MAX {
                            Some(
                                dec_value(hpart) * 3600000 + dec_value(mpart) * 60000 + dec_value(
                                    sec,
                                ) * 1000 + dec_value(f3),
                            )
                        } else {
                            None
                        }
                    }
                },
            }
        },
    }
}

/// `spec_hhmmss`, restricted to values that fit the result type.
pub open spec fn spec_parse_hhmmss_ms(v: Seq<char>) -> Option<int> {
    match spec_hhmmss(v) {
        None => None,
        Some(t) => if t <= u64::MAX {
            Some(t)
        } else {
            None
        },
    }
}

/// Reads the three digits of a padded fraction into its value.
#[verifier::rlimit(30)]
fn frac3_value(frac: &str) -> (r: Option<u64>)
    ensures
        match r {
            Some(v) => all_digits(frac_pad3(frac@)) && v == dec_value(frac_pad3(frac@)),
            None => !all_digits(frac_pad3(frac@)),
        },
{
    let fl: usize = frac.unicode_len();
    let c0: char = if fl > 0 {
        frac.get_char(0)
    } else {
        '0'
    };
    let c1: char = if fl > 1 {
        frac.get_char(1)
    } else {
        '0'
    };
    let c2: char = if fl > 2 {
        frac.get_char(2)
    } else {
        '0'
    };
    proof {
        assert(frac_pad3(frac@) =~= seq![c0, c1, c2]);
    }
    if !(is_digit_exec(c0) && is_digit_exec(c1) && is_digit_exec(c2)) {
        proof {
            let f3 = frac_pad3(frac@);
            assert(f3[0] == c0 && f3[1] == c1 && f3[2] == c2);
        }
        return None;
    }
    let v0: u64 = (c0 as u32 as u64) - 48;
    let v1: u64 = (c1 as u32 as u64) - 48;
    let v2: u64 = (c2 as u32 as u64) - 48;
    proof {
        reveal_with_fuel(dec_value, 4);
        let s1 = seq![c0];
        let s2 = seq![c0, c1];
        let s3 = seq![c0, c1, c2];
        assert(s3.drop_last() =~= s2);
        assert(s2.drop_last() =~= s1);
        assert(s1.drop_last() =~= Seq::<char>::empty());
        assert(dec_value(s1) == digit_val(c0));
        assert(dec_value(s2) == digit_val(c0) * 10 + digit_val(c1));
        assert(dec_value(s3) == (digit_val(c0) * 10 + digit_val(c1)) * 10 + digit_val(c2));
    }
    Some(v0 * 100 + v1 * 10 + v2)
}

/// Parses an `H:MM:SS.frac` clock string into milliseconds; malformed
/// text, a non-digit field, or a value out of range yields `None`.
pub fn parse_hhmmss_ms(value: &str) -> (r: Option<u64>)
    ensures
        match r {
            Some(ms) => spec_parse_hhmmss_ms(value@) == Some(ms as int),
            None => spec_parse_hhmmss_ms(value@) is None,
        },
{
    proof {
        reveal_strlit(":");
        reveal_strlit(".");
        assert(":"@ =~= seq![':']);
        assert("."@ =~= seq!['.']);
    }
    let n: usize = value.unicode_len();
    let i: usize = match find_first_sub_exec(value, ":") {
        None => {
            return None;
        },
        Some(i) => i,
    };
    proof {
        lemma_find_first_sub(value@, ":"@);
        assert(matches_at(value@, ":"@, i as int));
    }
    let hpart: &str = value.substring_char(0, i);
    let rest: &str = value.substring_char(i + 1, n);
    let rl: usize = rest.unicode_len();
    let j: usize = match find_first_sub_exec(rest, ":") {
        None => {
            return None;
        },
        Some(j) => j,
    };
    proof {
        lemma_find_first_sub(rest@, ":"@);
        assert(matches_at(rest@, ":"@, j as int));
    }
    let mpart: &str = rest.substring_char(0, j);
    let secpart: &str = rest.substring_char(j + 1, rl);
    let sl: usize = secpart.unicode_len();
    let third: Option<usize> = find_first_sub_exec(secpart, ":");
    if third.is_some() {
        return None;
    }
    let dot: Option<usize> = find_first_sub_exec(secpart, ".");
    proof {
        lemma_find_first_sub(secpart@, "."@);
        if dot is Some {
            assert(matches_at(secpart@, "."@, dot->0 as int));
        }
    }
    let sec_end: usize = match dot {
        None => sl,
        Some(d) => d,
    };
    let sec: &str = secpart.substring_char(0, sec_end);
    proof {
        if dot is None {
            assert(secpart@.subrange(0, sl as int) =~= secpart@);
        }
    }
    let hv: u64 = match parse_u64_dec(hpart) {
        None => {
            return None;
        },
        Some(v) => v,
    };
    let mv: u64 = match parse_u64_dec(mpart) {
        None => {
            return None;
        },
        Some(v) => v,
    };
    let sv: u64 = match parse_u64_dec(sec) {
        None => {
            return None;
        },
        Some(v) => v,
    };
    let fv: u64 = match dot {
        None => {
            let empty_frac: &str = secpart.substring_char(sl, sl);
            proof {
                assert(empty_frac@ =~= Seq::<char>::empty());
            }
            match frac3_value(empty_frac) {
                None => {
                    return None;
                },
                Some(v) => v,
            }
        },
        Some(d) => {
            let after: &str = secpart.substring_char(d + 1, sl);
            let al: usize = after.unicode_len();
            let frac_end_found: Option<usize> = find_first_sub_exec(after, ".");
            proof {
                lemma_find_first_sub(after@, "."@);
                if frac_end_found is Some {
                    assert(matches_at(after@, "."@, frac_end_found->0 as int));
                }
            }
            let frac_end: usize = match frac_end_found {
                None => al,
                Some(d2) => d2,
            };
            let frac: &str = after.substring_char(0, frac_end);
            proof {
                if find_first_sub(after@, seq!['.']) is None {
                    assert(after@.subrange(0, al as int) =~= after@);
                }
            }
            match frac3_value(frac) {
                None => {
                    return None;
                },
                Some(v) => v,
            }
        },
    };
    let total: u128 = (hv as u128) * 3600000 + (mv as u128) * 60000 + (sv as u128) * 1000 + (
    fv as u128);
    proof {
        assert((hv as int) * 3600000 + (mv as int) * 60000 + (sv as int) * 1000 + (fv as int)
            < 0x1_0000_0000_0000_0000_0000_0000_0000_0000) by (nonlinear_arith)
            requires
                0 <= (hv as int) < 0x1_0000_0000_0000_0000,
                0 <= (mv as int) < 0x1_0000_0000_0000_0000,
                0 <= (sv as int) < 0x1_0000_0000_0000_0000,
                0 <= (fv as int) < 0x1_0000_0000_0000_0000,
        ;
    }
    if total > u64::MAX as u128 {
        return None;
    }
    Some(total as u64)
}

/// Where the next whitespace character at or after `i` stands, or the
/// end of the sequence.
pub open spec fn next_ws(s: Seq<char>, i: int) -> int
    decreases s.len() - i,
{
    if !(0 <= i < s.len()) {
        s.len() as int
    } else if is_space_char(s[i]) {
        i
    } else {
        next_ws(s, i + 1)
    }
}

proof fn lemma_next_ws_bounds(s: Seq<char>, i: int)
    requires
        0 <= i <= s.len(),
    ensures
        i <= next_ws(s, i) <= s.len(),
    decreases s.len() - i,
{
    if 0 <= i < s.len() && !is_space_char(s[i]) {
        lemma_next_ws_bounds(s, i + 1);
    }
}

/// The first whitespace-separated token of `s`, after leading
/// whitespace; nothing when `s` is empty or all whitespace.
pub open spec fn first_ws_token(s: Seq<char>) -> Option<Seq<char>> {
    let t = trim_front(s);
    if t.len() == 0 {
        None
    } else {
        Some(t.subrange(0, next_ws(t, 0)))
    }
}

proof fn lemma_next_ws_at(s: Seq<char>, i: int, e: int)
    requires
        0 <= i <= e <= s.len(),
        forall|k: int| i <= k < e ==> !is_space_char(s[k]),
        e == s.len() || is_space_char(s[e]),
    ensures
        next_ws(s, i) == e,
    decreases e - i,
{
    if i < e {
        lemma_next_ws_at(s, i + 1, e);
    }
}

fn first_ws_token_exec(s: &str) -> (r: Option<String>)
    ensures
        match r {
            Some(tok) => first_ws_token(s@) == Some(tok@),
            None => first_ws_token(s@) is None,
        },
{
    let t: String = trim_str(s);
    let ts: &str = t.as_str();
    let tl: usize = ts.unicode_len();
    let ghost tf: Seq<char> = trim_front(s@);
    let ghost ws_pred: spec_fn(char) -> bool = |c: char| is_space_char(c);
    proof {
        crate::text::lemma_trim_front_p_structure(s@, ws_pred);
        crate::text::lemma_trim_back_p_structure(tf, ws_pred);
    }
    if tl == 0 {
        proof {
            if tf.len() > 0 {
                assert(!is_space_char(tf[0]));
                assert(is_space_char(tf[0]));
            }
        }
        return None;
    }
    let mut w: usize = 0;
    while w < tl && !is_space_char_exec(ts.get_char(w))
        invariant
            ts@ == t@,
            tl == t@.len(),
            t@ == spec_trim(s@),
            0 <= w <= tl,
            forall|k: int| 0 <= k < w ==> !is_space_char(t@[k]),
        decreases tl - w,
    {
        w = w + 1;
    }
    let tok: &str = ts.substring_char(0, w);
    proof {
        let tb = t@;
        let m = tb.len() as int;
        assert(tb == tf.subrange(0, m));
        assert forall|k: int| 0 <= k < w implies !is_space_char(tf[k]) by {
            assert(tb[k] == tf[k]);
        }
        if (w as int) < m {
            assert(is_space_char(tb[w as int]));
            assert(tb[w as int] == tf[w as int]);
            lemma_next_ws_at(tf, 0, w as int);
        } else {
            if m < tf.len() {
                assert(is_space_char(tf[m]));
            }
            lemma_next_ws_at(tf, 0, w as int);
        }
        assert(tok@ =~= tf.subrange(0, next_ws(tf, 0)));
    }
    Some(String::from_str(tok))
}

/// The duration printed in a probe line: the text after the first
/// `Duration: ` marker up to the next comma, trimmed and read as a
/// clock value.
pub open spec fn spec_extract_duration_ms(line: Seq<char>) -> Option<int> {
    match find_first_sub(line, "Duration: "@) {
        None => None,
        Some(st) => {
            let rest = line.subrange(st + "Duration: "@.len(), line.len() as int);
            let value = match find_first_sub(rest, seq![',']) {
                None => rest,
                Some(e) => rest.subrange(0, e),
            };
            spec_parse_hhmmss_ms(spec_trim(value))
        },
    }
}

/// Extracts the stream duration, in milliseconds, from a probe line.
pub fn extract_ffmpeg_duration_ms(line: &str) -> (r: Option<u64>)
    ensures
        match r {
            Some(ms) => spec_extract_duration_ms(line@) == Some(ms as int),
            None => spec_extract_duration_ms(line@) is None,
        },
{
    proof {
        reveal_strlit("Duration: ");
        reveal_strlit(",");
        assert(","@ =~= seq![',']);
    }
    let n: usize = line.unicode_len();
    let st: usize = match find_first_sub_exec(line, "Duration: ") {
        None => {
            return None;
        },
        Some(k) => k,
    };
    proof {
        lemma_find_first_sub(line@, "Duration: "@);
        assert(matches_at(line@, "Duration: "@, st as int));
        assert("Duration: "@.len() == 10);
    }
    let rest: &str = line.substring_char(st + 10, n);
    let rl: usize = rest.unicode_len();
    let value_end_found: Option<usize> = find_first_sub_exec(rest, ",");
    proof {
        lemma_find_first_sub(rest@, ","@);
        if value_end_found is Some {
            assert(matches_at(rest@, ","@, value_end_found->0 as int));
        }
    }
    let value_end: usize = match value_end_found {
        None => rl,
        Some(e) => e,
    };
    let value: &str = rest.substring_char(0, value_end);
    proof {
        if find_first_sub(rest@, seq![',']) is None {
            assert(rest@.subrange(0, rl as int) =~= rest@);
        }
        assert("Duration: "@.len() == 10);
    }
    let trimmed: String = trim_str(value);
    parse_hhmmss_ms(trimmed.as_str())
}

/// The running clock in a progress line: the first whitespace-separated
/// token after the first `time=` marker, read as a clock value.
pub open spec fn spec_extract_time_ms(line: Seq<char>) -> Option<int> {
    match find_first_sub(line, "time="@) {
        None => None,
        Some(st) => {
            let rest = line.subrange(st + "time="@.len(), line.len() as int);
            match first_ws_token(rest) {
                None => None,
                Some(tok) => spec_parse_hhmmss_ms(tok),
            }
        },
    }
}

/// Extracts the progress clock, in milliseconds, from an encoder
/// progress line.
pub fn extract_ffmpeg_time_ms(line: &str) -> (r: Option<u64>)
    ensures
        match r {
            Some(ms) => spec_extract_time_ms(line@) == Some(ms as int),
            None => spec_extract_time_ms(line@) is None,
        },
{
    proof {
        reveal_strlit("time=");
    }
    let n: usize = line.unicode_len();
    let st: usize = match find_first_sub_exec(line, "time=") {
        None => {
            return None;
        },
        Some(k) => k,
    };
    proof {
        lemma_find_first_sub(line@, "time="@);
        assert(matches_at(line@, "time="@, st as int));
        assert("time="@.len() == 5);
    }
    let rest: &str = line.substring_char(st + 5, n);
    let tok: String = match first_ws_token_exec(rest) {
        None => {
            return None;
        },
        Some(tok) => tok,
    };
    parse_hhmmss_ms(tok.as_str())
}

/// Whether `c` separates tokens in a stream description line.
pub open spec fn is_sep_char(c: char) -> bool {
    is_space_char(c) || c == ',' || c == '[' || c == ']'
}

fn is_sep_char_exec(c: char) -> (r: bool)
    ensures
        r == is_sep_char(c),
{
    is_space_char_exec(c) || c == ',' || c == '[' || c == ']'
}

/// Where the next separator at or after `i` stands, or the end of the
/// sequence.
pub open spec fn next_sep(s: Seq<char>, i: int) -> int
    decreases s.len() - i,
{
    if !(0 <= i < s.len()) {
        s.len() as int
    } else if is_sep_char(s[i]) {
        i
    } else {
        next_sep(s, i + 1)
    }
}

proof fn lemma_next_sep_bounds(s: Seq<char>, i: int)
    requires
        0 <= i <= s.len(),
    ensures
        i <= next_sep(s, i) <= s.len(),
    decreases s.len() - i,
{
    if 0 <= i < s.len() && !is_sep_char(s[i]) {
        lemma_next_sep_bounds(s, i + 1);
    }
}

/// The size a single token yields: the digits around its first `x`,
/// each side trimmed of surrounding non-digits, both fitting the result
/// type and at least 64.
pub open spec fn spec_token_size(tok: Seq<char>) -> Option<(int, int)> {
    match find_first_sub(tok, seq!['x']) {
        None => None,
        Some(p) => {
            let wt = spec_trim_nondigit(tok.subrange(0, p));
            let ht = spec_trim_nondigit(tok.subrange(p + 1, tok.len() as int));
            if all_digits(wt) && all_digits(ht) && dec_value(wt) <= u32::MAX && dec_value(ht)
                <= u32::MAX && dec_value(wt) >= 64 && dec_value(ht) >= 64 {
                Some((dec_value(wt), dec_value(ht)))
            } else {
                None
            }
        },
    }
}

fn token_size_exec(tok: &str) -> (r: Option<(u32, u32)>)
    ensures
        match r {
            Some((w, h)) => spec_token_size(tok@) == Some((w as int, h as int)),
            None => spec_token_size(tok@) is None,
        },
{
    proof {
        reveal_strlit("x");
        assert("x"@ =~= seq!['x']);
    }
    let n: usize = tok.unicode_len();
    let p: usize = match find_first_sub_exec(tok, "x") {
        None => {
            return None;
        },
        Some(p) => p,
    };
    proof {
        lemma_find_first_sub(tok@, "x"@);
        assert(matches_at(tok@, "x"@, p as int));
    }
    let wt: String = trim_nondigit(tok.substring_char(0, p));
    let ht: String = trim_nondigit(tok.substring_char(p + 1, n));
    let wv: u64 = match parse_u64_dec(wt.as_str()) {
        None => {
            return None;
        },
        Some(v) => v,
    };
    let hv: u64 = match parse_u64_dec(ht.as_str()) {
        None => {
            return None;
        },
        Some(v) => v,
    };
    if wv > u32::MAX as u64 || hv > u32::MAX as u64 || wv < 64 || hv < 64 {
        return None;
    }
    Some((wv as u32, hv as u32))
}

/// The first size any token from position `i` on yields.
pub open spec fn spec_video_size_from(s: Seq<char>, i: int) -> Option<(int, int)>
    decreases s.len() - i,
    via spec_video_size_from_dec
{
    if !(0 <= i <= s.len()) {
        None
    } else {
        let e = next_sep(s, i);
        let tok = s.subrange(i, e);
        match spec_token_size(tok) {
            Some(wh) => Some(wh),
            None => if e >= s.len() {
                None
            } else {
                spec_video_size_from(s, e + 1)
            },
        }
    }
}

#[via_fn]
proof fn spec_video_size_from_dec(s: Seq<char>, i: int) {
    if 0 <= i <= s.len() {
        lemma_next_sep_bounds(s, i);
    }
}

/// The frame size in a stream description line: the line must name a
/// video stream, and the first token (separated by whitespace, commas
/// or brackets) of the shape `<digits>x<digits>` with both sides at
/// least 64 gives the size.
pub open spec fn spec_video_size(line: Seq<char>) -> Option<(int, int)> {
    if contains_seq(line, " Video: "@) {
        spec_video_size_from(line, 0)
    } else {
        None
    }
}

fn video_size_from_exec(line: &str, i: usize) -> (r: Option<(u32, u32)>)
    requires
        i <= line@.len(),
    ensures
        match r {
            Some((w, h)) => spec_video_size_from(line@, i as int) == Some((w as int, h as int)),
            None => spec_video_size_from(line@, i as int) is None,
        },
    decreases line@.len() - i,
{
    let n: usize = line.unicode_len();
    let mut e: usize = i;
    while e < n && !is_sep_char_exec(line.get_char(e))
        invariant
            n == line@.len(),
            i <= e <= n,
            forall|k: int| i <= k < e ==> !is_sep_char(line@[k]),
        decreases n - e,
    {
        e = e + 1;
    }
    proof {
        lemma_next_sep_at(line@, i as int, e as int);
    }
    let tok: &str = line.substring_char(i, e);
    let found: Option<(u32, u32)> = token_size_exec(tok);
    match found {
        Some(wh) => Some(wh),
        None => {
            if e >= n {
                None
            } else {
                video_size_from_exec(line, e + 1)
            }
        },
    }
}

proof fn lemma_next_sep_at(s: Seq<char>, i: int, e: int)
    requires
        0 <= i <= e <= s.len(),
        forall|k: int| i <= k < e ==> !is_sep_char(s[k]),
        e == s.len() || is_sep_char(s[e]),
    ensures
        next_sep(s, i) == e,
    decreases e - i,
{
    if i < e {
        lemma_next_sep_at(s, i + 1, e);
    }
}

/// Extracts the video frame size from a stream description line.
pub fn extract_ffmpeg_video_size(line: &str) -> (r: Option<(u32, u32)>)
    ensures
        match r {
            Some((w, h)) => spec_video_size(line@) == Some((w as int, h as int)),
            None => spec_video_size(line@) is None,
        },
{
    if !contains_sub(line, " Video: ") {
        return None;
    }
    video_size_from_exec(line, 0)
}

} // verus!
