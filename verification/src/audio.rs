//! Audio device selection rules: telling system-loopback devices from
//! microphones by name, and resolving which device a recording should
//! use. The surrounding application lists the device names; the
//! decisions here are pure functions of those names.

use vstd::prelude::*;
use crate::text::{contains_seq, contains_sub, eq_ignore_ascii_case_str, lower_seq, to_ascii_lower};

verus! {

/// Whether a device name names a system-audio (loopback) source rather
/// than a microphone: its lowercase form contains one of the known
/// loopback tokens.
pub open spec fn spec_is_system_device(name: Seq<char>) -> bool {
    ||| contains_seq(lower_seq(name), "stereo mix"@)
    ||| contains_seq(lower_seq(name), "what u hear"@)
    ||| contains_seq(lower_seq(name), "wave out"@)
    ||| contains_seq(lower_seq(name), "virtual-audio-capturer"@)
    ||| contains_seq(lower_seq(name), "loopback"@)
    ||| contains_seq(lower_seq(name), "mixage st"@)
}

/// Decides whether a device name is likely a system-audio source.
pub fn is_likely_system_audio_device(name: &str) -> (r: bool)
    ensures
        r == spec_is_system_device(name@),
{
    let lower: String = to_ascii_lower(name);
    let l: &str = lower.as_str();
    contains_sub(l, "stereo mix") || contains_sub(l, "what u hear") || contains_sub(l, "wave out")
        || contains_sub(l, "virtual-audio-capturer") || contains_sub(l, "loopback") || contains_sub(
        l,
        "mixage st",
    )
}

/// The index of the first device from position `i` on whose lowercase
/// name contains `token`.
pub open spec fn first_containing(devs: Seq<String>, token: Seq<char>, i: int) -> Option<int>
    decreases devs.len() - i,
{
    if !(0 <= i < devs.len()) {
        None
    } else if contains_seq(lower_seq(devs[i]@), token) {
        Some(i)
    } else {
        first_containing(devs, token, i + 1)
    }
}

fn find_containing(devs: &Vec<String>, token: &str) -> (r: Option<usize>)
    ensures
        match r {
            Some(k) => first_containing(devs@, token@, 0) == Some(k as int) && k < devs@.len(),
            None => first_containing(devs@, token@, 0) is None,
        },
{
    let mut i: usize = 0;
    while i < devs.len()
        invariant
            0 <= i <= devs@.len(),
            first_containing(devs@, token@, 0) == first_containing(devs@, token@, i as int),
        decreases devs@.len() - i,
    {
        let lower: String = to_ascii_lower(devs[i].as_str());
        if contains_sub(lower.as_str(), token) {
            return Some(i);
        }
        i = i + 1;
    }
    None
}

/// The system-audio device a recording should use: the first device
/// containing the highest-priority loopback token that any device
/// contains.
pub open spec fn spec_resolve_system(devs: Seq<String>) -> Option<int> {
    if first_containing(devs, "virtual-audio-capturer"@, 0) is Some {
        first_containing(devs, "virtual-audio-capturer"@, 0)
    } else if first_containing(devs, "stereo mix"@, 0) is Some {
        first_containing(devs, "stereo mix"@, 0)
    } else if first_containing(devs, "what u hear"@, 0) is Some {
        first_containing(devs, "what u hear"@, 0)
    } else if first_containing(devs, "wave out"@, 0) is Some {
        first_containing(devs, "wave out"@, 0)
    } else if first_containing(devs, "loopback"@, 0) is Some {
        first_containing(devs, "loopback"@, 0)
    } else {
        first_containing(devs, "mixage st"@, 0)
    }
}

/// Picks the system-audio device: tries the known loopback tokens in
/// priority order and returns the first device whose lowercase name
/// contains the first token found anywhere.
pub fn resolve_system_audio_device(all_devices: &Vec<String>) -> (r: Option<String>)
    ensures
        match r {
            Some(d) => spec_resolve_system(all_devices@) matches Some(k) && d@ == all_devices@[k]@,
            None => spec_resolve_system(all_devices@) is None,
        },
{
    let tokens: [&str; 6] = [
        "virtual-audio-capturer",
        "stereo mix",
        "what u hear",
        "wave out",
        "loopback",
        "mixage st",
    ];
    match find_containing(all_devices, tokens[0]) {
        Some(k) => {
            return Some(all_devices[k].clone());
        },
        None => {},
    }
    match find_containing(all_devices, tokens[1]) {
        Some(k) => {
            return Some(all_devices[k].clone());
        },
        None => {},
    }
    match find_containing(all_devices, tokens[2]) {
        Some(k) => {
            return Some(all_devices[k].clone());
        },
        None => {},
    }
    match find_containing(all_devices, tokens[3]) {
        Some(k) => {
            return Some(all_devices[k].clone());
        },
        None => {},
    }
    match find_containing(all_devices, tokens[4]) {
        Some(k) => {
            return Some(all_devices[k].clone());
        },
        None => {},
    }
    match find_containing(all_devices, tokens[5]) {
        Some(k) => {
            return Some(all_devices[k].clone());
        },
        None => {},
    }
    None
}

/// The non-system devices among the first `i` device names, in order.
pub open spec fn non_system_prefix(devs: Seq<String>, i: int) -> Seq<String>
    decreases i,
{
    if i <= 0 {
        Seq::empty()
    } else {
        let prev = non_system_prefix(devs, i - 1);
        if spec_is_system_device(devs[i - 1]@) {
            prev
        } else {
            prev.push(devs[i - 1])
        }
    }
}

/// The devices offered as microphones: every non-system device, or every
/// device at all when none looks like a microphone.
pub open spec fn spec_microphone_candidates(devs: Seq<String>) -> Seq<String> {
    let non_system = non_system_prefix(devs, devs.len() as int);
    if non_system.len() == 0 {
        devs
    } else {
        non_system
    }
}

fn non_system_devices(all_devices: &Vec<String>) -> (r: Vec<String>)
    ensures
        r@ == non_system_prefix(all_devices@, all_devices@.len() as int),
{
    let mut out: Vec<String> = Vec::new();
    let mut i: usize = 0;
    while i < all_devices.len()
        invariant
            0 <= i <= all_devices@.len(),
            out@ == non_system_prefix(all_devices@, i as int),
        decreases all_devices@.len() - i,
    {
        if !is_likely_system_audio_device(all_devices[i].as_str()) {
            let d: String = all_devices[i].clone();
            proof {
                assert(d == all_devices@[i as int]);
            }
            out.push(d);
        }
        i = i + 1;
    }
    out
}

/// Filters a device listing down to the microphone inputs: drops devices
/// that look like system-audio sources, but falls back to the whole
/// listing when that would leave nothing.
pub fn list_microphone_input_devices(all_devices: &Vec<String>) -> (r: Vec<String>)
    ensures
        all_devices@.len() == 0 ==> r@.len() == 0,
        all_devices@.len() > 0 ==> r@ == spec_microphone_candidates(all_devices@),
{
    if all_devices.len() == 0 {
        return Vec::new();
    }
    let microphones: Vec<String> = non_system_devices(all_devices);
    if microphones.len() == 0 {
        return copy_devices(all_devices);
    }
    microphones
}

fn copy_devices(devs: &Vec<String>) -> (r: Vec<String>)
    ensures
        r@ == devs@,
{
    let mut out: Vec<String> = Vec::new();
    let mut i: usize = 0;
    while i < devs.len()
        invariant
            0 <= i <= devs@.len(),
            out@ == devs@.subrange(0, i as int),
        decreases devs@.len() - i,
    {
        let d: String = devs[i].clone();
        proof {
            assert(d == devs@[i as int]);
            assert(devs@.subrange(0, i as int).push(devs@[i as int]) =~= devs@.subrange(0, i + 1));
        }
        out.push(d);
        i = i + 1;
    }
    proof {
        assert(devs@.subrange(0, devs@.len() as int) =~= devs@);
    }
    out
}

/// The index, among the candidates, of the first device equal to the
/// requested name up to ASCII case.
pub open spec fn first_eq_nocase(devs: Seq<String>, req: Seq<char>, i: int) -> Option<int>
    decreases devs.len() - i,
{
    if !(0 <= i < devs.len()) {
        None
    } else if lower_seq(devs[i]@) == lower_seq(req) {
        Some(i)
    } else {
        first_eq_nocase(devs, req, i + 1)
    }
}

/// Picks the microphone device to record from: the requested device if a
/// candidate matches it up to ASCII case, else the first candidate; an
/// empty candidate list is an error.
pub fn resolve_microphone_device(all_devices: &Vec<String>, requested: Option<&str>) -> (r: Result<
    String,
    String,
>)
    ensures
        r is Err ==> spec_microphone_candidates(all_devices@).len() == 0 && (r matches Err(e)
            && e@ == "No microphone devices found via ffmpeg dshow"@),
        r is Ok ==> spec_microphone_candidates(all_devices@).len() > 0,
        r is Ok && requested is None ==> r->Ok_0@ == spec_microphone_candidates(
            all_devices@,
        )[0]@,
        r is Ok && requested is Some ==> r->Ok_0@ == ({
            let cands = spec_microphone_candidates(all_devices@);
            match first_eq_nocase(cands, requested->0@, 0) {
                Some(k) => cands[k]@,
                None => cands[0]@,
            }
        }),
{
    let non_system: Vec<String> = non_system_devices(all_devices);
    let available: Vec<String> = if non_system.len() == 0 {
        copy_devices(all_devices)
    } else {
        non_system
    };
    if available.len() == 0 {
        return Err(String::from_str("No microphone devices found via ffmpeg dshow"));
    }
    match requested {
        Some(req) => {
            let mut i: usize = 0;
            while i < available.len()
                invariant
                    requested is Some,
                    requested->0@ == req@,
                    available@ == spec_microphone_candidates(all_devices@),
                    available@.len() > 0,
                    0 <= i <= available@.len(),
                    first_eq_nocase(available@, req@, 0) == first_eq_nocase(
                        available@,
                        req@,
                        i as int,
                    ),
                decreases available@.len() - i,
            {
                if eq_ignore_ascii_case_str(available[i].as_str(), req) {
                    let d: String = available[i].clone();
                    proof {
                        let cands = spec_microphone_candidates(all_devices@);
                        assert(first_eq_nocase(available@, req@, i as int) == Some(i as int));
                        assert(first_eq_nocase(cands, req@, 0) == Some(i as int));
                        assert(d == available@[i as int]);
                        assert(d@ == cands[i as int]@);
                    }
                    return Ok(d);
                }
                i = i + 1;
            }
            Ok(available[0].clone())
        },
        None => Ok(available[0].clone()),
    }
}

} // verus!
