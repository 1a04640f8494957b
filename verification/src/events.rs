//! The parts of the telemetry event model that carry plain values: the
//! bounding rectangle and UI context attached to click events, and the
//! normalization rules that turn a raw UI context into comparable keys.

use vstd::prelude::*;
use crate::text::{lower_seq, spec_trim, to_ascii_lower, trim_str};

verus! {

/// Bounding rectangle of a UI element, in screen pixel coordinates.
#[derive(Debug, Clone, PartialEq, Eq, Structural)]
pub struct BoundingRect {
    pub x: i32,
    pub y: i32,
    pub width: u32,
    pub height: u32,
}

/// UI-element context captured at click time by an accessibility lookup.
#[derive(Debug, Clone)]
pub struct UiContext {
    pub app_name: Option<String>,
    pub control_name: Option<String>,
    pub bounding_rect: Option<BoundingRect>,
}

/// Mouse button of a click event.
#[derive(Debug, Clone, Copy, PartialEq, Eq, Structural)]
pub enum MouseButton {
    Left,
    Right,
    Middle,
}

/// The normal form of a context string: trimmed and ASCII-lowercased,
/// or nothing when the trimmed text is empty.
pub open spec fn spec_normalize_context(s: Seq<char>) -> Option<Seq<char>> {
    if spec_trim(s).len() == 0 {
        None
    } else {
        Some(lower_seq(spec_trim(s)))
    }
}

/// Normalizes a context string: trims whitespace and ASCII-lowercases it;
/// an absent or all-whitespace value yields `None`.
pub fn normalize_context(value: Option<&str>) -> (r: Option<String>)
    ensures
        match value {
            None => r is None,
            Some(v) => match r {
                None => spec_normalize_context(v@) is None,
                Some(out) => spec_normalize_context(v@) == Some(out@),
            },
        },
{
    match value {
        None => None,
        Some(v) => {
            let trimmed: String = trim_str(v);
            if trimmed.as_str().unicode_len() == 0 {
                None
            } else {
                Some(to_ascii_lower(trimmed.as_str()))
            }
        },
    }
}

/// The key under which clicks on the same UI surface are grouped: the
/// normalized application name, else the normalized control name.
pub fn context_key(ui_context: Option<&UiContext>) -> (r: Option<String>)
    ensures
        match ui_context {
            None => r is None,
            Some(ctx) => match r {
                Some(out) => (ctx.app_name is Some && spec_normalize_context(
                    ctx.app_name->0@,
                ) == Some(out@)) || (spec_normalized_app(ctx) is None && ctx.control_name is Some
                    && spec_normalize_context(ctx.control_name->0@) == Some(out@)),
                None => spec_normalized_app(ctx) is None && spec_normalized_control(ctx) is None,
            },
        },
{
    match ui_context {
        None => None,
        Some(ctx) => {
            let from_app: Option<String> = normalize_context(as_str_opt(&ctx.app_name));
            match from_app {
                Some(out) => Some(out),
                None => normalize_context(as_str_opt(&ctx.control_name)),
            }
        },
    }
}

/// The normalized application name of a context, if it has one.
pub open spec fn spec_normalized_app(ctx: &UiContext) -> Option<Seq<char>> {
    match ctx.app_name {
        None => None,
        Some(a) => spec_normalize_context(a@),
    }
}

/// The normalized control name of a context, if it has one.
pub open spec fn spec_normalized_control(ctx: &UiContext) -> Option<Seq<char>> {
    match ctx.control_name {
        None => None,
        Some(c) => spec_normalize_context(c@),
    }
}

fn as_str_opt(s: &Option<String>) -> (r: Option<&str>)
    ensures
        match s {
            None => r is None,
            Some(v) => r is Some && r->0@ == v@,
        },
{
    match s {
        None => None,
        Some(v) => Some(v.as_str()),
    }
}

/// The normalized control name of a context, unless it is longer than
/// `max_len` characters: an over-long name is treated as unreliable.
pub fn normalized_control_name(ui_context: Option<&UiContext>, max_len: usize) -> (r: Option<
    String,
>)
    ensures
        match r {
            Some(out) => ui_context is Some && spec_normalized_control(ui_context->0) == Some(out@)
                && out@.len() <= max_len,
            None => ui_context is None || spec_normalized_control(ui_context->0) is None
                || spec_normalized_control(ui_context->0)->0.len() > max_len,
        },
{
    match ui_context {
        None => None,
        Some(ctx) => {
            let value: Option<String> = normalize_context(as_str_opt(&ctx.control_name));
            match value {
                None => None,
                Some(v) => {
                    if v.as_str().unicode_len() > max_len {
                        None
                    } else {
                        Some(v)
                    }
                },
            }
        },
    }
}

} // verus!
