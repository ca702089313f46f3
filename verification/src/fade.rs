//! Fading a window and putting it back.

use crate::mapping::{self, RestoreAction, SavedStyle};
use crate::target::{Bounds, LWA_ALPHA, WS_EX_LAYERED};
use crate::text;
use vstd::prelude::*;
use vstd::string::*;

verus! {

/// `n`, or the nearest number that fits.
pub open spec fn fit(n: int) -> i32 {
    mapping::clamped(n, i32::MIN as int, i32::MAX as int) as i32
}

fn to_fit(n: i64) -> (r: i32)
    ensures
        r == fit(n as int),
{
    if n < i32::MIN as i64 {
        i32::MIN
    } else if n > i32::MAX as i64 {
        i32::MAX
    } else {
        n as i32
    }
}

/// The width and height of a rectangle, plus `extra` on the width, each at least `least`.
pub open spec fn size_of(bounds: Bounds, extra: int, least: int) -> (i32, i32) {
    (
        fit(at_least(bounds.right - bounds.left + extra, least)),
        fit(at_least(bounds.bottom - bounds.top, least)),
    )
}

pub open spec fn at_least(n: int, least: int) -> int {
    if n < least {
        least
    } else {
        n
    }
}

/// The size a glass window takes to cover `bounds`. It is never empty.
pub fn pane_size(bounds: &Bounds) -> (r: (i32, i32))
    ensures
        r == size_of(*bounds, 0, 1),
{
    let width: i64 = bounds.right as i64 - bounds.left as i64;
    let height: i64 = bounds.bottom as i64 - bounds.top as i64;
    (
        to_fit(
            if width < 1 {
                1
            } else {
                width
            },
        ),
        to_fit(
            if height < 1 {
                1
            } else {
                height
            },
        ),
    )
}

/// Some apps paint black after gaining the layered bit until they are resized: one pixel wider,
/// and back. The two sizes to set, when the window has a rectangle.
pub fn nudge_resize(rect: Option<Bounds>) -> (r: Option<((i32, i32), (i32, i32))>)
    ensures
        r == match rect {
            Some(bounds) => Some(
                (size_of(bounds, 1, i32::MIN as int), size_of(bounds, 0, i32::MIN as int)),
            ),
            None => None,
        },
{
    match rect {
        Some(bounds) => {
            let width: i64 = bounds.right as i64 - bounds.left as i64;
            let height: i64 = bounds.bottom as i64 - bounds.top as i64;
            Some(((to_fit(width + 1), to_fit(height)), (to_fit(width), to_fit(height))))
        },
        None => None,
    }
}

pub open spec fn is_layered(exstyle: i64) -> bool {
    exstyle & WS_EX_LAYERED != 0
}

/// The style of a window as it is now. `attributes` are its alpha and the flags that say whether
/// the alpha is in use, where Windows gives them.
pub open spec fn captured(exstyle: i64, attributes: Option<(u8, u32)>) -> SavedStyle {
    SavedStyle {
        exstyle,
        was_layered: is_layered(exstyle),
        alpha: match attributes {
            Some((alpha, flags)) => if is_layered(exstyle) && flags & LWA_ALPHA == LWA_ALPHA {
                alpha
            } else {
                255
            },
            None => 255,
        },
    }
}

pub fn capture_style(exstyle: i64, attributes: Option<(u8, u32)>) -> (r: SavedStyle)
    ensures
        r == captured(exstyle, attributes),
{
    let was_layered: bool = exstyle & WS_EX_LAYERED != 0;
    let mut alpha: u8 = 255;
    if was_layered {
        match attributes {
            Some((value, flags)) => {
                if flags & LWA_ALPHA == LWA_ALPHA {
                    alpha = value;
                }
            },
            None => {},
        }
    }
    SavedStyle { exstyle, was_layered, alpha }
}

/// How to fade a window: the style to set first, unless it has the layered bit already, and the
/// alpha to set.
#[derive(Debug, Clone, Copy, PartialEq, Eq, Structural)]
pub struct FadePlan {
    pub style: Option<i64>,
    pub alpha: u8,
}

pub open spec fn fade_of(exstyle: i64, transparency: u8) -> FadePlan {
    FadePlan {
        style: if is_layered(exstyle) {
            None
        } else {
            Some(exstyle | WS_EX_LAYERED)
        },
        alpha: mapping::alpha_of(transparency),
    }
}

/// Decides how to fade a window. One that is gone or hangs is not faded.
pub fn apply_alpha(is_window: bool, hung: bool, exstyle: i64, transparency: u8) -> (r: Result<
    FadePlan,
    String,
>)
    ensures
        r is Ok <==> is_window && !hung,
        match r {
            Ok(plan) => plan == fade_of(exstyle, transparency),
            Err(text) => text@ == if !is_window {
                "The window is gone."@
            } else {
                "The app is not responding."@
            },
        },
{
    if !is_window {
        return Err("The window is gone.".to_owned());
    }
    if hung {
        return Err("The app is not responding.".to_owned());
    }
    let layered: i64 = exstyle | WS_EX_LAYERED;
    assert(exstyle == exstyle | 0x0008_0000 <==> exstyle & 0x0008_0000 != 0) by (bit_vector);
    let style: Option<i64> = if exstyle != layered {
        Some(layered)
    } else {
        None
    };
    Ok(FadePlan { style, alpha: mapping::transparency_to_alpha(transparency) })
}

/// Checks the style after the layered bit was set. `code` is what Windows gave as the reason when
/// the bit did not take.
pub fn check_fade(exstyle: i64, code: u32) -> (r: Result<(), String>)
    ensures
        r is Ok <==> is_layered(exstyle),
        r matches Err(text) ==> text@ == "Windows refused the transparency change ("@
            + text::digits(code as nat)
            + "). Apps running as administrator need Blurman running as administrator too."@,
{
    if exstyle & WS_EX_LAYERED == 0 {
        let number: String = text::decimal(code as u64);
        let mut message: String = text::joined(
            "Windows refused the transparency change (",
            number.as_str(),
        );
        message.append(
            "). Apps running as administrator need Blurman running as administrator too.",
        );
        Err(message)
    } else {
        Ok(())
    }
}

/// Whether to nudge a window while it is faded: only one that gains the layered bit now, and not
/// while it fills the screen.
pub fn nudges(plan: &FadePlan, nudge: bool, zoomed: bool) -> (r: bool)
    ensures
        r == (plan.style is Some && nudge && !zoomed),
{
    plan.style.is_some() && nudge && !zoomed
}

/// What puts a window back.
#[derive(Debug, Clone, Copy, PartialEq, Eq, Structural)]
pub enum RestorePlan {
    /// The window is gone or hangs. Style changes wait on the target's message loop, so a hung
    /// app would hang us too.
    Leave,
    SetAlpha(u8),
    /// Set this style and repaint the window.
    SetStyle(i64),
}

pub open spec fn restore_of(saved: SavedStyle, exstyle: i64) -> RestorePlan {
    match mapping::action_for(saved) {
        RestoreAction::KeepLayered { alpha } => RestorePlan::SetAlpha(alpha),
        RestoreAction::ClearLayered => RestorePlan::SetStyle(exstyle & !WS_EX_LAYERED),
    }
}

/// Decides how to put a window back that has the style `exstyle` now.
pub fn restore_alpha(is_window: bool, hung: bool, saved: &SavedStyle, exstyle: i64) -> (r: RestorePlan)
    ensures
        r == if is_window && !hung {
            restore_of(*saved, exstyle)
        } else {
            RestorePlan::Leave
        },
{
    if !is_window || hung {
        return RestorePlan::Leave;
    }
    match mapping::restore_action(saved) {
        RestoreAction::KeepLayered { alpha } => RestorePlan::SetAlpha(alpha),
        RestoreAction::ClearLayered => RestorePlan::SetStyle(exstyle & !WS_EX_LAYERED),
    }
}

/// The style and alpha of a window on screen.
pub struct Look {
    pub exstyle: i64,
    /// The alpha the window is drawn with; 255 without the layered bit.
    pub alpha: u8,
}

pub open spec fn look_after_fade(look: Look, plan: FadePlan) -> Look {
    Look {
        exstyle: match plan.style {
            Some(style) => style,
            None => look.exstyle,
        },
        alpha: plan.alpha,
    }
}

pub open spec fn look_after_restore(look: Look, plan: RestorePlan) -> Look {
    match plan {
        RestorePlan::Leave => look,
        RestorePlan::SetAlpha(alpha) => Look { exstyle: look.exstyle, alpha },
        RestorePlan::SetStyle(exstyle) => Look {
            exstyle,
            alpha: if is_layered(exstyle) {
                look.alpha
            } else {
                255
            },
        },
    }
}

/// Putting a window back undoes fading it, however often and strongly it was faded in between:
/// the style and the alpha are those that were captured.
pub proof fn restoring_undoes_fading(
    exstyle: i64,
    attributes: Option<(u8, u32)>,
    first: u8,
    again: u8,
)
    ensures
        ({
            let saved = captured(exstyle, attributes);
            let before = Look { exstyle, alpha: saved.alpha };
            let faded = look_after_fade(before, fade_of(exstyle, first));
            let twice = look_after_fade(faded, fade_of(faded.exstyle, again));
            &&& look_after_restore(faded, restore_of(saved, faded.exstyle)) == before
            &&& look_after_restore(twice, restore_of(saved, twice.exstyle)) == before
        }),
{
    let set = exstyle | WS_EX_LAYERED;
    assert((exstyle | 0x0008_0000) & 0x0008_0000 != 0) by (bit_vector);
    assert(exstyle & 0x0008_0000 == 0 ==> (exstyle | 0x0008_0000) & !0x0008_0000 == exstyle)
        by (bit_vector);
}

/// A faded window has the layered bit and is seen through, and stays visible.
pub proof fn faded_windows_are_seen_through(look: Look, transparency: u8)
    ensures
        is_layered(look_after_fade(look, fade_of(look.exstyle, transparency)).exstyle),
        77 <= look_after_fade(look, fade_of(look.exstyle, transparency)).alpha <= 230,
{
    let exstyle = look.exstyle;
    assert((exstyle | 0x0008_0000) & 0x0008_0000 != 0) by (bit_vector);
    mapping::transparency_orders_alpha(transparency, transparency);
}

/// What a window looked like is captured as it was: the style with its layered bit, and the alpha
/// where the window is layered and uses one, else full opacity.
pub proof fn the_look_is_captured_as_it_was(exstyle: i64, alpha: u8, flags: u32)
    ensures
        captured(exstyle, Some((alpha, flags))).exstyle == exstyle,
        captured(exstyle, Some((alpha, flags))).was_layered <==> exstyle & 0x0008_0000 != 0,
        exstyle & 0x0008_0000 != 0 && flags & 2 == 2 ==> captured(
            exstyle,
            Some((alpha, flags)),
        ).alpha == alpha,
        !(exstyle & 0x0008_0000 != 0 && flags & 2 == 2) ==> captured(
            exstyle,
            Some((alpha, flags)),
        ).alpha == 255,
        captured(exstyle, None) == (SavedStyle {
            exstyle,
            was_layered: exstyle & 0x0008_0000 != 0,
            alpha: 255,
        }),
{
}

/// Fading adds the layered bit and nothing else, once, and sets the alpha that the transparency
/// leaves.
pub proof fn fading_adds_one_bit(exstyle: i64, transparency: u8)
    ensures
        fade_of(exstyle, transparency).style is None <==> exstyle & 0x0008_0000 != 0,
        fade_of(exstyle, transparency).style matches Some(style) ==> style & 0x0008_0000 != 0
            && style & !0x0008_0000i64 == exstyle,
        10 <= transparency <= 70 ==> -50 < 100 * fade_of(exstyle, transparency).alpha - 255 * (100
            - transparency) <= 50,
        fade_of(exstyle, transparency).alpha == fade_of(
            0,
            mapping::transparency_of(transparency),
        ).alpha,
{
    assert((exstyle | 0x0008_0000) & 0x0008_0000 != 0) by (bit_vector);
    assert(exstyle & 0x0008_0000 == 0 ==> (exstyle | 0x0008_0000) & !0x0008_0000i64 == exstyle)
        by (bit_vector);
    if 10 <= transparency <= 70 {
        mapping::the_alpha_is_what_is_left(transparency);
    }
    mapping::sliders_stay_in_range(transparency);
}

/// Putting a window back takes off only what was put on. A window that was layered gets the alpha
/// it had; one that was not loses the layered bit, whatever else its style became meanwhile.
pub proof fn putting_back_takes_off_one_bit(saved: SavedStyle, exstyle: i64)
    ensures
        saved.was_layered ==> restore_of(saved, exstyle) == RestorePlan::SetAlpha(saved.alpha),
        !saved.was_layered ==> (restore_of(saved, exstyle) matches RestorePlan::SetStyle(style)
            && style & 0x0008_0000 == 0 && style | 0x0008_0000 == exstyle | 0x0008_0000),
        !saved.was_layered && exstyle == saved.exstyle | 0x0008_0000 && saved.exstyle & 0x0008_0000
            == 0 ==> restore_of(saved, exstyle) == RestorePlan::SetStyle(saved.exstyle),
{
    assert((exstyle & !0x0008_0000i64) & 0x0008_0000 == 0) by (bit_vector);
    assert((exstyle & !0x0008_0000i64) | 0x0008_0000 == exstyle | 0x0008_0000) by (bit_vector);
    let was = saved.exstyle;
    assert(was & 0x0008_0000 == 0 ==> (was | 0x0008_0000) & !0x0008_0000i64 == was)
        by (bit_vector);
}

/// A rectangle is as wide and as high as its corners are apart, with the extra on its width and no
/// less than asked for, as far as that fits.
pub proof fn a_size_is_the_distance_of_the_corners(bounds: Bounds, extra: int, least: int)
    requires
        i32::MIN <= least <= i32::MAX,
    ensures
        least <= bounds.right - bounds.left + extra <= i32::MAX ==> bounds.left + size_of(
            bounds,
            extra,
            least,
        ).0 == bounds.right + extra,
        least <= bounds.bottom - bounds.top <= i32::MAX ==> bounds.top + size_of(
            bounds,
            extra,
            least,
        ).1 == bounds.bottom,
        bounds.right - bounds.left + extra < least ==> size_of(bounds, extra, least).0 == least,
        bounds.bottom - bounds.top < least ==> size_of(bounds, extra, least).1 == least,
        bounds.right - bounds.left + extra > i32::MAX ==> size_of(bounds, extra, least).0
            == i32::MAX,
        bounds.bottom - bounds.top > i32::MAX ==> size_of(bounds, extra, least).1 == i32::MAX,
{
}

/// The layered bit is the one at 0x80000.
pub proof fn the_layered_bit_is_looked_at_alone(exstyle: i64, other: i64)
    requires
        exstyle & 0x0008_0000 == other & 0x0008_0000,
    ensures
        is_layered(exstyle) == is_layered(other),
        is_layered(0x0008_0000),
        !is_layered(!0x0008_0000i64),
{
    assert(0x0008_0000i64 & 0x0008_0000i64 != 0) by (bit_vector);
    assert(!0x0008_0000i64 & 0x0008_0000i64 == 0) by (bit_vector);
}

} // verus!
