//! The tray icon, present while "Keep in tray on close" is on.

use crate::rules::Store;
use crate::text;
use vstd::prelude::*;

verus! {

/// What keeps the icon in step.
#[derive(Debug, Clone, Copy, PartialEq, Eq, Structural)]
pub enum TrayPlan {
    Nothing,
    Remove,
    /// Add the icon, with its Pause item checked or not.
    Build(bool),
    /// Check the Pause item or not.
    Check(bool),
}

/// `icon` says whether there is an icon, and whether its Pause item is checked.
pub open spec fn plan_for(icon: Option<bool>, enabled: bool, paused: bool) -> TrayPlan {
    match icon {
        Some(checked) => if !enabled {
            TrayPlan::Remove
        } else if checked != paused {
            TrayPlan::Check(paused)
        } else {
            TrayPlan::Nothing
        },
        None => if enabled {
            TrayPlan::Build(paused)
        } else {
            TrayPlan::Nothing
        },
    }
}

pub open spec fn icon_after(icon: Option<bool>, plan: TrayPlan) -> Option<bool> {
    match plan {
        TrayPlan::Nothing => icon,
        TrayPlan::Remove => None,
        TrayPlan::Build(checked) => Some(checked),
        TrayPlan::Check(checked) => Some(checked),
    }
}

/// Create or remove the icon to match the setting, and keep the Pause check in step.
pub fn sync(icon: Option<bool>, enabled: bool, paused: bool) -> (r: TrayPlan)
    ensures
        r == plan_for(icon, enabled, paused),
{
    match icon {
        Some(checked) => {
            if !enabled {
                TrayPlan::Remove
            } else if checked != paused {
                TrayPlan::Check(paused)
            } else {
                TrayPlan::Nothing
            }
        },
        None => {
            if enabled {
                TrayPlan::Build(paused)
            } else {
                TrayPlan::Nothing
            }
        },
    }
}

/// What an item of the tray menu does.
#[derive(Debug, Clone, Copy, PartialEq, Eq, Structural)]
pub enum MenuAction {
    Open,
    TogglePause,
    Exit,
    Nothing,
}

pub fn menu_action(id: &str) -> (r: MenuAction)
    ensures
        r == if id@ == "open"@ {
            MenuAction::Open
        } else if id@ == "pause"@ {
            MenuAction::TogglePause
        } else if id@ == "exit"@ {
            MenuAction::Exit
        } else {
            MenuAction::Nothing
        },
{
    if text::same_text(id, "open") {
        MenuAction::Open
    } else if text::same_text(id, "pause") {
        MenuAction::TogglePause
    } else if text::same_text(id, "exit") {
        MenuAction::Exit
    } else {
        MenuAction::Nothing
    }
}

/// Pauses the rules, or resumes them.
pub fn toggle_pause(store: &mut Store)
    ensures
        final(store)@.paused == !old(store)@.paused,
        final(store)@.rules == old(store)@.rules,
{
    store.paused = !store.paused;
}

/// After each step the icon is there exactly when it is wanted, and its Pause item shows whether
/// the rules are paused. A second step has nothing to do.
pub proof fn the_icon_stays_in_step(icon: Option<bool>, enabled: bool, paused: bool)
    ensures
        ({
            let after = icon_after(icon, plan_for(icon, enabled, paused));
            &&& after == if enabled {
                Some(paused)
            } else {
                None
            }
            &&& plan_for(after, enabled, paused) == TrayPlan::Nothing
        }),
{
}

/// The icon is added when it is wanted and not there, taken away when it is there and not wanted,
/// and otherwise only its check is set, when it differs. There is never a second icon.
pub proof fn the_icon_comes_and_goes_once(icon: Option<bool>, enabled: bool, paused: bool)
    ensures
        icon is None && enabled ==> plan_for(icon, enabled, paused) == TrayPlan::Build(paused),
        icon is None && !enabled ==> plan_for(icon, enabled, paused) == TrayPlan::Nothing,
        icon is Some && !enabled ==> plan_for(icon, enabled, paused) == TrayPlan::Remove,
        icon == Some(!paused) && enabled ==> plan_for(icon, enabled, paused) == TrayPlan::Check(
            paused,
        ),
        icon == Some(paused) && enabled ==> plan_for(icon, enabled, paused) == TrayPlan::Nothing,
{
}

} // verus!
