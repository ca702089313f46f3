//! Starting Blurman, finding the one that runs, and living in the tray.

use vstd::prelude::*;

verus! {

/// What starting Blurman comes to.
#[derive(Debug, Clone, Copy, PartialEq, Eq, Structural)]
pub enum LaunchStep {
    /// There is nothing to do.
    Leave,
    /// Ask the Blurman that runs to come forward.
    ShowRunning,
    /// Be the one that runs.
    Open,
}

/// Decides what to do first. `startup` is set by the Windows startup entry, and `running` says
/// whether a Blurman runs already.
pub fn launch(startup: bool, running: bool) -> (r: LaunchStep)
    ensures
        r == if startup && running {
            LaunchStep::Leave
        } else {
            LaunchStep::ShowRunning
        },
{
    if startup && running {
        LaunchStep::Leave
    } else {
        LaunchStep::ShowRunning
    }
}

/// Decides what to do next. `shown` says whether a Blurman that runs was told to come forward.
pub fn after_show(shown: bool) -> (r: LaunchStep)
    ensures
        r == if shown {
            LaunchStep::Leave
        } else {
            LaunchStep::Open
        },
{
    if shown {
        LaunchStep::Leave
    } else {
        LaunchStep::Open
    }
}

/// The window of the Blurman that runs, if there is one.
pub fn find_host(found: Option<isize>) -> (r: Option<isize>)
    ensures
        r == if found == Some(0isize) {
            None
        } else {
            found
        },
{
    match found {
        Some(0) => None,
        _ => found,
    }
}

/// What the loop around the window does next.
#[derive(Debug, Clone, Copy, PartialEq, Eq, Structural)]
pub enum RunStep {
    /// Sit in the tray until the window is asked for.
    Wait,
    OpenWindow,
    Quit,
}

/// A startup launch lives in the tray, where there is one.
pub fn run(startup: bool, in_tray: bool) -> (r: RunStep)
    ensures
        r == if startup && in_tray {
            RunStep::Wait
        } else {
            RunStep::OpenWindow
        },
{
    if startup && in_tray {
        RunStep::Wait
    } else {
        RunStep::OpenWindow
    }
}

/// After waiting: the window was asked for, or Blurman is to quit.
pub fn after_wait(open: bool) -> (r: RunStep)
    ensures
        r == if open {
            RunStep::OpenWindow
        } else {
            RunStep::Quit
        },
{
    if open {
        RunStep::OpenWindow
    } else {
        RunStep::Quit
    }
}

/// After the window closed: it goes back to the tray when it was closed for that.
pub fn after_window(to_tray: bool) -> (r: RunStep)
    ensures
        r == if to_tray {
            RunStep::Wait
        } else {
            RunStep::Quit
        },
{
    if to_tray {
        RunStep::Wait
    } else {
        RunStep::Quit
    }
}

/// How to bring a window forward.
#[derive(Debug, Clone, Copy, PartialEq, Eq, Structural)]
pub enum ShowCommand {
    Restore,
    Show,
}

/// How to bring Blurman's window forward, if there is one.
pub fn show_window(hwnd: isize, minimized: bool) -> (r: Option<ShowCommand>)
    ensures
        r == if hwnd == 0 {
            None
        } else if minimized {
            Some(ShowCommand::Restore)
        } else {
            Some(ShowCommand::Show)
        },
{
    if hwnd == 0 {
        None
    } else if minimized {
        Some(ShowCommand::Restore)
    } else {
        Some(ShowCommand::Show)
    }
}

/// Whether to go on waiting for the effect thread to put every app back. Times are in
/// milliseconds.
pub fn keeps_waiting(done: bool, elapsed: u64, timeout: u64) -> (r: bool)
    ensures
        r == (!done && elapsed < timeout),
{
    !done && elapsed < timeout
}

} // verus!
