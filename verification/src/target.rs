//! Find normal top-level windows and decide how they are faded and restored.

use crate::rules::Rule;
use crate::text::{self, Cut};
use vstd::prelude::*;
use vstd::string::*;

verus! {

pub const WS_CHILD: u32 = 0x4000_0000;

pub const WS_CAPTION: u32 = 0x00C0_0000;

pub const WS_THICKFRAME: u32 = 0x0004_0000;

pub const WS_EX_TOPMOST: u32 = 0x0000_0008;

pub const WS_EX_TOOLWINDOW: u32 = 0x0000_0080;

pub const WS_EX_LAYERED: i64 = 0x0008_0000;

pub const LWA_ALPHA: u32 = 0x0000_0002;

/// The smallest size of a window that is frosted.
pub const MIN_WIDTH: i64 = 160;

pub const MIN_HEIGHT: i64 = 90;

#[derive(Debug, Clone, Copy, PartialEq, Eq, Structural)]
pub struct Bounds {
    pub left: i32,
    pub top: i32,
    pub right: i32,
    pub bottom: i32,
}

impl Bounds {
    pub open spec fn is_small(self) -> bool {
        self.right - self.left < MIN_WIDTH || self.bottom - self.top < MIN_HEIGHT
    }

    fn too_small(&self) -> (r: bool)
        ensures
            r == self.is_small(),
    {
        (self.right as i64) - (self.left as i64) < MIN_WIDTH || (self.bottom as i64) - (
        self.top as i64) < MIN_HEIGHT
    }
}

#[derive(Debug)]
pub struct LiveWindow {
    pub hwnd: isize,
    pub pid: u32,
    pub process_start: u64,
    pub process: String,
    pub title: String,
    pub elevated: bool,
    /// On another virtual desktop, or hidden by the shell.
    pub cloaked: bool,
    pub bounds: Bounds,
}

impl Clone for LiveWindow {
    fn clone(&self) -> (r: Self)
        ensures
            r == *self,
    {
        LiveWindow {
            hwnd: self.hwnd,
            pid: self.pid,
            process_start: self.process_start,
            process: self.process.clone(),
            title: self.title.clone(),
            elevated: self.elevated,
            cloaked: self.cloaked,
            bounds: self.bounds,
        }
    }
}

#[derive(Debug)]
pub struct AppGroup {
    pub process: String,
    pub sample_title: String,
    pub windows: usize,
    pub elevated: bool,
}

impl Clone for AppGroup {
    fn clone(&self) -> (r: Self)
        ensures
            r == *self,
    {
        AppGroup {
            process: self.process.clone(),
            sample_title: self.sample_title.clone(),
            windows: self.windows,
            elevated: self.elevated,
        }
    }
}

/// A group with its texts as characters.
pub struct GroupView {
    pub process: Seq<char>,
    pub sample_title: Seq<char>,
    pub windows: nat,
    pub elevated: bool,
}

impl View for AppGroup {
    type V = GroupView;

    open spec fn view(&self) -> GroupView {
        GroupView {
            process: self.process@,
            sample_title: self.sample_title@,
            windows: self.windows as nat,
            elevated: self.elevated,
        }
    }
}

pub open spec fn group_views(groups: Seq<AppGroup>) -> Seq<GroupView> {
    groups.map_values(|g: AppGroup| g@)
}

/// The place of the group of that app, or the number of groups when there is none.
pub open spec fn group_of(groups: Seq<GroupView>, name: Seq<char>) -> int
    decreases groups.len(),
{
    if groups.len() == 0 || text::same_name(groups.first().process, name) {
        0
    } else {
        1 + group_of(groups.drop_first(), name)
    }
}

/// The windows that are not cloaked grouped by app, in the order in which the apps come up. The
/// title is that of the app's first window.
pub open spec fn grouped(windows: Seq<LiveWindow>) -> Seq<GroupView>
    decreases windows.len(),
{
    if windows.len() == 0 {
        Seq::empty()
    } else {
        let front = grouped(windows.drop_last());
        let window = windows.last();
        let at = group_of(front, window.process@);
        if window.cloaked {
            front
        } else if at < front.len() {
            front.update(
                at,
                GroupView {
                    windows: front[at].windows + 1,
                    elevated: front[at].elevated || window.elevated,
                    ..front[at]
                },
            )
        } else {
            front.push(
                GroupView {
                    process: window.process@,
                    sample_title: window.title@,
                    windows: 1,
                    elevated: window.elevated,
                },
            )
        }
    }
}

/// Each group comes before the next by its name without regard to case.
pub open spec fn in_order(groups: Seq<GroupView>) -> bool {
    forall|k: int, l: int|
        0 <= k < l < groups.len() ==> text::precedes(
            text::folded((#[trigger] groups[k]).process),
            text::folded((#[trigger] groups[l]).process),
        )
}

/// The two hold the same groups.
pub open spec fn same_groups(a: Seq<GroupView>, b: Seq<GroupView>) -> bool {
    &&& a.len() == b.len()
    &&& forall|k: int| 0 <= k < b.len() ==> a.contains(#[trigger] b[k])
    &&& forall|k: int| 0 <= k < a.len() ==> b.contains(#[trigger] a[k])
}

/// The place of the first enabled rule for that app, or the number of rules when there is none.
pub open spec fn enabled_for(rules: Seq<Rule>, name: Seq<char>) -> int
    decreases rules.len(),
{
    if rules.len() == 0 || (rules.first().enabled && text::same_name(
        rules.first().process@,
        name,
    )) {
        0
    } else {
        1 + enabled_for(rules.drop_first(), name)
    }
}

/// Each window that an enabled rule is for, with that rule.
pub open spec fn ruled(windows: Seq<LiveWindow>, rules: Seq<Rule>) -> Seq<(LiveWindow, Rule)>
    decreases windows.len(),
{
    if windows.len() == 0 {
        Seq::empty()
    } else {
        let front = ruled(windows.drop_last(), rules);
        let window = windows.last();
        let at = enabled_for(rules, window.process@);
        if at < rules.len() {
            front.push((window, rules[at]))
        } else {
            front
        }
    }
}

fn find_group(groups: &Vec<AppGroup>, name: &str) -> (r: usize)
    ensures
        r == group_of(group_views(groups@), name@),
        r <= groups@.len(),
{
    let ghost all = group_views(groups@);
    let mut i: usize = 0;
    assert(all.skip(0) =~= all);
    while i < groups.len() && !text::eq_ignore_ascii_case(groups[i].process.as_str(), name)
        invariant
            all == group_views(groups@),
            i <= groups@.len(),
            group_of(all, name@) == i + group_of(all.skip(i as int), name@),
        decreases groups.len() - i,
    {
        assert(all.skip(i as int).drop_first() =~= all.skip(i + 1));
        i += 1;
    }
    i
}

proof fn lemma_group_of(groups: Seq<GroupView>, name: Seq<char>)
    ensures
        0 <= group_of(groups, name) <= groups.len(),
        group_of(groups, name) < groups.len() ==> text::same_name(
            groups[group_of(groups, name)].process,
            name,
        ),
        group_of(groups, name) == groups.len() ==> forall|k: int|
            0 <= k < groups.len() ==> !text::same_name((#[trigger] groups[k]).process, name),
    decreases groups.len(),
{
    if groups.len() > 0 && !text::same_name(groups.first().process, name) {
        let rest = groups.drop_first();
        lemma_group_of(rest, name);
        if group_of(groups, name) == groups.len() {
            assert forall|k: int| 0 <= k < groups.len() implies !text::same_name(
                (#[trigger] groups[k]).process,
                name,
            ) by {
                if k > 0 {
                    assert(groups[k] == rest[k - 1]);
                }
            }
        }
    }
}

/// No two groups are of one app, and no group has more windows than there are.
proof fn lemma_grouped(windows: Seq<LiveWindow>)
    ensures
        forall|k: int, l: int|
            0 <= k < l < grouped(windows).len() ==> !text::same_name(
                (#[trigger] grouped(windows)[k]).process,
                (#[trigger] grouped(windows)[l]).process,
            ),
        forall|k: int|
            0 <= k < grouped(windows).len() ==> 1 <= (#[trigger] grouped(windows)[k]).windows
                <= windows.len(),
    decreases windows.len(),
{
    if windows.len() > 0 {
        let front = grouped(windows.drop_last());
        let all = grouped(windows);
        lemma_grouped(windows.drop_last());
        lemma_group_of(front, windows.last().process@);
        let at = group_of(front, windows.last().process@);
        assert forall|k: int, l: int| 0 <= k < l < all.len() implies !text::same_name(
            (#[trigger] all[k]).process,
            (#[trigger] all[l]).process,
        ) by {
            if l < front.len() {
                assert(all[k].process == front[k].process && all[l].process == front[l].process);
                assert(!text::same_name(front[k].process, front[l].process));
            } else {
                assert(all[k] == front[k]);
            }
        }
        assert forall|k: int| 0 <= k < all.len() implies 1 <= (#[trigger] all[k]).windows
            <= windows.len() by {
            if k < front.len() {
                assert(front[k].windows <= windows.len() - 1);
            }
        }
    }
}

/// The windows of each app as one group, in alphabetical order.
pub fn list_groups(windows: &Vec<LiveWindow>) -> (r: Vec<AppGroup>)
    ensures
        same_groups(group_views(r@), grouped(windows@)),
        in_order(group_views(r@)),
{
    let mut groups: Vec<AppGroup> = Vec::new();
    let mut i: usize = 0;
    assert(group_views(groups@) =~= grouped(windows@.take(0)));
    while i < windows.len()
        invariant
            i <= windows@.len(),
            group_views(groups@) == grouped(windows@.take(i as int)),
        decreases windows.len() - i,
    {
        let window: &LiveWindow = &windows[i];
        let ghost part = windows@.take(i + 1);
        assert(part.drop_last() =~= windows@.take(i as int));
        assert(part.last() == *window);
        if !window.cloaked {
            let ghost was = groups@;
            let at: usize = find_group(&groups, window.process.as_str());
            if at < groups.len() {
                let count: usize = groups[at].windows;
                let elevated: bool = groups[at].elevated || window.elevated;
                proof {
                    lemma_grouped(windows@.take(i as int));
                    assert(group_views(was)[at as int].windows == count);
                }
                let process: String = groups[at].process.clone();
                let sample_title: String = groups[at].sample_title.clone();
                groups.set(at, AppGroup { process, sample_title, windows: count + 1, elevated });
                assert(group_views(groups@) =~= grouped(part));
            } else {
                groups.push(
                    AppGroup {
                        process: window.process.clone(),
                        sample_title: window.title.clone(),
                        windows: 1,
                        elevated: window.elevated,
                    },
                );
                assert(group_views(groups@) =~= grouped(part));
            }
        }
        i += 1;
    }
    assert(windows@.take(i as int) =~= windows@);
    proof {
        lemma_grouped(windows@);
    }
    sort_groups(groups)
}

/// Puts groups of different apps in alphabetical order.
fn sort_groups(groups: Vec<AppGroup>) -> (r: Vec<AppGroup>)
    requires
        forall|k: int, l: int|
            0 <= k < l < group_views(groups@).len() ==> !text::same_name(
                (#[trigger] group_views(groups@)[k]).process,
                (#[trigger] group_views(groups@)[l]).process,
            ),
    ensures
        same_groups(group_views(r@), group_views(groups@)),
        in_order(group_views(r@)),
{
    let ghost all = group_views(groups@);
    let mut sorted: Vec<AppGroup> = Vec::new();
    let mut i: usize = 0;
    assert(same_groups(group_views(sorted@), all.take(0)));
    while i < groups.len()
        invariant
            all == group_views(groups@),
            forall|k: int, l: int|
                0 <= k < l < all.len() ==> !text::same_name(
                    (#[trigger] all[k]).process,
                    (#[trigger] all[l]).process,
                ),
            i <= groups@.len(),
            same_groups(group_views(sorted@), all.take(i as int)),
            in_order(group_views(sorted@)),
        decreases groups.len() - i,
    {
        let group: AppGroup = groups[i].clone();
        assert(group@ == all[i as int]);
        let name: Vec<u32> = text::fold_text(group.process.as_str());
        let ghost was = group_views(sorted@);
        let mut at: usize = 0;
        let mut searching: bool = true;
        while searching && at < sorted.len()
            invariant
                was == group_views(sorted@),
                name@ == text::folded(group.process@),
                in_order(was),
                at <= sorted@.len(),
                forall|k: int|
                    0 <= k < at ==> !text::precedes(
                        name@,
                        text::folded((#[trigger] was[k]).process),
                    ),
                !searching ==> at < sorted@.len() && text::precedes(
                    name@,
                    text::folded(was[at as int].process),
                ),
            decreases
                    sorted.len() - at + if searching {
                        1int
                    } else {
                        0
                    },
        {
            let other: Vec<u32> = text::fold_text(sorted[at].process.as_str());
            assert(other@ == text::folded(was[at as int].process));
            if text::comes_before(&name, &other) {
                searching = false;
            } else {
                at += 1;
            }
        }
        sorted.insert(at, group);
        proof {
            let now = group_views(sorted@);
            assert(now =~= was.insert(at as int, group@));
            assert forall|k: int| 0 <= k < was.len() implies text::folded(
                (#[trigger] was[k]).process,
            ) != name@ by {
                assert(all.take(i as int).contains(was[k]));
                let m = choose|m: int| 0 <= m < i && all.take(i as int)[m] == was[k];
                assert(!text::same_name(all[m].process, all[i as int].process));
            }
            assert(in_order(now)) by {
                assert forall|k: int, l: int| 0 <= k < l < now.len() implies text::precedes(
                    text::folded((#[trigger] now[k]).process),
                    text::folded((#[trigger] now[l]).process),
                ) by {
                    if l < at {
                        assert(now[k] == was[k] && now[l] == was[l]);
                    } else if l == at {
                        assert(now[k] == was[k]);
                        text::lemma_precedes_total(text::folded(was[k].process), name@);
                    } else {
                        assert(now[l] == was[l - 1]);
                        if k < at {
                            assert(now[k] == was[k]);
                        } else if k == at {
                            if l - 1 > at {
                                assert(text::precedes(
                                    text::folded(was[at as int].process),
                                    text::folded(was[l - 1].process),
                                ));
                                text::lemma_precedes_transitive(
                                    name@,
                                    text::folded(was[at as int].process),
                                    text::folded(was[l - 1].process),
                                );
                            }
                        } else {
                            assert(now[k] == was[k - 1]);
                        }
                    }
                }
            }
            assert(same_groups(now, all.take(i + 1))) by {
                assert forall|k: int| 0 <= k < i + 1 implies now.contains(
                    #[trigger] all.take(i + 1)[k],
                ) by {
                    if k < i {
                        assert(all.take(i as int)[k] == all[k]);
                        assert(was.contains(all[k]));
                        let m = choose|m: int| 0 <= m < was.len() && was[m] == all[k];
                        if m < at {
                            assert(now[m] == all[k]);
                        } else {
                            assert(now[m + 1] == all[k]);
                        }
                    } else {
                        assert(now[at as int] == all[k]);
                    }
                }
                assert forall|k: int| 0 <= k < now.len() implies all.take(i + 1).contains(
                    #[trigger] now[k],
                ) by {
                    if k == at {
                        assert(all.take(i + 1)[i as int] == now[k]);
                    } else {
                        let j = if k < at { k } else { k - 1 };
                        assert(now[k] == was[j]);
                        assert(all.take(i as int).contains(was[j]));
                        let m = choose|m: int| 0 <= m < i && all.take(i as int)[m] == was[j];
                        assert(all.take(i + 1)[m] == now[k]);
                    }
                }
            }
        }
        i += 1;
    }
    assert(all.take(i as int) =~= all);
    sorted
}

fn find_enabled(rules: &Vec<Rule>, name: &str) -> (r: usize)
    ensures
        r == enabled_for(rules@, name@),
        r <= rules@.len(),
{
    let mut i: usize = 0;
    assert(rules@.skip(0) =~= rules@);
    while i < rules.len() && !(rules[i].enabled && text::eq_ignore_ascii_case(
        rules[i].process.as_str(),
        name,
    ))
        invariant
            i <= rules@.len(),
            enabled_for(rules@, name@) == i + enabled_for(rules@.skip(i as int), name@),
        decreases rules.len() - i,
    {
        assert(rules@.skip(i as int).drop_first() =~= rules@.skip(i + 1));
        i += 1;
    }
    i
}

/// The enabled rule for that app, if there is one.
pub fn enabled_rule<'a>(rules: &'a Vec<Rule>, name: &str) -> (r: Option<&'a Rule>)
    ensures
        match r {
            Some(rule) => enabled_for(rules@, name@) < rules@.len() && *rule == rules@[enabled_for(
                rules@,
                name@,
            )],
            None => enabled_for(rules@, name@) == rules@.len(),
        },
{
    let i: usize = find_enabled(rules, name);
    if i < rules.len() {
        Some(&rules[i])
    } else {
        None
    }
}

/// The windows that an enabled rule is for, each with that rule.
pub fn windows_for_rules(windows: &Vec<LiveWindow>, rules: &Vec<Rule>) -> (r: Vec<
    (LiveWindow, Rule),
>)
    ensures
        r@ == ruled(windows@, rules@),
{
    let mut found: Vec<(LiveWindow, Rule)> = Vec::new();
    let mut i: usize = 0;
    assert(found@ =~= ruled(windows@.take(0), rules@));
    while i < windows.len()
        invariant
            i <= windows@.len(),
            found@ == ruled(windows@.take(i as int), rules@),
        decreases windows.len() - i,
    {
        let ghost part = windows@.take(i + 1);
        assert(part.drop_last() =~= windows@.take(i as int));
        assert(part.last() == windows@[i as int]);
        let at: usize = find_enabled(rules, windows[i].process.as_str());
        if at < rules.len() {
            found.push((windows[i].clone(), rules[at].clone()));
        }
        i += 1;
    }
    assert(windows@.take(i as int) =~= windows@);
    found
}

/// What Windows says about a top-level window.
pub struct WindowFacts {
    pub hwnd: isize,
    pub visible: bool,
    /// The window is its own root: no other window holds it.
    pub is_root: bool,
    pub exstyle: u32,
    pub class: String,
    pub title: String,
    pub bounds: Bounds,
    pub minimized: bool,
    pub pid: u32,
    pub cloaked: bool,
}

/// A class of window that belongs to the desktop itself.
pub open spec fn is_shell_class(class: Seq<char>) -> bool {
    ||| class == "Progman"@
    ||| class == "Shell_TrayWnd"@
    ||| class == "Shell_SecondaryTrayWnd"@
    ||| class == "WorkerW"@
}

impl WindowFacts {
    /// A visible, titled window of an app that is big enough or minimized.
    pub open spec fn is_app_window(self) -> bool {
        &&& self.visible
        &&& self.is_root
        &&& self.exstyle & WS_EX_TOOLWINDOW == 0
        &&& !is_shell_class(self.class@)
        &&& text::trim(self.title@, Cut::Spaces).len() > 0
        &&& self.minimized || !self.bounds.is_small()
        &&& self.pid != 0
    }
}

/// The window as one that can be frosted, if it is one. Its process is looked up later.
pub fn inspect_window(facts: WindowFacts) -> (r: Option<LiveWindow>)
    ensures
        r is Some <==> facts.is_app_window(),
        r matches Some(w) ==> w.hwnd == facts.hwnd && w.pid == facts.pid && w.process_start == 0
            && w.process@.len() == 0 && w.title == facts.title && !w.elevated && w.cloaked
            == facts.cloaked && w.bounds == facts.bounds,
{
    if !facts.visible || !facts.is_root || facts.exstyle & WS_EX_TOOLWINDOW != 0 {
        return None;
    }
    let class: &str = facts.class.as_str();
    if text::same_text(class, "Progman") || text::same_text(class, "Shell_TrayWnd")
        || text::same_text(class, "Shell_SecondaryTrayWnd") || text::same_text(class, "WorkerW") {
        return None;
    }
    if text::is_blank(facts.title.as_str()) {
        return None;
    }
    // A minimized window keeps its glass hidden but stays faded, so it restores already frosted.

    if !facts.minimized && facts.bounds.too_small() {
        return None;
    }
    if facts.pid == 0 {
        return None;
    }
    Some(
        LiveWindow {
            hwnd: facts.hwnd,
            pid: facts.pid,
            process_start: 0,
            process: String::new(),
            title: facts.title,
            elevated: false,
            cloaked: facts.cloaked,
            bounds: facts.bounds,
        },
    )
}

/// The executable name behind a window, if it is a window that could be frosted now.
pub fn frostable_process(facts: WindowFacts, name: Option<String>) -> (r: Option<String>)
    ensures
        r == if facts.is_app_window() {
            name
        } else {
            None
        },
{
    match inspect_window(facts) {
        Some(_) => name,
        None => None,
    }
}

pub fn is_frostable(facts: WindowFacts) -> (r: bool)
    ensures
        r == facts.is_app_window(),
{
    inspect_window(facts).is_some()
}

/// What Windows says about a window that may not be shown or titled yet.
#[derive(Clone, Copy)]
pub struct EarlyFacts {
    pub is_root: bool,
    pub style: u32,
    pub exstyle: u32,
    pub rect: Option<Bounds>,
    pub pid: u32,
}

impl EarlyFacts {
    /// A top-level window with a title bar or sizing border and a real size.
    pub open spec fn is_candidate(self) -> bool {
        &&& self.is_root
        &&& self.style & WS_CHILD == 0
        &&& self.exstyle & WS_EX_TOOLWINDOW == 0
        &&& self.style & WS_CAPTION == WS_CAPTION || self.style & WS_THICKFRAME != 0
        &&& self.rect matches Some(rect) && !rect.is_small()
        &&& self.pid != 0
    }
}

/// The process id behind a top-level window with a title bar or sizing border and a real size.
/// Judged without needing the window to be visible or titled, so it works the moment the window
/// is created. Menus, tooltips, and hidden helper windows are left alone.
pub fn early_candidate(facts: EarlyFacts) -> (r: Option<u32>)
    ensures
        r == if facts.is_candidate() {
            Some(facts.pid)
        } else {
            None
        },
{
    if !facts.is_root || facts.style & WS_CHILD != 0 || facts.exstyle & WS_EX_TOOLWINDOW != 0 {
        return None;
    }
    if facts.style & WS_CAPTION != WS_CAPTION && facts.style & WS_THICKFRAME == 0 {
        return None;
    }
    match facts.rect {
        Some(rect) => {
            if rect.too_small() || facts.pid == 0 {
                None
            } else {
                Some(facts.pid)
            }
        },
        None => None,
    }
}

/// The frame that is drawn on screen when Windows gives one, else the window's own rectangle.
/// `frame` is what the first question left behind and `known` whether it was answered.
pub fn frame_bounds(frame: Bounds, known: bool, window: Option<Bounds>) -> (r: Bounds)
    ensures
        r == if known && frame.right > frame.left && frame.bottom > frame.top {
            frame
        } else {
            match window {
                Some(rect) => rect,
                None => frame,
            }
        },
{
    if known && frame.right > frame.left && frame.bottom > frame.top {
        return frame;
    }
    match window {
        Some(rect) => rect,
        None => frame,
    }
}

/// On another virtual desktop, or hidden by the shell. `value` counts only when Windows gave it.
pub fn is_cloaked(value: Option<u32>) -> (r: bool)
    ensures
        r == (value matches Some(v) && v != 0),
{
    match value {
        Some(v) => v != 0,
        None => false,
    }
}

/// Minimized, hidden, or cloaked: the glass should not be on screen.
pub fn is_out_of_view(minimized: bool, visible: bool, cloaked: bool) -> (r: bool)
    ensures
        r == (minimized || !visible || cloaked),
{
    minimized || !visible || cloaked
}

pub fn is_topmost(exstyle: u32) -> (r: bool)
    ensures
        r == (exstyle & WS_EX_TOPMOST != 0),
        r == (exstyle & 0x8 != 0),
{
    exstyle & WS_EX_TOPMOST != 0
}

/// The HWND still belongs to the same process instance we saw earlier: it exists, its process id
/// is `pid`, and the process started when it did, where that is known.
pub fn window_alive(
    is_window: bool,
    current_pid: u32,
    current_start: u64,
    pid: u32,
    process_start: u64,
) -> (r: bool)
    ensures
        r == (is_window && current_pid == pid && (process_start == 0 || current_start
            == process_start)),
{
    is_window && current_pid == pid && (process_start == 0 || current_start == process_start)
}

/// The moment a process was created, from the two halves of its stamp.
pub fn process_start(high: u32, low: u32) -> (r: u64)
    ensures
        r == high * 0x1_0000_0000 + low,
{
    high as u64 * 0x1_0000_0000 + low as u64
}

/// True when the process runs above our privilege level, so its windows will refuse changes.
/// `own` and `token` are what the two process tokens say, where they can be read, and `opened`
/// whether the process can be opened at all. An elevated token cannot be opened from a normal
/// process, which is itself the answer.
pub fn is_elevated(own: Option<bool>, opened: bool, token: Option<bool>) -> (r: bool)
    ensures
        r == (own != Some(true) && opened && token != Some(false)),
{
    match own {
        Some(true) => {
            return false;
        },
        _ => {},
    }
    if !opened {
        return false;
    }
    match token {
        Some(elevated) => elevated,
        None => true,
    }
}

/// What follows the last backslash of a path.
pub open spec fn image_name(path: Seq<char>) -> Seq<char>
    decreases path.len(),
{
    if path.len() == 0 || path.last() == '\\' {
        Seq::empty()
    } else {
        image_name(path.drop_last()).push(path.last())
    }
}

/// The executable name in the full path of a process.
pub fn process_name(path: &str) -> (r: String)
    ensures
        r@ == image_name(path@),
{
    let chars: Vec<char> = text::chars_of(path);
    let n: usize = chars.len();
    let mut start: usize = n;
    assert(chars@.take(n as int) =~= path@);
    assert(image_name(path@) =~= image_name(chars@.take(n as int)) + chars@.skip(n as int));
    while start > 0 && chars[start - 1] != '\\'
        invariant
            start <= n,
            n == chars@.len(),
            chars@ == path@,
            image_name(path@) == image_name(chars@.take(start as int)) + chars@.skip(start as int),
        decreases start,
    {
        let ghost before = chars@.take(start as int);
        assert(before.drop_last() =~= chars@.take(start - 1));
        assert(image_name(before) + chars@.skip(start as int) =~= image_name(before.drop_last())
            + chars@.skip(start - 1));
        start -= 1;
    }
    assert(image_name(path@) =~= path@.subrange(start as int, n as int));
    path.substring_char(start, n).to_owned()
}

/// What is known about one process.
#[derive(Debug, Clone, Copy, PartialEq, Eq, Structural)]
pub struct ProcessInfo {
    pub pid: u32,
    pub start: u64,
    pub elevated: bool,
}

/// The windows of other processes than `own`, in their order.
pub open spec fn others(windows: Seq<LiveWindow>, own: u32) -> Seq<LiveWindow>
    decreases windows.len(),
{
    if windows.len() == 0 {
        Seq::empty()
    } else {
        let front = others(windows.drop_last(), own);
        if windows.last().pid == own {
            front
        } else {
            front.push(windows.last())
        }
    }
}

/// The windows that are not our own.
pub fn other_windows(windows: &Vec<LiveWindow>, own: u32) -> (r: Vec<LiveWindow>)
    ensures
        r@ == others(windows@, own),
{
    let mut found: Vec<LiveWindow> = Vec::new();
    let mut i: usize = 0;
    assert(found@ =~= others(windows@.take(0), own));
    while i < windows.len()
        invariant
            i <= windows@.len(),
            found@ == others(windows@.take(i as int), own),
        decreases windows.len() - i,
    {
        assert(windows@.take(i + 1).drop_last() =~= windows@.take(i as int));
        assert(windows@.take(i + 1).last() == windows@[i as int]);
        if windows[i].pid != own {
            found.push(windows[i].clone());
        }
        i += 1;
    }
    assert(windows@.take(i as int) =~= windows@);
    found
}

/// The last name listed for `pid`: a later entry takes the place of an earlier one.
pub open spec fn listed_name(names: Seq<(u32, String)>, pid: u32) -> Option<Seq<char>>
    decreases names.len(),
{
    if names.len() == 0 {
        None
    } else if names.last().0 == pid {
        Some(names.last().1@)
    } else {
        listed_name(names.drop_last(), pid)
    }
}

/// The listed name of a process, or one made from its number.
pub open spec fn shown_name(names: Seq<(u32, String)>, pid: u32) -> Seq<char> {
    match listed_name(names, pid) {
        Some(name) => name,
        None => "pid-"@ + text::digits(pid as nat),
    }
}

fn find_name(names: &Vec<(u32, String)>, pid: u32) -> (r: String)
    ensures
        r@ == shown_name(names@, pid),
{
    let mut i: usize = names.len();
    assert(names@.take(i as int) =~= names@);
    while i > 0
        invariant
            i <= names@.len(),
            listed_name(names@, pid) == listed_name(names@.take(i as int), pid),
        decreases i,
    {
        assert(names@.take(i as int).last() == names@[i - 1]);
        assert(names@.take(i as int).drop_last() =~= names@.take(i - 1));
        if names[i - 1].0 == pid {
            return names[i - 1].1.clone();
        }
        i -= 1;
    }
    let number: String = text::decimal(pid as u64);
    text::joined("pid-", number.as_str())
}

/// When a process started and whether it is elevated, by the first entry for it. A process without
/// an entry could not be asked.
pub open spec fn known_of(info: Seq<ProcessInfo>, pid: u32) -> (u64, bool)
    decreases info.len(),
{
    if info.len() == 0 {
        (0, false)
    } else if info.first().pid == pid {
        (info.first().start, info.first().elevated)
    } else {
        known_of(info.drop_first(), pid)
    }
}

fn find_info(info: &Vec<ProcessInfo>, pid: u32) -> (r: (u64, bool))
    ensures
        r == known_of(info@, pid),
{
    let mut i: usize = 0;
    assert(info@.skip(0) =~= info@);
    while i < info.len()
        invariant
            i <= info@.len(),
            known_of(info@, pid) == known_of(info@.skip(i as int), pid),
        decreases info.len() - i,
    {
        if info[i].pid == pid {
            return (info[i].start, info[i].elevated);
        }
        assert(info@.skip(i as int).drop_first() =~= info@.skip(i + 1));
        i += 1;
    }
    (0, false)
}

/// `r` is the window with what is known about its process filled in.
pub open spec fn is_labelled(
    r: LiveWindow,
    window: LiveWindow,
    info: Seq<ProcessInfo>,
    names: Seq<(u32, String)>,
) -> bool {
    &&& r == (LiveWindow {
        process_start: known_of(info, window.pid).0,
        elevated: known_of(info, window.pid).1,
        process: r.process,
        ..window
    })
    &&& r.process@ == shown_name(names, window.pid)
}

/// The windows of other processes that can be frosted, with what is known about each process.
pub fn enumerate_windows(
    found: &Vec<LiveWindow>,
    own: u32,
    info: &Vec<ProcessInfo>,
    names: &Vec<(u32, String)>,
) -> (r: Vec<LiveWindow>)
    ensures
        r@.len() == others(found@, own).len(),
        forall|i: int|
            0 <= i < r@.len() ==> is_labelled(
                #[trigger] r@[i],
                others(found@, own)[i],
                info@,
                names@,
            ),
{
    let windows: Vec<LiveWindow> = other_windows(found, own);
    let mut r: Vec<LiveWindow> = Vec::new();
    let mut i: usize = 0;
    while i < windows.len()
        invariant
            i <= windows@.len(),
            r@.len() == i,
            forall|j: int|
                0 <= j < i ==> is_labelled(#[trigger] r@[j], windows@[j], info@, names@),
        decreases windows.len() - i,
    {
        let window: &LiveWindow = &windows[i];
        let (start, elevated) = find_info(info, window.pid);
        r.push(
            LiveWindow {
                hwnd: window.hwnd,
                pid: window.pid,
                process_start: start,
                process: find_name(names, window.pid),
                title: window.title.clone(),
                elevated,
                cloaked: window.cloaked,
                bounds: window.bounds,
            },
        );
        i += 1;
    }
    r
}

/// How many of the windows are not cloaked.
pub open spec fn uncloaked(windows: Seq<LiveWindow>) -> nat
    decreases windows.len(),
{
    if windows.len() == 0 {
        0
    } else {
        uncloaked(windows.drop_last()) + if windows.last().cloaked {
            0nat
        } else {
            1
        }
    }
}

/// How many windows the groups count together.
pub open spec fn counted(groups: Seq<GroupView>) -> nat
    decreases groups.len(),
{
    if groups.len() == 0 {
        0
    } else {
        counted(groups.drop_last()) + groups.last().windows
    }
}

proof fn lemma_counted_update(groups: Seq<GroupView>, at: int, group: GroupView)
    requires
        0 <= at < groups.len(),
    ensures
        counted(groups.update(at, group)) == counted(groups) - groups[at].windows + group.windows,
    decreases groups.len(),
{
    let now = groups.update(at, group);
    if at == groups.len() - 1 {
        assert(now.drop_last() =~= groups.drop_last());
    } else {
        assert(now.drop_last() =~= groups.drop_last().update(at, group));
        lemma_counted_update(groups.drop_last(), at, group);
    }
}

/// Every window that is not cloaked is counted in one group, and no group is of the same app as
/// another.
pub proof fn every_window_is_counted_once(windows: Seq<LiveWindow>)
    ensures
        counted(grouped(windows)) == uncloaked(windows),
        forall|k: int, l: int|
            0 <= k < l < grouped(windows).len() ==> !text::same_name(
                (#[trigger] grouped(windows)[k]).process,
                (#[trigger] grouped(windows)[l]).process,
            ),
    decreases windows.len(),
{
    lemma_grouped(windows);
    if windows.len() > 0 {
        let front = grouped(windows.drop_last());
        every_window_is_counted_once(windows.drop_last());
        let window = windows.last();
        let at = group_of(front, window.process@);
        lemma_group_of(front, window.process@);
        if !window.cloaked {
            if at < front.len() {
                lemma_counted_update(
                    front,
                    at,
                    GroupView {
                        windows: front[at].windows + 1,
                        elevated: front[at].elevated || window.elevated,
                        ..front[at]
                    },
                );
            } else {
                assert(grouped(windows).drop_last() =~= front);
            }
        }
    }
}

/// Disabled rules frost nothing: what is ruled goes by an enabled rule of the window's app.
pub proof fn only_enabled_rules_apply(windows: Seq<LiveWindow>, rules: Seq<Rule>, k: int)
    requires
        0 <= k < ruled(windows, rules).len(),
    ensures
        windows.contains(ruled(windows, rules)[k].0),
        rules.contains(ruled(windows, rules)[k].1),
        ruled(windows, rules)[k].1.enabled,
        text::same_name(
            ruled(windows, rules)[k].1.process@,
            ruled(windows, rules)[k].0.process@,
        ),
    decreases windows.len(),
{
    let front = ruled(windows.drop_last(), rules);
    if k < front.len() {
        only_enabled_rules_apply(windows.drop_last(), rules, k);
        let w = front[k].0;
        let m = choose|m: int| 0 <= m < windows.len() - 1 && windows.drop_last()[m] == w;
        assert(windows[m] == w);
        assert(ruled(windows, rules)[k] == front[k]);
    } else {
        let window = windows.last();
        lemma_enabled_for(rules, window.process@);
        assert(windows[windows.len() - 1] == window);
        assert(rules[enabled_for(rules, window.process@)] == ruled(windows, rules)[k].1);
    }
}

/// Every window of an app that an enabled rule names is ruled.
pub proof fn every_window_of_a_ruled_app_is_ruled(
    windows: Seq<LiveWindow>,
    rules: Seq<Rule>,
    k: int,
    l: int,
)
    requires
        0 <= k < windows.len(),
        0 <= l < rules.len(),
        rules[l].enabled,
        text::same_name(rules[l].process@, windows[k].process@),
    ensures
        exists|j: int|
            0 <= j < ruled(windows, rules).len() && (#[trigger] ruled(windows, rules)[j]).0
                == windows[k],
    decreases windows.len(),
{
    let front = ruled(windows.drop_last(), rules);
    let all = ruled(windows, rules);
    if k < windows.len() - 1 {
        every_window_of_a_ruled_app_is_ruled(windows.drop_last(), rules, k, l);
        let j = choose|j: int| 0 <= j < front.len() && (#[trigger] front[j]).0 == windows[k];
        assert(all[j] == front[j]);
    } else {
        lemma_enabled_for_reaches(rules, windows[k].process@, l);
        assert(all[front.len() as int].0 == windows[k]);
    }
}

/// Without an enabled rule no window is ruled.
pub proof fn without_enabled_rules_nothing_is_ruled(windows: Seq<LiveWindow>, rules: Seq<Rule>)
    requires
        forall|l: int| 0 <= l < rules.len() ==> !(#[trigger] rules[l]).enabled,
    ensures
        ruled(windows, rules).len() == 0,
{
    if ruled(windows, rules).len() > 0 {
        only_enabled_rules_apply(windows, rules, 0);
        let rule = ruled(windows, rules)[0].1;
        let l = choose|l: int| 0 <= l < rules.len() && rules[l] == rule;
        assert(!rules[l].enabled);
    }
}

pub proof fn lemma_enabled_for_reaches(rules: Seq<Rule>, name: Seq<char>, l: int)
    requires
        0 <= l < rules.len(),
        rules[l].enabled,
        text::same_name(rules[l].process@, name),
    ensures
        enabled_for(rules, name) <= l,
    decreases rules.len(),
{
    if l > 0 {
        let rest = rules.drop_first();
        assert(rest[l - 1] == rules[l]);
        lemma_enabled_for_reaches(rest, name, l - 1);
    }
}

pub proof fn lemma_enabled_for(rules: Seq<Rule>, name: Seq<char>)
    ensures
        0 <= enabled_for(rules, name) <= rules.len(),
        enabled_for(rules, name) < rules.len() ==> rules[enabled_for(rules, name)].enabled
            && text::same_name(rules[enabled_for(rules, name)].process@, name),
    decreases rules.len(),
{
    if rules.len() > 0 && !(rules.first().enabled && text::same_name(
        rules.first().process@,
        name,
    )) {
        lemma_enabled_for(rules.drop_first(), name);
    }
}

/// A window is labelled with what is known of its own process: the name listed last for it, or
/// "pid-" and its number when none is, and the moment and privilege given first for it. All else
/// about the window stays.
pub proof fn a_window_gets_the_label_of_its_process(
    r: LiveWindow,
    window: LiveWindow,
    info: Seq<ProcessInfo>,
    names: Seq<(u32, String)>,
)
    requires
        is_labelled(r, window, info, names),
    ensures
        forall|k: int|
            0 <= k < names.len() && (#[trigger] names[k]).0 == window.pid && (forall|l: int|
                k < l < names.len() ==> (#[trigger] names[l]).0 != window.pid) ==> r.process@
                == names[k].1@,
        (forall|k: int| 0 <= k < names.len() ==> (#[trigger] names[k]).0 != window.pid)
            ==> r.process@ == "pid-"@ + text::digits(window.pid as nat),
        forall|k: int|
            0 <= k < info.len() && (#[trigger] info[k]).pid == window.pid && (forall|l: int|
                0 <= l < k ==> (#[trigger] info[l]).pid != window.pid) ==> r.process_start
                == info[k].start && r.elevated == info[k].elevated,
        (forall|k: int| 0 <= k < info.len() ==> (#[trigger] info[k]).pid != window.pid)
            ==> r.process_start == 0 && !r.elevated,
        r.hwnd == window.hwnd,
        r.pid == window.pid,
        r.title == window.title,
        r.cloaked == window.cloaked,
        r.bounds == window.bounds,
{
    assert forall|k: int|
        0 <= k < names.len() && (#[trigger] names[k]).0 == window.pid && (forall|l: int|
            k < l < names.len() ==> (#[trigger] names[l]).0 != window.pid) implies r.process@
        == names[k].1@ by {
        lemma_listed_at(names, window.pid, k);
    }
    if forall|k: int| 0 <= k < names.len() ==> (#[trigger] names[k]).0 != window.pid {
        lemma_not_listed(names, window.pid);
    }
    assert forall|k: int|
        0 <= k < info.len() && (#[trigger] info[k]).pid == window.pid && (forall|l: int|
            0 <= l < k ==> (#[trigger] info[l]).pid != window.pid) implies r.process_start
        == info[k].start && r.elevated == info[k].elevated by {
        lemma_known_at(info, window.pid, k);
    }
    if forall|k: int| 0 <= k < info.len() ==> (#[trigger] info[k]).pid != window.pid {
        lemma_not_known(info, window.pid);
    }
}

proof fn lemma_listed_at(names: Seq<(u32, String)>, pid: u32, k: int)
    requires
        0 <= k < names.len(),
        names[k].0 == pid,
        forall|l: int| k < l < names.len() ==> (#[trigger] names[l]).0 != pid,
    ensures
        listed_name(names, pid) == Some(names[k].1@),
    decreases names.len(),
{
    if k < names.len() - 1 {
        assert(names[names.len() - 1].0 != pid);
        lemma_listed_at(names.drop_last(), pid, k);
    }
}

proof fn lemma_not_listed(names: Seq<(u32, String)>, pid: u32)
    requires
        forall|k: int| 0 <= k < names.len() ==> (#[trigger] names[k]).0 != pid,
    ensures
        listed_name(names, pid) is None,
    decreases names.len(),
{
    if names.len() > 0 {
        assert(names[names.len() - 1].0 != pid);
        lemma_not_listed(names.drop_last(), pid);
    }
}

proof fn lemma_known_at(info: Seq<ProcessInfo>, pid: u32, k: int)
    requires
        0 <= k < info.len(),
        info[k].pid == pid,
        forall|l: int| 0 <= l < k ==> (#[trigger] info[l]).pid != pid,
    ensures
        known_of(info, pid) == (info[k].start, info[k].elevated),
    decreases info.len(),
{
    if k > 0 {
        assert(info[0].pid != pid);
        let rest = info.drop_first();
        assert forall|l: int| 0 <= l < k - 1 implies (#[trigger] rest[l]).pid != pid by {
            assert(rest[l] == info[l + 1]);
        }
        lemma_known_at(rest, pid, k - 1);
    }
}

proof fn lemma_not_known(info: Seq<ProcessInfo>, pid: u32)
    requires
        forall|k: int| 0 <= k < info.len() ==> (#[trigger] info[k]).pid != pid,
    ensures
        known_of(info, pid) == (0u64, false),
    decreases info.len(),
{
    if info.len() > 0 {
        assert(info[0].pid != pid);
        let rest = info.drop_first();
        assert forall|k: int| 0 <= k < rest.len() implies (#[trigger] rest[k]).pid != pid by {
            assert(rest[k] == info[k + 1]);
        }
        lemma_not_known(rest, pid);
    }
}

/// Our own windows are left out, and no other.
pub proof fn only_our_own_windows_are_left_out(windows: Seq<LiveWindow>, own: u32)
    ensures
        others(windows, own) == windows.filter(|window: LiveWindow| window.pid != own),
    decreases windows.len(),
{
    reveal(Seq::filter);
    if windows.len() > 0 {
        only_our_own_windows_are_left_out(windows.drop_last(), own);
    }
}

/// The name of a program is what stands behind the last backslash of its path, or all of it when
/// there is none.
pub proof fn a_program_is_named_by_the_end_of_its_path(dir: Seq<char>, name: Seq<char>)
    requires
        forall|k: int| 0 <= k < name.len() ==> #[trigger] name[k] != '\\',
        dir.len() > 0 ==> dir.last() == '\\',
    ensures
        image_name(dir + name) == name,
    decreases name.len(),
{
    let path = dir + name;
    if name.len() == 0 {
        assert(path =~= dir);
        assert(image_name(path) =~= name);
    } else {
        assert(name[name.len() - 1] != '\\');
        assert(path.drop_last() =~= dir + name.drop_last());
        assert forall|k: int| 0 <= k < name.drop_last().len() implies #[trigger] name.drop_last()[k]
            != '\\' by {
            assert(name[k] != '\\');
        }
        a_program_is_named_by_the_end_of_its_path(dir, name.drop_last());
        assert(image_name(path) =~= name);
    }
}

/// The rule for an app is the first that is on and has its name.
pub proof fn the_first_enabled_rule_counts(rules: Seq<Rule>, name: Seq<char>, i: int)
    requires
        0 <= i <= rules.len(),
        forall|k: int|
            0 <= k < i ==> !((#[trigger] rules[k]).enabled && text::same_name(
                rules[k].process@,
                name,
            )),
        i < rules.len() ==> rules[i].enabled && text::same_name(rules[i].process@, name),
    ensures
        enabled_for(rules, name) == i,
    decreases rules.len(),
{
    if i > 0 {
        assert(!(rules[0].enabled && text::same_name(rules[0].process@, name)));
        let rest = rules.drop_first();
        assert forall|k: int| 0 <= k < i - 1 implies !((#[trigger] rest[k]).enabled
            && text::same_name(rest[k].process@, name)) by {
            assert(rest[k] == rules[k + 1]);
        }
        the_first_enabled_rule_counts(rest, name, i - 1);
    }
}

/// Windows are matched with rules one by one, in their order: each comes up once, with the first
/// rule that is on and has its name, or not at all when there is none.
pub proof fn windows_are_matched_one_by_one(
    a: Seq<LiveWindow>,
    window: LiveWindow,
    b: Seq<LiveWindow>,
    rules: Seq<Rule>,
    i: int,
)
    requires
        0 <= i <= rules.len(),
        forall|k: int|
            0 <= k < i ==> !((#[trigger] rules[k]).enabled && text::same_name(
                rules[k].process@,
                window.process@,
            )),
        i < rules.len() ==> rules[i].enabled && text::same_name(
            rules[i].process@,
            window.process@,
        ),
    ensures
        ruled(a.push(window) + b, rules) == ruled(a, rules) + (if i < rules.len() {
            seq![(window, rules[i])]
        } else {
            Seq::empty()
        }) + ruled(b, rules),
        ruled(Seq::empty(), rules).len() == 0,
    decreases b.len(),
{
    let all = a.push(window) + b;
    the_first_enabled_rule_counts(rules, window.process@, i);
    if b.len() == 0 {
        assert(all =~= a.push(window));
        assert(all.drop_last() =~= a);
        assert(ruled(b, rules) =~= Seq::empty());
        let front = ruled(a, rules);
        assert(front =~= front + Seq::empty() + Seq::empty());
        if i < rules.len() {
            assert(front.push((window, rules[i])) =~= front + seq![(window, rules[i])]
                + Seq::empty());
        }
    } else {
        assert(all.drop_last() =~= a.push(window) + b.drop_last());
        assert(all.last() == b.last());
        windows_are_matched_one_by_one(a, window, b.drop_last(), rules, i);
        assert(ruled(all, rules) =~= ruled(a, rules) + (if i < rules.len() {
            seq![(window, rules[i])]
        } else {
            Seq::empty()
        }) + ruled(b, rules));
    }
}

/// The group of an app counts its windows that are not cloaked. It is named and titled after the
/// first of them, and marked when one of them runs as administrator.
pub proof fn a_group_counts_the_windows_of_one_app(windows: Seq<LiveWindow>, k: int)
    requires
        0 <= k < grouped(windows).len(),
    ensures
        ({
            let group = grouped(windows)[k];
            let own = windows.filter(
                |w: LiveWindow| !w.cloaked && text::same_name(w.process@, group.process),
            );
            &&& own.len() > 0
            &&& group.windows == own.len()
            &&& group.process == own[0].process@
            &&& group.sample_title == own[0].title@
            &&& group.elevated <==> exists|i: int| 0 <= i < own.len() && (#[trigger] own[i]).elevated
        }),
    decreases windows.len(),
{
    reveal(Seq::filter);
    let group = grouped(windows)[k];
    let pred = |w: LiveWindow| !w.cloaked && text::same_name(w.process@, group.process);
    let own = windows.filter(pred);
    let front = grouped(windows.drop_last());
    let window = windows.last();
    let at = group_of(front, window.process@);
    lemma_group_of(front, window.process@);
    lemma_grouped(windows);
    lemma_grouped(windows.drop_last());
    let before = windows.drop_last().filter(pred);
    if k < front.len() {
        a_group_counts_the_windows_of_one_app(windows.drop_last(), k);
        assert(group.process == front[k].process);
        assert(before =~= windows.drop_last().filter(
            |w: LiveWindow| !w.cloaked && text::same_name(w.process@, front[k].process),
        ));
        if !window.cloaked && at == k {
            assert(own == before.push(window));
            assert(own[before.len() as int].elevated == window.elevated);
            if exists|i: int| 0 <= i < before.len() && (#[trigger] before[i]).elevated {
                let i = choose|i: int| 0 <= i < before.len() && (#[trigger] before[i]).elevated;
                assert(own[i].elevated);
            }
            if exists|i: int| 0 <= i < own.len() && (#[trigger] own[i]).elevated {
                let i = choose|i: int| 0 <= i < own.len() && (#[trigger] own[i]).elevated;
                if i < before.len() {
                    assert(before[i].elevated);
                }
            }
        } else if !window.cloaked {
            if at < front.len() {
                if at < k {
                    assert(!text::same_name(front[at].process, front[k].process));
                } else {
                    assert(!text::same_name(front[k].process, front[at].process));
                }
            } else {
                assert(!text::same_name(front[k].process, window.process@));
            }
            assert(own == before);
        }
    } else {
        assert(group.process == window.process@);
        if before.len() > 0 {
            let w = before[0];
            assert(before.contains(w));
            windows.drop_last().lemma_filter_contains_rev(pred, w);
            windows.drop_last().lemma_filter_pred(pred, 0);
            every_shown_window_has_a_group(windows.drop_last(), w);
            let m = choose|m: int|
                0 <= m < front.len() && text::same_name((#[trigger] front[m]).process, w.process@);
            assert(!text::same_name(front[m].process, window.process@));
        }
        assert(own == before.push(window));
        assert(own[0] == window);
    }
}

/// Every window that is not cloaked is in a group of its app, which is the only one.
pub proof fn every_shown_window_has_a_group(windows: Seq<LiveWindow>, window: LiveWindow)
    requires
        windows.contains(window),
        !window.cloaked,
    ensures
        exists|k: int|
            0 <= k < grouped(windows).len() && text::same_name(
                (#[trigger] grouped(windows)[k]).process,
                window.process@,
            ),
    decreases windows.len(),
{
    let all = grouped(windows);
    let front = grouped(windows.drop_last());
    let last = windows.last();
    let at = group_of(front, last.process@);
    lemma_group_of(front, last.process@);
    if last == window {
        assert(text::same_name(all[at].process, window.process@));
    } else {
        let m = choose|m: int| 0 <= m < windows.len() && windows[m] == window;
        assert(windows.drop_last()[m] == window);
        every_shown_window_has_a_group(windows.drop_last(), window);
        let k = choose|k: int|
            0 <= k < front.len() && text::same_name(
                (#[trigger] front[k]).process,
                window.process@,
            );
        assert(all[k].process == front[k].process);
    }
}

/// A list of groups in order goes by the names in small letters, and one with the same groups
/// leaves none out and adds none.
pub proof fn the_groups_are_listed_in_order(a: Seq<GroupView>, b: Seq<GroupView>, k: int, l: int)
    requires
        in_order(a),
        same_groups(a, b),
        0 <= k < l < a.len(),
    ensures
        a.len() == b.len(),
        text::precedes(text::folded(a[k].process), text::folded(a[l].process)),
        b.contains(a[k]),
        b.contains(a[l]),
        forall|m: int| 0 <= m < b.len() ==> a.contains(#[trigger] b[m]),
{
}

/// Groups keep their number, order and fields as characters.
pub proof fn views_keep_every_group(groups: Seq<AppGroup>)
    ensures
        group_views(groups).len() == groups.len(),
        forall|i: int|
            0 <= i < groups.len() ==> (#[trigger] group_views(groups)[i]).process
                == groups[i].process@ && group_views(groups)[i].sample_title
                == groups[i].sample_title@ && group_views(groups)[i].windows == groups[i].windows
                && group_views(groups)[i].elevated == groups[i].elevated,
{
}

/// A window counts as an app's when a user would call it one. It is seen, stands by itself, is no
/// tool window and not the desktop's, has a title, is at least 160 by 90 or minimized, and has a
/// process.
pub proof fn app_windows_are_seen_titled_and_big(facts: WindowFacts)
    ensures
        facts.is_app_window() ==> facts.visible && facts.is_root && facts.pid != 0,
        facts.is_app_window() ==> facts.exstyle & 0x80 == 0,
        facts.is_app_window() ==> facts.class@ != "Progman"@ && facts.class@ != "Shell_TrayWnd"@
            && facts.class@ != "Shell_SecondaryTrayWnd"@ && facts.class@ != "WorkerW"@,
        facts.is_app_window() ==> exists|i: int|
            0 <= i < facts.title@.len() && !text::is_space(#[trigger] facts.title@[i]),
        facts.is_app_window() && !facts.minimized ==> facts.bounds.right - facts.bounds.left >= 160
            && facts.bounds.bottom - facts.bounds.top >= 90,
        facts.visible && facts.is_root && facts.pid != 0 && facts.exstyle & 0x80 == 0
            && facts.class@ != "Progman"@ && facts.class@ != "Shell_TrayWnd"@ && facts.class@
            != "Shell_SecondaryTrayWnd"@ && facts.class@ != "WorkerW"@ && (exists|i: int|
            0 <= i < facts.title@.len() && !text::is_space(#[trigger] facts.title@[i])) && (
        facts.minimized || (facts.bounds.right - facts.bounds.left >= 160 && facts.bounds.bottom
            - facts.bounds.top >= 90)) ==> facts.is_app_window(),
{
    text::trimming_can_take_everything(facts.title@);
    let title = facts.title@;
    if exists|i: int| 0 <= i < title.len() && !text::is_space(#[trigger] title[i]) {
        let i = choose|i: int| 0 <= i < title.len() && !text::is_space(#[trigger] title[i]);
        text::lemma_something_is_left(title, i);
    }
}

/// A window is faded as it is created when it looks like an app's. It stands by itself, is no
/// child and no tool window, has a title bar or a sizing border, is at least 160 by 90, and has a
/// process.
pub proof fn candidates_have_a_frame_and_a_size(facts: EarlyFacts)
    ensures
        facts.is_candidate() <==> {
            &&& facts.is_root
            &&& facts.pid != 0
            &&& facts.style & 0x4000_0000 == 0
            &&& facts.exstyle & 0x80 == 0
            &&& facts.style & 0x00C0_0000 == 0x00C0_0000 || facts.style & 0x0004_0000 != 0
            &&& facts.rect is Some
            &&& facts.rect->0.right - facts.rect->0.left >= 160
            &&& facts.rect->0.bottom - facts.rect->0.top >= 90
        },
{
}

} // verus!
