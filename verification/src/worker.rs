//! Which windows are frosted, what is remembered about them, and what is to be done next.

use crate::mapping::SavedStyle;
use crate::rules::{PersistedWindow, Rule, Store};
use crate::table::{self, Table};
use crate::target::{self, LiveWindow};
use crate::text;
use std::collections::VecDeque;
use vstd::prelude::*;
use vstd::string::*;

verus! {

/// How long a window faded at creation may go without becoming a normal app window before it
/// is put back, in nanoseconds. Covers hidden helper windows and splash screens.
pub const EARLY_WAIT: u64 = 3_000_000_000;

/// The message of a timer.
pub const WM_TIMER: u32 = 0x0113;

pub const EVENT_SYSTEM_FOREGROUND: u32 = 0x0003;

pub const EVENT_SYSTEM_MINIMIZESTART: u32 = 0x0016;

pub const EVENT_SYSTEM_MINIMIZEEND: u32 = 0x0017;

pub const EVENT_OBJECT_CREATE: u32 = 0x8000;

pub const EVENT_OBJECT_DESTROY: u32 = 0x8001;

pub const EVENT_OBJECT_SHOW: u32 = 0x8002;

pub const EVENT_OBJECT_HIDE: u32 = 0x8003;

pub const EVENT_OBJECT_LOCATIONCHANGE: u32 = 0x800B;

pub const EVENT_OBJECT_NAMECHANGE: u32 = 0x800C;

pub const EVENT_OBJECT_CLOAKED: u32 = 0x8017;

pub const EVENT_OBJECT_UNCLOAKED: u32 = 0x8018;

/// A frosted window.
pub struct Frosted {
    pub pid: u32,
    pub process_start: u64,
    pub process: String,
    pub saved: SavedStyle,
    pub transparency: u8,
    pub blur: u8,
}

/// A window faded as it was created, and when the fade went on.
pub struct Early {
    pub window: PersistedWindow,
    pub since: u64,
}

/// Something to do to a window.
#[derive(Debug, Clone, Copy, PartialEq, Eq, Structural)]
pub enum Effect {
    /// Put the window back if it still belongs to that process.
    PutBack { hwnd: isize, pid: u32, process_start: u64, saved: SavedStyle },
    /// Put the window back.
    Restore { hwnd: isize, saved: SavedStyle },
    /// Close the glass of the window.
    Close { hwnd: isize },
    /// Move the glass to where the window is.
    Follow { hwnd: isize },
}

/// What the effect thread remembers.
pub struct Engine {
    pub store: Store,
    pub frosted: Table<Frosted>,
    /// Windows of ruled apps faded the moment they were created, waiting to be shown and titled
    /// so they can get their glass. Keeps the original style and when the fade went on.
    pub early: Table<Early>,
    /// Original styles remembered from an earlier run, keyed by HWND.
    pub prior: Table<PersistedWindow>,
    /// Windows that refused the effect, so they are not retried on every scan.
    pub refused: Table<(u32, u64)>,
    pub persisted: Vec<PersistedWindow>,
}

pub struct EngineState {
    pub store: Store,
    pub frosted: Map<isize, Frosted>,
    pub early: Map<isize, Early>,
    pub prior: Map<isize, PersistedWindow>,
    pub refused: Map<isize, (u32, u64)>,
    pub persisted: Seq<PersistedWindow>,
}

impl View for Engine {
    type V = EngineState;

    open spec fn view(&self) -> EngineState {
        EngineState {
            store: self.store,
            frosted: self.frosted@,
            early: self.early@,
            prior: self.prior@,
            refused: self.refused@,
            persisted: self.persisted@,
        }
    }
}

/// A window is remembered in one place only, and under its own handle.
pub open spec fn apart(
    frosted: Map<isize, Frosted>,
    early: Map<isize, Early>,
    prior: Map<isize, PersistedWindow>,
) -> bool {
    &&& forall|k: isize| #[trigger]
        frosted.contains_key(k) ==> !early.contains_key(k) && !prior.contains_key(k)
    &&& forall|k: isize| #[trigger]
        early.contains_key(k) ==> !prior.contains_key(k) && early[k].window.hwnd == k
    &&& forall|k: isize| #[trigger] prior.contains_key(k) ==> prior[k].hwnd == k
}

impl EngineState {
    pub open spec fn ok(self) -> bool {
        apart(self.frosted, self.early, self.prior)
    }

    /// The windows whose original style is remembered.
    pub open spec fn touched(self) -> Set<isize> {
        self.frosted.dom().union(self.early.dom()).union(self.prior.dom())
    }

    /// What is remembered about a touched window.
    pub open spec fn record(self, k: isize) -> PersistedWindow {
        if self.frosted.contains_key(k) {
            record_of(k, self.frosted[k])
        } else if self.early.contains_key(k) {
            self.early[k].window
        } else {
            self.prior[k]
        }
    }

    pub open spec fn records(self) -> Map<isize, PersistedWindow> {
        Map::new(|k: isize| self.touched().contains(k), |k: isize| self.record(k))
    }

    /// Puts back everything that is remembered.
    pub open spec fn restore_effects(self) -> Seq<Effect> {
        drops(self.frosted, table::listing(self.frosted.dom())) + early_drops(
            self.early,
            table::listing(self.early.dom()),
        ) + prior_drops(self.prior, table::listing(self.prior.dom()))
    }

    pub open spec fn restored(self) -> EngineState {
        EngineState {
            frosted: Map::empty(),
            early: Map::empty(),
            prior: Map::empty(),
            ..self
        }
    }

    /// Puts back what is no longer wanted.
    pub open spec fn stale_effects(self, wanted: Set<isize>) -> Seq<Effect> {
        drops(self.frosted, table::listing(self.frosted.dom().difference(wanted))) + prior_drops(
            self.prior,
            table::listing(self.prior.dom().difference(wanted)),
        )
    }

    pub open spec fn without_stale(self, wanted: Set<isize>) -> EngineState {
        EngineState {
            frosted: self.frosted.restrict(wanted),
            prior: self.prior.restrict(wanted),
            refused: self.refused.restrict(wanted),
            ..self
        }
    }

    /// The handle is remembered for another process.
    pub open spec fn is_reused(self, window: LiveWindow) -> bool {
        &&& self.frosted.contains_key(window.hwnd)
        &&& self.frosted[window.hwnd].pid != window.pid || self.frosted[window.hwnd].process_start
            != window.process_start
    }

    pub open spec fn without_frosted(self, k: isize) -> EngineState {
        EngineState { frosted: self.frosted.remove(k), ..self }
    }

    pub open spec fn is_refused(self, window: LiveWindow) -> bool {
        self.refused.contains_key(window.hwnd) && self.refused[window.hwnd] == (
            window.pid,
            window.process_start,
        )
    }

    pub open spec fn refusing(self, window: LiveWindow) -> EngineState {
        EngineState {
            refused: self.refused.insert(window.hwnd, (window.pid, window.process_start)),
            ..self
        }
    }

    /// The style a window had before any Blurman touched it, where it is remembered for the same
    /// process: from the early fade, or from an earlier run.
    pub open spec fn original(self, k: isize, pid: u32, process_start: u64) -> Option<SavedStyle> {
        if self.early.contains_key(k) && is_same(self.early[k].window, pid, process_start) {
            Some(self.early[k].window.style())
        } else if self.prior.contains_key(k) && is_same(self.prior[k], pid, process_start) {
            Some(self.prior[k].style())
        } else {
            None
        }
    }

    /// Without the original style of `k`, which has been taken up.
    pub open spec fn taken_up(self, k: isize) -> EngineState {
        EngineState { early: self.early.remove(k), prior: self.prior.remove(k), ..self }
    }

    pub open spec fn tracking(self, k: isize, frosted: Frosted) -> EngineState {
        EngineState { frosted: self.frosted.insert(k, frosted), ..self.taken_up(k) }
    }

    /// With the settings that were changed on a frosted window.
    pub open spec fn synced(
        self,
        k: isize,
        transparency: Option<u8>,
        blur: Option<u8>,
    ) -> EngineState {
        if self.frosted.contains_key(k) {
            let was = self.frosted[k];
            let now = Frosted {
                transparency: if transparency is Some {
                    transparency->0
                } else {
                    was.transparency
                },
                blur: if blur is Some {
                    blur->0
                } else {
                    was.blur
                },
                ..was
            };
            EngineState { frosted: self.frosted.insert(k, now), ..self }
        } else {
            self
        }
    }

    /// Without what is frosted under the window's handle for another process.
    pub open spec fn checked(self, window: LiveWindow) -> EngineState {
        if self.is_reused(window) {
            self.without_frosted(window.hwnd)
        } else {
            self
        }
    }

    /// After a wanted window was looked at: one that runs above our privilege level is refused.
    pub open spec fn visited(self, window: LiveWindow) -> EngineState {
        let s = self.checked(window);
        if !s.frosted.contains_key(window.hwnd) && !s.is_refused(window) && window.elevated {
            s.refusing(window)
        } else {
            s
        }
    }

    /// After frosting a window was tried.
    pub open spec fn attached(
        self,
        window: LiveWindow,
        rule: Rule,
        saved: SavedStyle,
        outcome: Attached,
    ) -> EngineState {
        match outcome {
            Attached::Frosted => self.tracking(
                window.hwnd,
                Frosted {
                    pid: window.pid,
                    process_start: window.process_start,
                    process: window.process,
                    saved,
                    transparency: rule.transparency,
                    blur: rule.blur,
                },
            ),
            _ => self.taken_up(window.hwnd).refusing(window),
        }
    }

    /// After all that a scan does about one wanted window, for whatever came of it.
    pub open spec fn served(self, window: LiveWindow, rule: Rule, trial: Trial) -> EngineState {
        let s = self.visited(window);
        if s.frosted.contains_key(window.hwnd) {
            s.synced(
                window.hwnd,
                applied(trial.faded, rule.transparency),
                applied(trial.blurred, rule.blur),
            )
        } else if s.is_refused(window) {
            s
        } else {
            s.attached(window, rule, trial.saved, trial.outcome)
        }
    }

    /// After the wanted windows were served one by one.
    pub open spec fn all_served(
        self,
        wanted: Seq<(LiveWindow, Rule)>,
        trials: Seq<Trial>,
    ) -> EngineState
        decreases wanted.len(),
    {
        if wanted.len() == 0 {
            self
        } else {
            self.all_served(wanted.drop_last(), trials).served(
                wanted.last().0,
                wanted.last().1,
                trials[wanted.len() - 1],
            )
        }
    }

    /// The two remember the same about `k`.
    pub open spec fn same_about(self, other: EngineState, k: isize) -> bool {
        &&& self.frosted.contains_key(k) == other.frosted.contains_key(k)
        &&& self.frosted.contains_key(k) ==> self.frosted[k] == other.frosted[k]
        &&& self.early.contains_key(k) == other.early.contains_key(k)
        &&& self.early.contains_key(k) ==> self.early[k] == other.early[k]
        &&& self.prior.contains_key(k) == other.prior.contains_key(k)
        &&& self.prior.contains_key(k) ==> self.prior[k] == other.prior[k]
        &&& self.refused.contains_key(k) == other.refused.contains_key(k)
        &&& self.refused.contains_key(k) ==> self.refused[k] == other.refused[k]
    }

    /// The window is frosted for its own process, or that process refused.
    pub open spec fn is_served(self, window: LiveWindow) -> bool {
        ||| self.frosted.contains_key(window.hwnd) && self.frosted[window.hwnd].pid == window.pid
            && self.frosted[window.hwnd].process_start == window.process_start
        ||| self.is_refused(window)
    }

    /// Windows faded early that never became normal app windows in time.
    pub open spec fn expired(self, wanted: Set<isize>, now: u64) -> Set<isize> {
        self.early.dom().filter(
            |k: isize| !wanted.contains(k) && now - self.early[k].since > EARLY_WAIT,
        )
    }

    pub open spec fn without_early(self, gone: Set<isize>) -> EngineState {
        EngineState { early: self.early.remove_keys(gone), ..self }
    }

    /// With the fade of `k` recorded when there is one, and its original style taken up.
    pub open spec fn faded_early(self, k: isize, early: Option<Early>) -> EngineState {
        let s = self.taken_up(k);
        match early {
            Some(e) => EngineState { early: s.early.insert(k, e), ..s },
            None => s,
        }
    }

    /// New windows are of interest: some rule is on, and the window did not refuse before.
    pub open spec fn takes_new(self, k: isize) -> bool {
        !self.store.paused && !self.refused.contains_key(k) && self.any_enabled()
    }

    /// What an event about a window that is not frosted asks for. New windows of ruled apps are
    /// faded as they are created and frosted the moment they appear, are restored, or get their
    /// title, instead of on the next scan.
    pub open spec fn arrived(self, event: u32, k: isize) -> Next {
        if !is_arrival(event) || !self.takes_new(k) {
            Next::Nothing
        } else if self.early.contains_key(k) {
            Next::Faded
        } else if event != EVENT_OBJECT_NAMECHANGE {
            Next::Fade
        } else {
            Next::Match
        }
    }

    /// A window that is not minimized is faded as it is created when a rule that is on names its
    /// process.
    pub open spec fn fades_early(
        self,
        minimized: bool,
        candidate: Option<u32>,
        process: Option<Seq<char>>,
    ) -> bool {
        !minimized && candidate is Some && process is Some && has_enabled(
            self.store.rules@,
            process->0,
        )
    }

    pub open spec fn any_enabled(self) -> bool {
        exists|i: int| 0 <= i < self.store.rules@.len() && (#[trigger] self.store.rules@[i]).enabled
    }
}

pub open spec fn is_same(saved: PersistedWindow, pid: u32, process_start: u64) -> bool {
    saved.pid == pid && saved.process_start == process_start
}

pub open spec fn record_of(k: isize, frosted: Frosted) -> PersistedWindow {
    PersistedWindow {
        hwnd: k,
        pid: frosted.pid,
        process_start: frosted.process_start,
        process: frosted.process,
        original_exstyle: frosted.saved.exstyle,
        original_layered: frosted.saved.was_layered,
        original_alpha: frosted.saved.alpha,
    }
}

/// Puts a frosted window back and closes its glass.
pub open spec fn drop_of(frosted: Map<isize, Frosted>, k: isize) -> Seq<Effect> {
    if frosted.contains_key(k) {
        let t = frosted[k];
        seq![
            Effect::PutBack {
                hwnd: k,
                pid: t.pid,
                process_start: t.process_start,
                saved: t.saved,
            },
            Effect::Close { hwnd: k },
        ]
    } else {
        Seq::empty()
    }
}

pub open spec fn drops(frosted: Map<isize, Frosted>, keys: Seq<isize>) -> Seq<Effect>
    decreases keys.len(),
{
    if keys.len() == 0 {
        Seq::empty()
    } else {
        drops(frosted, keys.drop_last()) + drop_of(frosted, keys.last())
    }
}

pub open spec fn put_back(k: isize, saved: PersistedWindow) -> Effect {
    Effect::PutBack {
        hwnd: k,
        pid: saved.pid,
        process_start: saved.process_start,
        saved: saved.style(),
    }
}

pub open spec fn early_drops(early: Map<isize, Early>, keys: Seq<isize>) -> Seq<Effect> {
    keys.map_values(|k: isize| put_back(k, early[k].window))
}

pub open spec fn prior_drops(prior: Map<isize, PersistedWindow>, keys: Seq<isize>) -> Seq<Effect> {
    keys.map_values(|k: isize| put_back(prior[k].hwnd, prior[k]))
}

/// The last window listed under each handle.
pub open spec fn by_handle(windows: Seq<PersistedWindow>) -> Map<isize, PersistedWindow>
    decreases windows.len(),
{
    if windows.len() == 0 {
        Map::empty()
    } else {
        by_handle(windows.drop_last()).insert(windows.last().hwnd, windows.last())
    }
}

/// `windows` are what `records` holds, in the order of the handles.
pub open spec fn in_handle_order(
    windows: Seq<PersistedWindow>,
    records: Map<isize, PersistedWindow>,
) -> bool {
    &&& table::lists(windows.map_values(|w: PersistedWindow| w.hwnd), records.dom())
    &&& forall|i: int|
        0 <= i < windows.len() ==> #[trigger] windows[i] == records[windows[i].hwnd]
}

pub open spec fn handles(wanted: Seq<(LiveWindow, Rule)>) -> Seq<isize> {
    wanted.map_values(|w: (LiveWindow, Rule)| w.0.hwnd)
}

/// The windows are recorded alike.
pub open spec fn same_record(a: PersistedWindow, b: PersistedWindow) -> bool {
    &&& a.hwnd == b.hwnd
    &&& a.pid == b.pid
    &&& a.process_start == b.process_start
    &&& a.process@ == b.process@
    &&& a.style() == b.style()
}

pub open spec fn same_records(a: Seq<PersistedWindow>, b: Seq<PersistedWindow>) -> bool {
    a.len() == b.len() && forall|i: int|
        0 <= i < a.len() ==> same_record(#[trigger] a[i], b[i])
}

/// What a scan found to do first.
pub struct Scan {
    /// Rules are paused: everything was put back and there is nothing more to do.
    pub paused: bool,
    pub effects: Vec<Effect>,
    /// The windows to frost, each with its rule, to be visited one by one.
    pub wanted: Vec<(LiveWindow, Rule)>,
}

/// What to do about one wanted window.
pub enum Work {
    /// It is frosted already. Set what is given, and let the glass follow.
    Sync { transparency: Option<u8>, blur: Option<u8> },
    /// It refused before.
    Skip,
    /// It cannot be frosted, for this reason.
    Refuse(String),
    /// Open its glass and fade it. The style is the one it had before any Blurman touched it;
    /// without one it is captured now.
    Attach { saved: Option<SavedStyle> },
}

/// How opening the glass and fading the window went.
pub enum Attached {
    /// The glass did not open.
    NoGlass(String),
    /// The glass opened and the window was not faded.
    NotFaded(String),
    Frosted,
}

/// What came of what was tried on one wanted window.
pub struct Trial {
    pub saved: SavedStyle,
    pub outcome: Attached,
    pub faded: Option<Result<(), String>>,
    pub blurred: Option<Result<(), String>>,
}

/// The value that a change gave a setting, if it worked.
pub open spec fn applied(result: Option<Result<(), String>>, value: u8) -> Option<u8> {
    if result is Some && result->0 is Ok {
        Some(value)
    } else {
        None
    }
}

/// A window to be faded as it is created.
pub struct EarlyPlan {
    pub hwnd: isize,
    pub pid: u32,
    pub process_start: u64,
    pub process: String,
    pub transparency: u8,
    /// The style the window had before any Blurman touched it; without one it is captured now.
    pub saved: Option<SavedStyle>,
}

/// What is left to do after a window event.
#[derive(Debug, Clone, Copy, PartialEq, Eq, Structural)]
pub enum Next {
    Nothing,
    /// Save what is remembered.
    Persist,
    /// The window is faded: scan if it can be frosted now.
    Faded,
    /// Fade the window if it belongs to a ruled app, then scan if it can be frosted now.
    Fade,
    /// Scan if the window can be frosted now and belongs to a ruled app.
    Match,
}

/// Events by which a window becomes one that can be frosted.
pub open spec fn is_arrival(event: u32) -> bool {
    ||| event == EVENT_OBJECT_CREATE
    ||| event == EVENT_OBJECT_SHOW
    ||| event == EVENT_OBJECT_UNCLOAKED
    ||| event == EVENT_OBJECT_NAMECHANGE
    ||| event == EVENT_SYSTEM_MINIMIZEEND
}

pub open spec fn follows(keys: Seq<isize>) -> Seq<Effect> {
    keys.map_values(|k: isize| Effect::Follow { hwnd: k })
}

fn push_all(to: &mut Vec<Effect>, from: &Vec<Effect>)
    ensures
        final(to)@ == old(to)@ + from@,
{
    let ghost start = to@;
    let mut i: usize = 0;
    assert(start + from@.take(0) =~= start);
    while i < from.len()
        invariant
            i <= from@.len(),
            to@ == start + from@.take(i as int),
        decreases from.len() - i,
    {
        to.push(from[i]);
        assert(to@ =~= start + from@.take(i + 1));
        i += 1;
    }
    assert(from@.take(i as int) =~= from@);
}

fn handles_of(wanted: &Vec<(LiveWindow, Rule)>) -> (r: Vec<isize>)
    ensures
        r@ == handles(wanted@),
{
    let mut r: Vec<isize> = Vec::new();
    let mut i: usize = 0;
    while i < wanted.len()
        invariant
            i <= wanted@.len(),
            r@ == handles(wanted@).take(i as int),
        decreases wanted.len() - i,
    {
        r.push(wanted[i].0.hwnd);
        assert(r@ =~= handles(wanted@).take(i + 1));
        i += 1;
    }
    assert(r@ =~= handles(wanted@));
    r
}

fn drop_effects(frosted: &Table<Frosted>, keys: &Vec<isize>) -> (r: Vec<Effect>)
    requires
        frosted.ok(),
    ensures
        r@ == drops(frosted@, keys@),
{
    let mut r: Vec<Effect> = Vec::new();
    let mut i: usize = 0;
    while i < keys.len()
        invariant
            i <= keys@.len(),
            frosted.ok(),
            r@ == drops(frosted@, keys@.take(i as int)),
        decreases keys.len() - i,
    {
        let k: isize = keys[i];
        assert(keys@.take(i + 1).drop_last() =~= keys@.take(i as int));
        assert(keys@.take(i + 1).last() == k);
        match frosted.get(k) {
            Some(t) => {
                r.push(
                    Effect::PutBack {
                        hwnd: k,
                        pid: t.pid,
                        process_start: t.process_start,
                        saved: t.saved,
                    },
                );
                r.push(Effect::Close { hwnd: k });
            },
            None => {},
        }
        assert(r@ =~= drops(frosted@, keys@.take(i + 1)));
        i += 1;
    }
    assert(keys@.take(i as int) =~= keys@);
    r
}

fn early_effects(early: &Table<Early>, keys: &Vec<isize>) -> (r: Vec<Effect>)
    requires
        early.ok(),
        forall|i: int| 0 <= i < keys@.len() ==> early@.contains_key(#[trigger] keys@[i]),
    ensures
        r@ == early_drops(early@, keys@),
{
    let mut r: Vec<Effect> = Vec::new();
    let mut i: usize = 0;
    while i < keys.len()
        invariant
            i <= keys@.len(),
            early.ok(),
            forall|i: int| 0 <= i < keys@.len() ==> early@.contains_key(#[trigger] keys@[i]),
            r@ == early_drops(early@, keys@).take(i as int),
        decreases keys.len() - i,
    {
        let k: isize = keys[i];
        assert(early@.contains_key(keys@[i as int]));
        match early.get(k) {
            Some(e) => {
                r.push(
                    Effect::PutBack {
                        hwnd: k,
                        pid: e.window.pid,
                        process_start: e.window.process_start,
                        saved: e.window.saved_style(),
                    },
                );
            },
            None => {},
        }
        assert(r@ =~= early_drops(early@, keys@).take(i + 1));
        i += 1;
    }
    assert(r@ =~= early_drops(early@, keys@));
    r
}

fn prior_effects(prior: &Table<PersistedWindow>, keys: &Vec<isize>) -> (r: Vec<Effect>)
    requires
        prior.ok(),
        forall|i: int| 0 <= i < keys@.len() ==> prior@.contains_key(#[trigger] keys@[i]),
    ensures
        r@ == prior_drops(prior@, keys@),
{
    let mut r: Vec<Effect> = Vec::new();
    let mut i: usize = 0;
    while i < keys.len()
        invariant
            i <= keys@.len(),
            prior.ok(),
            forall|i: int| 0 <= i < keys@.len() ==> prior@.contains_key(#[trigger] keys@[i]),
            r@ == prior_drops(prior@, keys@).take(i as int),
        decreases keys.len() - i,
    {
        let k: isize = keys[i];
        assert(prior@.contains_key(keys@[i as int]));
        match prior.get(k) {
            Some(w) => {
                r.push(
                    Effect::PutBack {
                        hwnd: w.hwnd,
                        pid: w.pid,
                        process_start: w.process_start,
                        saved: w.saved_style(),
                    },
                );
            },
            None => {},
        }
        assert(r@ =~= prior_drops(prior@, keys@).take(i + 1));
        i += 1;
    }
    assert(r@ =~= prior_drops(prior@, keys@));
    r
}

/// The values in the order of the handles.
fn in_order(windows: &Table<PersistedWindow>) -> (r: Vec<PersistedWindow>)
    requires
        windows.ok(),
        forall|k: isize| #[trigger] windows@.contains_key(k) ==> windows@[k].hwnd == k,
    ensures
        in_handle_order(r@, windows@),
{
    let keys: Vec<isize> = windows.keys();
    let mut r: Vec<PersistedWindow> = Vec::new();
    let mut i: usize = 0;
    while i < keys.len()
        invariant
            windows.ok(),
            forall|k: isize| #[trigger] windows@.contains_key(k) ==> windows@[k].hwnd == k,
            keys@.len() == windows.entries@.len(),
            forall|j: int| 0 <= j < keys@.len() ==> #[trigger] keys@[j] == windows.entries@[j].0,
            i <= keys@.len(),
            r@.len() == i,
            forall|j: int|
                0 <= j < i ==> (#[trigger] r@[j]).hwnd == keys@[j] && r@[j] == windows@[keys@[j]],
        decreases keys.len() - i,
    {
        proof {
            table::lemma_entry(*windows, i as int);
            assert(keys@[i as int] == windows.entries@[i as int].0);
        }
        r.push(windows.entries[i].1.clone());
        i += 1;
    }
    assert(r@.map_values(|w: PersistedWindow| w.hwnd) =~= keys@);
    r
}

impl Engine {
    pub open spec fn ok(self) -> bool {
        &&& self.frosted.ok()
        &&& self.early.ok()
        &&& self.prior.ok()
        &&& self.refused.ok()
        &&& self@.ok()
    }

    /// Starts with the windows an earlier run left in the state file.
    pub fn new(state: &Vec<PersistedWindow>) -> (r: Engine)
        ensures
            r.ok(),
            r@.prior == by_handle(state@),
            r@.frosted == Map::<isize, Frosted>::empty(),
            r@.early == Map::<isize, Early>::empty(),
            r@.refused == Map::<isize, (u32, u64)>::empty(),
            !r@.store.paused,
            r@.store.rules@.len() == 0,
            in_handle_order(r@.persisted, by_handle(state@)),
    {
        let mut prior: Table<PersistedWindow> = Table::new();
        let mut i: usize = 0;
        assert(state@.take(0) =~= Seq::empty());
        while i < state.len()
            invariant
                i <= state@.len(),
                prior.ok(),
                prior@ == by_handle(state@.take(i as int)),
                forall|k: isize| #[trigger] prior@.contains_key(k) ==> prior@[k].hwnd == k,
            decreases state.len() - i,
        {
            assert(state@.take(i + 1).drop_last() =~= state@.take(i as int));
            assert(state@.take(i + 1).last() == state@[i as int]);
            let window: PersistedWindow = state[i].clone();
            prior.insert(window.hwnd, window);
            i += 1;
        }
        assert(state@.take(i as int) =~= state@);
        let persisted: Vec<PersistedWindow> = in_order(&prior);
        let store: Store = Store::default();
        assert(store@.rules.len() == 0);
        Engine {
            store,
            frosted: Table::new(),
            early: Table::new(),
            prior,
            refused: Table::new(),
            persisted,
        }
    }

    /// Takes up new rules. Windows that refused before are tried again.
    pub fn reload(&mut self, store: Store)
        requires
            old(self).ok(),
        ensures
            final(self).ok(),
            final(self)@ == (EngineState { store, refused: Map::empty(), ..old(self)@ }),
    {
        self.store = store;
        self.refused = Table::new();
    }

    /// Puts every window back.
    pub fn restore_all(&mut self) -> (r: Vec<Effect>)
        requires
            old(self).ok(),
        ensures
            final(self).ok(),
            final(self)@ == old(self)@.restored(),
            r@ == old(self)@.restore_effects(),
    {
        let frosted: Vec<isize> = self.frosted.keys();
        let early: Vec<isize> = self.early.keys();
        let prior: Vec<isize> = self.prior.keys();
        proof {
            table::lemma_listing(frosted@, self.frosted@.dom());
            table::lemma_listing(early@, self.early@.dom());
            table::lemma_listing(prior@, self.prior@.dom());
            lemma_listed(early@, self.early@.dom());
            lemma_listed(prior@, self.prior@.dom());
        }
        let mut r: Vec<Effect> = drop_effects(&self.frosted, &frosted);
        let second: Vec<Effect> = early_effects(&self.early, &early);
        let third: Vec<Effect> = prior_effects(&self.prior, &prior);
        push_all(&mut r, &second);
        push_all(&mut r, &third);
        self.frosted = Table::new();
        self.early = Table::new();
        self.prior = Table::new();
        r
    }

    /// Whether a scan needs the windows there are: some rule applies.
    pub fn needs_windows(&self) -> (r: bool)
        ensures
            r == (!self@.store.paused && self@.any_enabled()),
    {
        !self.store.paused && self.has_enabled()
    }

    /// Compares what is frosted with the windows there are. Windows that are no longer wanted are
    /// put back; the wanted ones are to be visited one by one.
    pub fn reconcile(&mut self, windows: &Vec<LiveWindow>) -> (r: Scan)
        requires
            old(self).ok(),
        ensures
            final(self).ok(),
            r.paused == old(self)@.store.paused,
            r.paused ==> r.effects@ == old(self)@.restore_effects() && r.wanted@.len() == 0
                && final(self)@ == old(self)@.restored(),
            !r.paused ==> ({
                let wanted = target::ruled(windows@, old(self)@.store.rules@);
                &&& r.wanted@ == wanted
                &&& r.effects@ == old(self)@.stale_effects(handles(wanted).to_set())
                &&& final(self)@ == old(self)@.without_stale(handles(wanted).to_set())
            }),
    {
        if self.store.paused {
            let effects: Vec<Effect> = self.restore_all();
            return Scan { paused: true, effects, wanted: Vec::new() };
        }
        let wanted: Vec<(LiveWindow, Rule)> = target::windows_for_rules(windows, &self.store.rules);
        let ids: Vec<isize> = handles_of(&wanted);
        let stale: Vec<isize> = self.frosted.keys_outside(&ids);
        let stale_prior: Vec<isize> = self.prior.keys_outside(&ids);
        proof {
            let keep = ids@.to_set();
            table::lemma_listing(stale@, self.frosted@.dom().difference(keep));
            table::lemma_listing(stale_prior@, self.prior@.dom().difference(keep));
            lemma_listed(stale_prior@, self.prior@.dom().difference(keep));
        }
        let mut effects: Vec<Effect> = drop_effects(&self.frosted, &stale);
        let second: Vec<Effect> = prior_effects(&self.prior, &stale_prior);
        push_all(&mut effects, &second);
        self.frosted.retain(&ids);
        self.prior.retain(&ids);
        self.refused.retain(&ids);
        Scan { paused: false, effects, wanted }
    }

    /// Forgets a frosted window. Puts it back and closes its glass.
    pub fn drop_frosted(&mut self, hwnd: isize) -> (r: Vec<Effect>)
        requires
            old(self).ok(),
        ensures
            final(self).ok(),
            final(self)@ == old(self)@.without_frosted(hwnd),
            r@ == drop_of(old(self)@.frosted, hwnd),
    {
        let mut r: Vec<Effect> = Vec::new();
        match self.frosted.remove(hwnd) {
            Some(t) => {
                r.push(
                    Effect::PutBack {
                        hwnd,
                        pid: t.pid,
                        process_start: t.process_start,
                        saved: t.saved,
                    },
                );
                r.push(Effect::Close { hwnd });
            },
            None => {},
        }
        assert(r@ =~= drop_of(old(self)@.frosted, hwnd));
        r
    }

    /// The style the window had before any Blurman touched it, where it is remembered.
    pub fn original_style(&self, hwnd: isize, pid: u32, process_start: u64) -> (r: Option<
        SavedStyle,
    >)
        requires
            self.ok(),
        ensures
            r == self@.original(hwnd, pid, process_start),
    {
        match self.early.get(hwnd) {
            Some(e) => {
                if e.window.pid == pid && e.window.process_start == process_start {
                    return Some(e.window.saved_style());
                }
            },
            None => {},
        }
        match self.prior.get(hwnd) {
            Some(w) => {
                if w.pid == pid && w.process_start == process_start {
                    return Some(w.saved_style());
                }
            },
            None => {},
        }
        None
    }

    /// Decides what to do about one wanted window. When its handle now belongs to another process
    /// than the one frosted under it, that one is dropped first.
    pub fn visit(&mut self, window: &LiveWindow, rule: &Rule) -> (r: (Vec<Effect>, Work))
        requires
            old(self).ok(),
        ensures
            final(self).ok(),
            final(self)@ == old(self)@.visited(*window),
            r.0@ == if old(self)@.is_reused(*window) {
                drop_of(old(self)@.frosted, window.hwnd)
            } else {
                Seq::<Effect>::empty()
            },
            ({
                let s = old(self)@.checked(*window);
                if s.frosted.contains_key(window.hwnd) {
                    r.1 == (Work::Sync {
                        transparency: if s.frosted[window.hwnd].transparency != rule.transparency {
                            Some(rule.transparency)
                        } else {
                            None
                        },
                        blur: if s.frosted[window.hwnd].blur != rule.blur {
                            Some(rule.blur)
                        } else {
                            None
                        },
                    })
                } else if s.is_refused(*window) {
                    r.1 == Work::Skip
                } else if window.elevated {
                    r.1 matches Work::Refuse(text) && text@ == window.process@
                        + " runs as administrator. Run Blurman as administrator to frost it."@
                } else {
                    r.1 == (Work::Attach {
                        saved: s.original(window.hwnd, window.pid, window.process_start),
                    })
                }
            }),
    {
        let reused: bool = match self.frosted.get(window.hwnd) {
            Some(t) => t.pid != window.pid || t.process_start != window.process_start,
            None => false,
        };
        let effects: Vec<Effect> = if reused {
            self.drop_frosted(window.hwnd)
        } else {
            Vec::new()
        };
        match self.frosted.get(window.hwnd) {
            Some(t) => {
                let transparency: Option<u8> = if t.transparency != rule.transparency {
                    Some(rule.transparency)
                } else {
                    None
                };
                let blur: Option<u8> = if t.blur != rule.blur {
                    Some(rule.blur)
                } else {
                    None
                };
                return (effects, Work::Sync { transparency, blur });
            },
            None => {},
        }
        match self.refused.get(window.hwnd) {
            Some(known) => {
                if known.0 == window.pid && known.1 == window.process_start {
                    return (effects, Work::Skip);
                }
            },
            None => {},
        }
        if window.elevated {
            self.refused.insert(window.hwnd, (window.pid, window.process_start));
            let text: String = text::joined(
                window.process.as_str(),
                " runs as administrator. Run Blurman as administrator to frost it.",
            );
            return (effects, Work::Refuse(text));
        }
        let saved: Option<SavedStyle> = self.original_style(
            window.hwnd,
            window.pid,
            window.process_start,
        );
        (effects, Work::Attach { saved })
    }

    /// Records how frosting a window went, which had the style `saved` before. Gives what is left
    /// to do and what to tell the user.
    pub fn attach(
        &mut self,
        window: LiveWindow,
        rule: &Rule,
        saved: SavedStyle,
        outcome: Attached,
    ) -> (r: (Vec<Effect>, Option<String>))
        requires
            old(self).ok(),
        ensures
            final(self).ok(),
            final(self)@ == old(self)@.attached(window, *rule, saved, outcome),
            match outcome {
                Attached::NoGlass(err) => {
                    &&& r.0@ == seq![Effect::Restore { hwnd: window.hwnd, saved }]
                    &&& r.1 matches Some(text) && text@ == err@
                },
                Attached::NotFaded(err) => {
                    &&& r.0@ == seq![
                        Effect::Close { hwnd: window.hwnd },
                        Effect::Restore { hwnd: window.hwnd, saved },
                    ]
                    &&& r.1 matches Some(text) && text@ == window.process@ + ": "@ + err@
                },
                Attached::Frosted => {
                    &&& r.0@ == seq![Effect::Follow { hwnd: window.hwnd }]
                    &&& r.1 is None
                },
            },
    {
        let _ = self.early.remove(window.hwnd);
        let _ = self.prior.remove(window.hwnd);
        let hwnd: isize = window.hwnd;
        let mut effects: Vec<Effect> = Vec::new();
        match outcome {
            Attached::NoGlass(err) => {
                self.refused.insert(hwnd, (window.pid, window.process_start));
                effects.push(Effect::Restore { hwnd, saved });
                (effects, Some(err))
            },
            Attached::NotFaded(err) => {
                self.refused.insert(hwnd, (window.pid, window.process_start));
                effects.push(Effect::Close { hwnd });
                effects.push(Effect::Restore { hwnd, saved });
                (effects, Some(text::trouble(window.process.as_str(), err.as_str())))
            },
            Attached::Frosted => {
                let frosted = Frosted {
                    pid: window.pid,
                    process_start: window.process_start,
                    process: window.process,
                    saved,
                    transparency: rule.transparency,
                    blur: rule.blur,
                };
                self.frosted.insert(hwnd, frosted);
                effects.push(Effect::Follow { hwnd });
                (effects, None)
            },
        }
    }

    /// Records which settings of a frosted window were changed. The glass follows the window in
    /// any case. Gives what is left to do and what to tell the user.
    pub fn sync_frosted(
        &mut self,
        window: &LiveWindow,
        rule: &Rule,
        faded: Option<Result<(), String>>,
        blurred: Option<Result<(), String>>,
    ) -> (r: (Vec<Effect>, Vec<String>))
        requires
            old(self).ok(),
        ensures
            final(self).ok(),
            final(self)@ == old(self)@.synced(
                window.hwnd,
                applied(faded, rule.transparency),
                applied(blurred, rule.blur),
            ),
            r.0@ == if old(self)@.frosted.contains_key(window.hwnd) {
                seq![Effect::Follow { hwnd: window.hwnd }]
            } else {
                Seq::empty()
            },
            text::views(r.1@) == problems(window.process@, faded) + problems(
                window.process@,
                blurred,
            ),
    {
        let mut effects: Vec<Effect> = Vec::new();
        let mut status: Vec<String> = Vec::new();
        let mut alpha_set: bool = false;
        let mut blur_set: bool = false;
        assert(text::views(status@) =~= Seq::empty());
        match faded {
            Some(Ok(_)) => {
                alpha_set = true;
            },
            Some(Err(err)) => {
                status.push(text::trouble(window.process.as_str(), err.as_str()));
            },
            None => {},
        }
        assert(text::views(status@) =~= problems(window.process@, faded));
        match blurred {
            Some(Ok(_)) => {
                blur_set = true;
            },
            Some(Err(err)) => {
                status.push(text::trouble(window.process.as_str(), err.as_str()));
            },
            None => {},
        }
        assert(text::views(status@) =~= problems(window.process@, faded) + problems(
            window.process@,
            blurred,
        ));
        match self.frosted.remove(window.hwnd) {
            Some(t) => {
                let frosted = Frosted {
                    pid: t.pid,
                    process_start: t.process_start,
                    process: t.process,
                    saved: t.saved,
                    transparency: if alpha_set {
                        rule.transparency
                    } else {
                        t.transparency
                    },
                    blur: if blur_set {
                        rule.blur
                    } else {
                        t.blur
                    },
                };
                effects.push(Effect::Follow { hwnd: window.hwnd });
                self.frosted.insert(window.hwnd, frosted);
                assert(self.frosted@ =~= old(self)@.frosted.insert(window.hwnd, frosted));
            },
            None => {
                assert(self.frosted@ =~= old(self)@.frosted);
            },
        }
        (effects, status)
    }

    /// Ends a scan: windows faded early that never became normal app windows in time are put back.
    pub fn expire_early(&mut self, wanted: &Vec<(LiveWindow, Rule)>, now: u64) -> (r: Vec<Effect>)
        requires
            old(self).ok(),
        ensures
            final(self).ok(),
            ({
                let gone = old(self)@.expired(handles(wanted@).to_set(), now);
                &&& final(self)@ == old(self)@.without_early(gone)
                &&& r@ == early_drops(old(self)@.early, table::listing(gone))
            }),
    {
        let ids: Vec<isize> = handles_of(wanted);
        let all: Vec<isize> = self.early.keys();
        let ghost start = self@;
        let ghost gone_set = start.expired(ids@.to_set(), now);
        let mut gone: Vec<isize> = Vec::new();
        let mut i: usize = 0;
        while i < all.len()
            invariant
                i <= all@.len(),
                self.early.ok(),
                self.early@ == start.early,
                gone_set == start.expired(ids@.to_set(), now),
                table::lists(all@, self.early@.dom()),
                forall|a: int, b: int| 0 <= a < b < gone@.len() ==> gone@[a] < gone@[b],
                forall|a: int|
                    0 <= a < gone@.len() && i < all@.len() ==> gone@[a] < all@[i as int],
                forall|k: isize| #[trigger]
                    gone@.contains(k) <==> all@.take(i as int).contains(k) && gone_set.contains(k),
            decreases all.len() - i,
        {
            let k: isize = all[i];
            assert(all@.contains(k));
            assert(self.early@.contains_key(k));
            let old_enough: bool = match self.early.get(k) {
                Some(e) => now > e.since && now - e.since > EARLY_WAIT,
                None => false,
            };
            let ghost was = gone@;
            if old_enough && !table::holds(&ids, k) {
                gone.push(k);
            }
            proof {
                let next = all@.take(i + 1);
                assert(next =~= all@.take(i as int).push(k));
                assert forall|q: isize| #[trigger] gone@.contains(q) <==> next.contains(q)
                    && gone_set.contains(q) by {
                    if gone@.contains(q) {
                        let a = choose|a: int| 0 <= a < gone@.len() && gone@[a] == q;
                        if a < was.len() {
                            assert(was[a] == q);
                            assert(was.contains(q));
                            let b = choose|b: int| 0 <= b < i && all@.take(i as int)[b] == q;
                            assert(next[b] == q);
                        } else {
                            assert(next[i as int] == q);
                        }
                    }
                    if next.contains(q) && gone_set.contains(q) {
                        let b = choose|b: int| 0 <= b < i + 1 && next[b] == q;
                        if b < i {
                            assert(all@.take(i as int)[b] == q);
                            assert(was.contains(q));
                            let a = choose|a: int| 0 <= a < was.len() && was[a] == q;
                            assert(gone@[a] == q);
                        } else {
                            assert(gone@[gone@.len() - 1] == q);
                        }
                    }
                }
                assert forall|a: int| 0 <= a < gone@.len() && i + 1 < all@.len() implies gone@[a]
                    < all@[i + 1] by {
                    assert(all@[i as int] < all@[i + 1]);
                }
            }
            i += 1;
        }
        assert(all@.take(i as int) =~= all@);
        proof {
            assert(table::lists(gone@, gone_set)) by {
                assert forall|k: isize| gone_set.contains(k) <==> #[trigger] gone@.contains(k) by {
                    assert(all@.contains(k) <==> start.early.dom().contains(k));
                }
            }
            table::lemma_listing(gone@, gone_set);
            lemma_listed(gone@, gone_set);
        }
        let r: Vec<Effect> = early_effects(&self.early, &gone);
        let mut j: usize = 0;
        assert(self.early@ =~= start.early.remove_keys(gone@.take(0).to_set()));
        while j < gone.len()
            invariant
                j <= gone@.len(),
                self.early.ok(),
                self.frosted.ok(),
                self.prior.ok(),
                self.refused.ok(),
                self@ == (EngineState { early: self.early@, ..start }),
                self.early@ == start.early.remove_keys(gone@.take(j as int).to_set()),
            decreases gone.len() - j,
        {
            let _ = self.early.remove(gone[j]);
            proof {
                lemma_take_set(gone@, j as int);
                assert(self.early@ =~= start.early.remove_keys(gone@.take(j + 1).to_set()));
            }
            j += 1;
        }
        proof {
            assert(gone@.take(j as int) =~= gone@);
            assert(gone@.to_set() =~= gone_set) by {
                assert forall|k: isize| gone@.to_set().contains(k) <==> gone_set.contains(k) by {
                    assert(gone@.contains(k) <==> gone_set.contains(k));
                }
            }
        }
        r
    }

    /// What is to be saved about the windows, in the order of their handles, when it differs from
    /// what was saved last. Records original styles so a crash can be undone on the next start.
    pub fn persist(&self) -> (r: Option<Vec<PersistedWindow>>)
        requires
            self.ok(),
        ensures
            match r {
                Some(windows) => in_handle_order(windows@, self@.records()) && !same_records(
                    windows@,
                    self@.persisted,
                ),
                None => exists|windows: Seq<PersistedWindow>| #[trigger]
                    in_handle_order(windows, self@.records()) && same_records(
                        windows,
                        self@.persisted,
                    ),
            },
    {
        let mut all: Table<PersistedWindow> = Table::new();
        let ghost records = self@.records();
        let mut i: usize = 0;
        while i < self.frosted.entries.len()
            invariant
                self.ok(),
                i <= self.frosted.entries@.len(),
                all.ok(),
                forall|k: isize| #[trigger]
                    all@.contains_key(k) ==> self.frosted@.contains_key(k) && all@[k] == record_of(
                        k,
                        self.frosted@[k],
                    ),
                forall|j: int|
                    0 <= j < i ==> all@.contains_key((#[trigger] self.frosted.entries@[j]).0),
            decreases self.frosted.entries.len() - i,
        {
            proof {
                table::lemma_entry(self.frosted, i as int);
            }
            let k: isize = self.frosted.entries[i].0;
            let t: &Frosted = &self.frosted.entries[i].1;
            let w: PersistedWindow = PersistedWindow::new(
                k,
                t.pid,
                t.process_start,
                t.process.clone(),
                &t.saved,
            );
            all.insert(k, w);
            i += 1;
        }
        let ghost first = all@;
        assert(first.dom() =~= self.frosted@.dom()) by {
            assert forall|k: isize| #[trigger] self.frosted@.dom().contains(k) implies first.dom()
                .contains(k) by {
                let at = table::lemma_key(self.frosted, k);
            }
        }
        let mut j: usize = 0;
        while j < self.early.entries.len()
            invariant
                self.ok(),
                j <= self.early.entries@.len(),
                all.ok(),
                forall|k: isize| #[trigger]
                    first.contains_key(k) ==> all@.contains_key(k) && all@[k] == first[k],
                first.dom() == self.frosted@.dom(),
                forall|k: isize| #[trigger]
                    all@.contains_key(k) ==> first.contains_key(k) || (self.early@.contains_key(k)
                        && all@[k] == self.early@[k].window),
                forall|l: int|
                    0 <= l < j ==> all@.contains_key((#[trigger] self.early.entries@[l]).0),
            decreases self.early.entries.len() - j,
        {
            proof {
                table::lemma_entry(self.early, j as int);
                assert(self.early@.contains_key(self.early.entries@[j as int].0));
            }
            let k: isize = self.early.entries[j].0;
            all.insert(k, self.early.entries[j].1.window.clone());
            j += 1;
        }
        let ghost second = all@;
        assert(second.dom() =~= self.frosted@.dom().union(self.early@.dom())) by {
            assert forall|k: isize| #[trigger] self.early@.dom().contains(k) implies second.dom()
                .contains(k) by {
                let at = table::lemma_key(self.early, k);
            }
            assert forall|k: isize| #[trigger] self.frosted@.dom().contains(k) implies second.dom()
                .contains(k) by {
                assert(first.contains_key(k));
            }
        }
        let mut l: usize = 0;
        while l < self.prior.entries.len()
            invariant
                self.ok(),
                l <= self.prior.entries@.len(),
                all.ok(),
                forall|k: isize| #[trigger]
                    second.contains_key(k) ==> all@.contains_key(k) && all@[k] == second[k],
                second.dom() == self.frosted@.dom().union(self.early@.dom()),
                forall|k: isize| #[trigger]
                    all@.contains_key(k) ==> second.contains_key(k) || (self.prior@.contains_key(k)
                        && all@[k] == self.prior@[k]),
                forall|m: int|
                    0 <= m < l ==> all@.contains_key((#[trigger] self.prior.entries@[m]).0),
            decreases self.prior.entries.len() - l,
        {
            proof {
                table::lemma_entry(self.prior, l as int);
                assert(self.prior@.contains_key(self.prior.entries@[l as int].0));
                assert(!self.early@.contains_key(self.prior.entries@[l as int].0));
            }
            let k: isize = self.prior.entries[l].0;
            all.insert(k, self.prior.entries[l].1.clone());
            l += 1;
        }
        assert(all@.dom() =~= records.dom()) by {
            assert forall|k: isize| #[trigger] self.prior@.dom().contains(k) implies all@.dom()
                .contains(k) by {
                let at = table::lemma_key(self.prior, k);
            }
            assert forall|k: isize| #[trigger] second.dom().contains(k) implies all@.dom().contains(
                k,
            ) by {
                assert(second.contains_key(k));
            }
        }
        assert(all@ =~= records) by {
            assert forall|k: isize| #[trigger] all@.contains_key(k) implies all@[k]
                == records[k] by {
                if self.frosted@.contains_key(k) {
                    assert(first.contains_key(k));
                    assert(second.contains_key(k));
                } else if self.early@.contains_key(k) {
                    assert(second.contains_key(k));
                }
            }
        }
        let windows: Vec<PersistedWindow> = in_order(&all);
        if records_equal(&windows, &self.persisted) {
            None
        } else {
            Some(windows)
        }
    }

    /// Remembers what was saved.
    pub fn saved(&mut self, windows: Vec<PersistedWindow>)
        requires
            old(self).ok(),
        ensures
            final(self).ok(),
            final(self)@ == (EngineState { persisted: windows@, ..old(self)@ }),
    {
        self.persisted = windows;
    }

    /// Decides whether to fade a window of a ruled app right away, before it is shown or titled,
    /// so it never appears solid first. The glass follows once it qualifies as an app window.
    /// `candidate` is the process behind it and `process` the name of that process, where there
    /// are any.
    pub fn fade_early(
        &self,
        hwnd: isize,
        minimized: bool,
        candidate: Option<u32>,
        process: Option<String>,
        process_start: u64,
    ) -> (r: Option<EarlyPlan>)
        requires
            self.ok(),
        ensures
            r is Some <==> self@.fades_early(
                minimized,
                candidate,
                match process {
                    Some(name) => Some(name@),
                    None => None,
                },
            ),
            r matches Some(plan) ==> plan.hwnd == hwnd && plan.pid == candidate->0
                && plan.process_start == process_start && plan.process == process->0
                && plan.transparency == self@.store.rules@[target::enabled_for(
                self@.store.rules@,
                process->0@,
            )].transparency && plan.saved == self@.original(hwnd, candidate->0, process_start),
    {
        if minimized {
            return None;
        }
        let pid: u32 = match candidate {
            Some(pid) => pid,
            None => return None,
        };
        let process: String = match process {
            Some(process) => process,
            None => return None,
        };
        let transparency: u8 = match target::enabled_rule(&self.store.rules, process.as_str()) {
            Some(rule) => rule.transparency,
            None => return None,
        };
        let saved: Option<SavedStyle> = self.original_style(hwnd, pid, process_start);
        Some(EarlyPlan { hwnd, pid, process_start, process, transparency, saved })
    }

    /// Records an early fade, which had the style `saved` before. `done` says whether it worked.
    pub fn faded(&mut self, plan: EarlyPlan, saved: &SavedStyle, done: bool, now: u64) -> (r: Next)
        requires
            old(self).ok(),
            !old(self)@.frosted.contains_key(plan.hwnd),
        ensures
            final(self).ok(),
            final(self)@ == old(self)@.faded_early(
                plan.hwnd,
                if done {
                    Some(
                        Early {
                            window: PersistedWindow {
                                hwnd: plan.hwnd,
                                pid: plan.pid,
                                process_start: plan.process_start,
                                process: plan.process,
                                original_exstyle: saved.exstyle,
                                original_layered: saved.was_layered,
                                original_alpha: saved.alpha,
                            },
                            since: now,
                        },
                    )
                } else {
                    None
                },
            ),
            r == if done {
                Next::Faded
            } else {
                Next::Match
            },
    {
        let hwnd: isize = plan.hwnd;
        let _ = self.early.remove(hwnd);
        let _ = self.prior.remove(hwnd);
        if done {
            let window: PersistedWindow = PersistedWindow::new(
                hwnd,
                plan.pid,
                plan.process_start,
                plan.process,
                saved,
            );
            self.early.insert(hwnd, Early { window, since: now });
            Next::Faded
        } else {
            Next::Match
        }
    }

    /// Decides what a window event asks for.
    pub fn on_event(&mut self, event: u32, hwnd: isize) -> (r: (Vec<Effect>, Next))
        requires
            old(self).ok(),
        ensures
            final(self).ok(),
            ({
                let s = old(self)@;
                if event == EVENT_OBJECT_DESTROY {
                    &&& r.0@ == drop_of(s.frosted, hwnd)
                    &&& r.1 == if s.frosted.contains_key(hwnd) || s.early.contains_key(hwnd) {
                        Next::Persist
                    } else {
                        Next::Nothing
                    }
                    &&& final(self)@ == (EngineState {
                        frosted: s.frosted.remove(hwnd),
                        early: s.early.remove(hwnd),
                        ..s
                    })
                } else if event == EVENT_SYSTEM_FOREGROUND {
                    &&& r.0@ == follows(table::listing(s.frosted.dom()))
                    &&& r.1 == Next::Nothing
                    &&& final(self)@ == s
                } else if s.frosted.contains_key(hwnd) {
                    &&& r.0@ == seq![Effect::Follow { hwnd }]
                    &&& r.1 == Next::Nothing
                    &&& final(self)@ == s
                } else {
                    &&& r.0@.len() == 0
                    &&& r.1 == s.arrived(event, hwnd)
                    &&& final(self)@ == s
                }
            }),
            event == 0x8001 ==> !final(self)@.frosted.contains_key(hwnd)
                && !final(self)@.early.contains_key(hwnd),
            event == 0x0003 ==> r.0@ == follows(table::listing(old(self)@.frosted.dom())),
    {
        if event == EVENT_OBJECT_DESTROY {
            if self.frosted.contains_key(hwnd) {
                let effects: Vec<Effect> = self.drop_frosted(hwnd);
                assert(self.early@ =~= old(self)@.early.remove(hwnd));
                return (effects, Next::Persist);
            }
            assert(self.frosted@ =~= self.frosted@.remove(hwnd));
            let next: Next = match self.early.remove(hwnd) {
                Some(_) => Next::Persist,
                None => Next::Nothing,
            };
            let effects: Vec<Effect> = Vec::new();
            assert(effects@ =~= drop_of(old(self)@.frosted, hwnd));
            return (effects, next);
        }
        if event == EVENT_SYSTEM_FOREGROUND {
            let keys: Vec<isize> = self.frosted.keys();
            proof {
                table::lemma_listing(keys@, self.frosted@.dom());
            }
            let mut effects: Vec<Effect> = Vec::new();
            let mut i: usize = 0;
            while i < keys.len()
                invariant
                    i <= keys@.len(),
                    effects@ == follows(keys@).take(i as int),
                decreases keys.len() - i,
            {
                effects.push(Effect::Follow { hwnd: keys[i] });
                assert(effects@ =~= follows(keys@).take(i + 1));
                i += 1;
            }
            assert(effects@ =~= follows(keys@));
            return (effects, Next::Nothing);
        }
        let mut effects: Vec<Effect> = Vec::new();
        if self.frosted.contains_key(hwnd) {
            effects.push(Effect::Follow { hwnd });
            return (effects, Next::Nothing);
        }
        let arrival: bool = event == EVENT_OBJECT_CREATE || event == EVENT_OBJECT_SHOW || event
            == EVENT_OBJECT_UNCLOAKED || event == EVENT_OBJECT_NAMECHANGE || event
            == EVENT_SYSTEM_MINIMIZEEND;
        if !arrival || self.store.paused || self.refused.contains_key(hwnd) || !self.has_enabled() {
            return (effects, Next::Nothing);
        }
        if self.early.contains_key(hwnd) {
            (effects, Next::Faded)
        } else if event != EVENT_OBJECT_NAMECHANGE {
            (effects, Next::Fade)
        } else {
            (effects, Next::Match)
        }
    }

    fn has_enabled(&self) -> (r: bool)
        ensures
            r == self@.any_enabled(),
    {
        let mut i: usize = 0;
        while i < self.store.rules.len()
            invariant
                i <= self.store.rules@.len(),
                forall|j: int| 0 <= j < i ==> !(#[trigger] self.store.rules@[j]).enabled,
            decreases self.store.rules.len() - i,
        {
            if self.store.rules[i].enabled {
                assert(self@.store.rules@[i as int].enabled);
                return true;
            }
            i += 1;
        }
        false
    }

    /// A window that appeared is to be frosted now. `process` is the name behind it, if it is a
    /// window that could be frosted.
    pub fn is_ready_process(&self, process: Option<&str>) -> (r: bool)
        ensures
            r == (process is Some && has_enabled(self@.store.rules@, process->0@)),
    {
        match process {
            Some(name) => target::enabled_rule(&self.store.rules, name).is_some(),
            None => false,
        }
    }
}

/// Some rule that is on names the process.
pub open spec fn has_enabled(rules: Seq<Rule>, name: Seq<char>) -> bool {
    target::enabled_for(rules, name) < rules.len()
}

/// A window faded as it is created is nudged unless it was layered before or is not on screen.
pub fn nudges_early(saved: &SavedStyle, out_of_view: bool) -> (r: bool)
    ensures
        r == (!saved.was_layered && !out_of_view),
{
    !saved.was_layered && !out_of_view
}

/// A window faded as it gets its glass is nudged unless it was layered before.
pub fn nudges_frosting(saved: &SavedStyle) -> (r: bool)
    ensures
        r == !saved.was_layered,
{
    !saved.was_layered
}

/// What puts back every window a crashed or killed Blurman left faded. Used when no Blurman is
/// running.
pub fn restore_leftovers(state: &Vec<PersistedWindow>) -> (r: Vec<Effect>)
    ensures
        r@ == state@.map_values(|w: PersistedWindow| put_back(w.hwnd, w)),
{
    let mut r: Vec<Effect> = Vec::new();
    let ghost all = state@.map_values(|w: PersistedWindow| put_back(w.hwnd, w));
    let mut i: usize = 0;
    while i < state.len()
        invariant
            i <= state@.len(),
            all == state@.map_values(|w: PersistedWindow| put_back(w.hwnd, w)),
            r@ == all.take(i as int),
        decreases state.len() - i,
    {
        let w: &PersistedWindow = &state[i];
        r.push(
            Effect::PutBack {
                hwnd: w.hwnd,
                pid: w.pid,
                process_start: w.process_start,
                saved: w.saved_style(),
            },
        );
        assert(r@ =~= all.take(i + 1));
        i += 1;
    }
    assert(r@ =~= all);
    r
}

/// Window events that arrived while the engine was busy, as (event, HWND). They wait here instead
/// of being dropped, so a window created in that moment is still faded.
pub struct EventQueue {
    pub events: VecDeque<(u32, isize)>,
}

impl View for EventQueue {
    type V = Seq<(u32, isize)>;

    open spec fn view(&self) -> Seq<(u32, isize)> {
        self.events@
    }
}

impl EventQueue {
    pub fn new() -> (r: EventQueue)
        ensures
            r@.len() == 0,
    {
        EventQueue { events: VecDeque::new() }
    }

    /// Adds an event at the back, unless it waits already.
    pub fn queue_event(&mut self, event: u32, hwnd: isize)
        ensures
            final(self)@ == if old(self)@.contains((event, hwnd)) {
                old(self)@
            } else {
                old(self)@.push((event, hwnd))
            },
    {
        let mut i: usize = 0;
        while i < self.events.len()
            invariant
                i <= self.events@.len(),
                self@ == old(self)@,
                forall|j: int| 0 <= j < i ==> #[trigger] self.events@[j] != (event, hwnd),
            decreases self.events@.len() - i,
        {
            if self.events[i].0 == event && self.events[i].1 == hwnd {
                assert(self@[i as int] == (event, hwnd));
                return;
            }
            i += 1;
        }
        self.events.push_back((event, hwnd));
    }

    /// Takes the event that waited longest.
    pub fn pop(&mut self) -> (r: Option<(u32, isize)>)
        ensures
            old(self)@.len() == 0 ==> r is None && final(self)@ == old(self)@,
            old(self)@.len() > 0 ==> r == Some(old(self)@[0]) && final(self)@
                == old(self)@.drop_first(),
    {
        self.events.pop_front()
    }

    pub fn clear(&mut self)
        ensures
            final(self)@.len() == 0,
    {
        self.events.clear();
    }
}

/// An event concerns a window itself, not a part of it.
pub fn on_win_event(hwnd: isize, id_object: i32, id_child: i32) -> (r: bool)
    ensures
        r == (hwnd != 0 && id_object == 0 && id_child == 0),
{
    hwnd != 0 && id_object == 0 && id_child == 0
}

/// The ranges of events to listen for.
pub fn install_hooks() -> (r: Vec<(u32, u32)>)
    ensures
        r@ == hook_ranges(),
{
    let r: Vec<(u32, u32)> = vec![
        (EVENT_SYSTEM_FOREGROUND, EVENT_SYSTEM_FOREGROUND),
        (EVENT_SYSTEM_MINIMIZESTART, EVENT_SYSTEM_MINIMIZEEND),
        (EVENT_OBJECT_CREATE, EVENT_OBJECT_HIDE),
        (EVENT_OBJECT_LOCATIONCHANGE, EVENT_OBJECT_NAMECHANGE),
        (EVENT_OBJECT_CLOAKED, EVENT_OBJECT_UNCLOAKED),
    ];
    assert(r@ =~= hook_ranges());
    r
}

pub open spec fn hook_ranges() -> Seq<(u32, u32)> {
    seq![
        (EVENT_SYSTEM_FOREGROUND, EVENT_SYSTEM_FOREGROUND),
        (EVENT_SYSTEM_MINIMIZESTART, EVENT_SYSTEM_MINIMIZEEND),
        (EVENT_OBJECT_CREATE, EVENT_OBJECT_HIDE),
        (EVENT_OBJECT_LOCATIONCHANGE, EVENT_OBJECT_NAMECHANGE),
        (EVENT_OBJECT_CLOAKED, EVENT_OBJECT_UNCLOAKED),
    ]
}

/// What a message to the effect thread asks for.
#[derive(Debug, Clone, Copy, PartialEq, Eq, Structural)]
pub enum HostAction {
    Scan,
    Reload,
    Show,
    Quit,
    Pass,
}

/// Decides about a message of the effect thread. `to_host` says whether it was sent to its own
/// window; the last three are the numbers Windows gave to Blurman's messages.
pub fn host_action(to_host: bool, message: u32, reload: u32, show: u32, shutdown: u32) -> (r:
    HostAction)
    ensures
        r == if !to_host {
            HostAction::Pass
        } else if message == WM_TIMER {
            HostAction::Scan
        } else if message == reload {
            HostAction::Reload
        } else if message == show {
            HostAction::Show
        } else if message == shutdown {
            HostAction::Quit
        } else {
            HostAction::Pass
        },
        to_host && message == 0x0113 ==> r == HostAction::Scan,
{
    if !to_host {
        HostAction::Pass
    } else if message == WM_TIMER {
        HostAction::Scan
    } else if message == reload {
        HostAction::Reload
    } else if message == show {
        HostAction::Show
    } else if message == shutdown {
        HostAction::Quit
    } else {
        HostAction::Pass
    }
}

/// What to tell the user when a change to a window failed.
pub open spec fn problems(process: Seq<char>, result: Option<Result<(), String>>) -> Seq<Seq<char>> {
    match result {
        Some(Err(err)) => seq![process + ": "@ + err@],
        _ => Seq::empty(),
    }
}

fn records_equal(a: &Vec<PersistedWindow>, b: &Vec<PersistedWindow>) -> (r: bool)
    ensures
        r == same_records(a@, b@),
{
    if a.len() != b.len() {
        return false;
    }
    let mut i: usize = 0;
    while i < a.len()
        invariant
            i <= a@.len(),
            a@.len() == b@.len(),
            forall|j: int| 0 <= j < i ==> same_record(#[trigger] a@[j], b@[j]),
        decreases a.len() - i,
    {
        let x: &PersistedWindow = &a[i];
        let y: &PersistedWindow = &b[i];
        if !(x.hwnd == y.hwnd && x.pid == y.pid && x.process_start == y.process_start
            && x.original_exstyle == y.original_exstyle && x.original_layered == y.original_layered
            && x.original_alpha == y.original_alpha && text::same_text(
            x.process.as_str(),
            y.process.as_str(),
        )) {
            assert(!same_record(a@[i as int], b@[i as int]));
            return false;
        }
        i += 1;
    }
    true
}

proof fn lemma_listed(keys: Seq<isize>, set: Set<isize>)
    requires
        table::lists(keys, set),
    ensures
        forall|i: int| 0 <= i < keys.len() ==> set.contains(#[trigger] keys[i]),
{
    assert forall|i: int| 0 <= i < keys.len() implies set.contains(#[trigger] keys[i]) by {
        assert(keys.contains(keys[i]));
    }
}

proof fn lemma_take_set(s: Seq<isize>, i: int)
    requires
        0 <= i < s.len(),
    ensures
        s.take(i + 1).to_set() == s.take(i).to_set().insert(s[i]),
{
    let a = s.take(i);
    let b = s.take(i + 1);
    assert forall|k: isize| b.to_set().contains(k) <==> a.to_set().insert(s[i]).contains(k) by {
        if a.contains(k) {
            let x = choose|x: int| 0 <= x < a.len() && a[x] == k;
            assert(b[x] == k);
        }
        if k == s[i] {
            assert(b[i] == k);
        }
        if b.contains(k) {
            let x = choose|x: int| 0 <= x < b.len() && b[x] == k;
            if x < i {
                assert(a[x] == k);
            }
        }
    }
    assert(b.to_set() =~= a.to_set().insert(s[i]));
}

proof fn lemma_drops_hold(frosted: Map<isize, Frosted>, keys: Seq<isize>, k: isize)
    requires
        keys.contains(k),
        frosted.contains_key(k),
    ensures
        drops(frosted, keys).contains(put_back(k, record_of(k, frosted[k]))),
        drops(frosted, keys).contains(Effect::Close { hwnd: k }),
    decreases keys.len(),
{
    let rest = drops(frosted, keys.drop_last());
    let last = drop_of(frosted, keys.last());
    let all = rest + last;
    let a = put_back(k, record_of(k, frosted[k]));
    let b = Effect::Close { hwnd: k };
    let i = choose|i: int| 0 <= i < keys.len() && keys[i] == k;
    if i == keys.len() - 1 {
        assert(all[rest.len() as int] == a);
        assert(all[rest.len() as int + 1] == b);
    } else {
        assert(keys.drop_last()[i] == k);
        lemma_drops_hold(frosted, keys.drop_last(), k);
        let x = choose|x: int| 0 <= x < rest.len() && rest[x] == a;
        let y = choose|y: int| 0 <= y < rest.len() && rest[y] == b;
        assert(all[x] == a);
        assert(all[y] == b);
    }
}

/// Pausing puts back every window that was touched, closes every glass, and keeps the rules.
pub proof fn pausing_puts_everything_back(engine: Engine, k: isize)
    requires
        engine.ok(),
        engine@.touched().contains(k),
    ensures
        engine@.restore_effects().contains(put_back(k, engine@.record(k))),
        engine@.frosted.contains_key(k) ==> engine@.restore_effects().contains(
            Effect::Close { hwnd: k },
        ),
        !engine@.restored().touched().contains(k),
        engine@.restored().store == engine@.store,
{
    let s = engine@;
    let a = table::listing(s.frosted.dom());
    let b = table::listing(s.early.dom());
    let c = table::listing(s.prior.dom());
    table::lemma_listable(engine.frosted, Set::empty());
    table::lemma_listable(engine.early, Set::empty());
    table::lemma_listable(engine.prior, Set::empty());
    assert(s.frosted.dom().difference(Set::empty()) =~= s.frosted.dom());
    assert(s.early.dom().difference(Set::empty()) =~= s.early.dom());
    assert(s.prior.dom().difference(Set::empty()) =~= s.prior.dom());
    let first = drops(s.frosted, a);
    let second = early_drops(s.early, b);
    let third = prior_drops(s.prior, c);
    let all = first + second + third;
    let e = put_back(k, s.record(k));
    if s.frosted.contains_key(k) {
        assert(a.contains(k));
        lemma_drops_hold(s.frosted, a, k);
        let x = choose|x: int| 0 <= x < first.len() && first[x] == e;
        let y = choose|y: int| 0 <= y < first.len() && first[y] == (Effect::Close { hwnd: k });
        assert(all[x] == e);
        assert(all[y] == (Effect::Close { hwnd: k }));
    } else if s.early.contains_key(k) {
        assert(b.contains(k));
        let x = choose|x: int| 0 <= x < b.len() && b[x] == k;
        assert(second[x] == e);
        assert(all[first.len() + x] == e);
    } else {
        assert(c.contains(k));
        let x = choose|x: int| 0 <= x < c.len() && c[x] == k;
        assert(third[x] == e);
        assert(all[first.len() + second.len() + x] == e);
    }
}

/// A scan keeps frost on wanted windows only. Every other frosted window, and every one left over
/// from an earlier run, is put back.
pub proof fn windows_without_a_rule_are_put_back(engine: Engine, wanted: Set<isize>, k: isize)
    requires
        engine.ok(),
        !wanted.contains(k),
        engine@.frosted.contains_key(k) || engine@.prior.contains_key(k),
    ensures
        engine@.stale_effects(wanted).contains(put_back(k, engine@.record(k))),
        engine@.frosted.contains_key(k) ==> engine@.stale_effects(wanted).contains(
            Effect::Close { hwnd: k },
        ),
        !engine@.without_stale(wanted).frosted.contains_key(k),
        !engine@.without_stale(wanted).prior.contains_key(k),
{
    let s = engine@;
    let a = table::listing(s.frosted.dom().difference(wanted));
    let c = table::listing(s.prior.dom().difference(wanted));
    table::lemma_listable(engine.frosted, wanted);
    table::lemma_listable(engine.prior, wanted);
    let first = drops(s.frosted, a);
    let third = prior_drops(s.prior, c);
    let all = first + third;
    let e = put_back(k, s.record(k));
    if s.frosted.contains_key(k) {
        assert(a.contains(k));
        lemma_drops_hold(s.frosted, a, k);
        let x = choose|x: int| 0 <= x < first.len() && first[x] == e;
        let y = choose|y: int| 0 <= y < first.len() && first[y] == (Effect::Close { hwnd: k });
        assert(all[x] == e);
        assert(all[y] == (Effect::Close { hwnd: k }));
    } else {
        assert(s.prior.contains_key(k));
        assert(!s.early.contains_key(k));
        assert(c.contains(k));
        let x = choose|x: int| 0 <= x < c.len() && c[x] == k;
        assert(third[x] == e);
        assert(all[first.len() + x] == e);
    }
}

/// What one wanted window asks for touches no other window.
proof fn lemma_served(state: EngineState, window: LiveWindow, rule: Rule, trial: Trial)
    requires
        state.ok(),
    ensures
        ({
            let after = state.served(window, rule, trial);
            &&& after.ok()
            &&& after.is_served(window)
            &&& after.store == state.store
            &&& after.persisted == state.persisted
            &&& forall|k: isize| k != window.hwnd ==> #[trigger] after.same_about(state, k)
        }),
{
    assert(state.visited(window).ok());
}

/// Serving the wanted windows one by one serves each, and touches no other.
proof fn lemma_all_served(state: EngineState, wanted: Seq<(LiveWindow, Rule)>, trials: Seq<Trial>)
    requires
        state.ok(),
        handles(wanted).no_duplicates(),
    ensures
        ({
            let after = state.all_served(wanted, trials);
            &&& after.ok()
            &&& after.store == state.store
            &&& after.persisted == state.persisted
            &&& forall|i: int| 0 <= i < wanted.len() ==> after.is_served((#[trigger] wanted[i]).0)
            &&& forall|k: isize|
                !handles(wanted).contains(k) ==> #[trigger] after.same_about(state, k)
        }),
    decreases wanted.len(),
{
    if wanted.len() > 0 {
        let rest = wanted.drop_last();
        let last = wanted.last();
        let all = handles(wanted);
        assert(handles(rest) =~= all.drop_last());
        assert(handles(rest).no_duplicates()) by {
            assert forall|i: int, j: int|
                0 <= i < rest.len() && 0 <= j < rest.len() && i != j implies handles(rest)[i]
                != handles(rest)[j] by {
                assert(all[i] != all[j]);
            }
        }
        lemma_all_served(state, rest, trials);
        let before = state.all_served(rest, trials);
        lemma_served(before, last.0, last.1, trials[wanted.len() - 1]);
        let after = state.all_served(wanted, trials);
        assert forall|i: int| 0 <= i < wanted.len() implies after.is_served(
            (#[trigger] wanted[i]).0,
        ) by {
            if i < rest.len() {
                assert(rest[i] == wanted[i]);
                assert(all[i] != all[wanted.len() - 1]);
                assert(after.same_about(before, wanted[i].0.hwnd));
            }
        }
        assert forall|k: isize| !all.contains(k) implies #[trigger] after.same_about(state, k) by {
            assert(all[wanted.len() - 1] == last.0.hwnd);
            if handles(rest).contains(k) {
                let i = choose|i: int| 0 <= i < rest.len() && handles(rest)[i] == k;
                assert(all[i] == k);
            }
            assert(before.same_about(state, k));
            assert(after.same_about(before, k));
        }
    }
}

/// A scan as a whole, whatever comes of each attempt: every wanted window ends up frosted for its
/// own process, or that process is known to have refused. Nothing else is frosted, left over from
/// an earlier run, or refused, and what is known of early fades of other windows stays.
pub proof fn a_scan_serves_every_wanted_window(
    state: EngineState,
    wanted: Seq<(LiveWindow, Rule)>,
    trials: Seq<Trial>,
)
    requires
        state.ok(),
        handles(wanted).no_duplicates(),
        trials.len() == wanted.len(),
    ensures
        ({
            let after = state.without_stale(handles(wanted).to_set()).all_served(wanted, trials);
            &&& after.ok()
            &&& after.store == state.store
            &&& forall|i: int| 0 <= i < wanted.len() ==> after.is_served((#[trigger] wanted[i]).0)
            &&& forall|k: isize| #[trigger]
                after.frosted.contains_key(k) ==> handles(wanted).contains(k)
            &&& forall|k: isize| #[trigger]
                after.prior.contains_key(k) ==> handles(wanted).contains(k)
            &&& forall|k: isize| #[trigger]
                after.refused.contains_key(k) ==> handles(wanted).contains(k)
            &&& forall|k: isize|
                !handles(wanted).contains(k) && #[trigger] state.early.contains_key(k)
                    ==> after.early.contains_key(k) && after.early[k] == state.early[k]
        }),
{
    let ids = handles(wanted).to_set();
    let start = state.without_stale(ids);
    let after = start.all_served(wanted, trials);
    lemma_all_served(start, wanted, trials);
    assert forall|k: isize| !handles(wanted).contains(k) implies {
        &&& !(#[trigger] after.frosted.contains_key(k))
        &&& !after.prior.contains_key(k)
        &&& !after.refused.contains_key(k)
    } by {
        assert(!ids.contains(k));
        assert(after.same_about(start, k));
    }
    assert forall|k: isize| #[trigger] after.prior.contains_key(k) implies handles(
        wanted,
    ).contains(k) by {
        assert(after.same_about(start, k) || handles(wanted).contains(k));
    }
    assert forall|k: isize| #[trigger] after.refused.contains_key(k) implies handles(
        wanted,
    ).contains(k) by {
        assert(after.same_about(start, k) || handles(wanted).contains(k));
    }
    assert forall|k: isize|
        !handles(wanted).contains(k) && #[trigger] state.early.contains_key(k) implies {
        &&& after.early.contains_key(k)
        &&& after.early[k] == state.early[k]
    } by {
        assert(after.same_about(start, k));
    }
}

/// A scan settles: when nothing changed since, the next one puts nothing back.
pub proof fn scanning_settles(state: EngineState, wanted: Set<isize>)
    ensures
        state.without_stale(wanted).stale_effects(wanted).len() == 0,
        state.without_stale(wanted).without_stale(wanted) == state.without_stale(wanted),
{
    let after = state.without_stale(wanted);
    let none = Seq::<isize>::empty();
    assert(after.frosted.dom().difference(wanted) =~= Set::empty());
    assert(after.prior.dom().difference(wanted) =~= Set::empty());
    assert(table::lists(none, Set::empty()));
    table::lemma_listing(none, Set::empty());
    let again = after.without_stale(wanted);
    assert(again.frosted =~= after.frosted);
    assert(again.prior =~= after.prior);
    assert(again.refused =~= after.refused);
}

/// A window faded as it was created that did not become an app window in time is put back. One
/// that did, or still has time, is kept.
pub proof fn early_fades_do_not_last(engine: Engine, wanted: Set<isize>, now: u64, k: isize)
    requires
        engine.ok(),
        engine@.early.contains_key(k),
    ensures
        ({
            let gone = engine@.expired(wanted, now);
            let late = !wanted.contains(k) && now - engine@.early[k].since > EARLY_WAIT;
            &&& late ==> early_drops(engine@.early, table::listing(gone)).contains(
                put_back(k, engine@.record(k)),
            ) && !engine@.without_early(gone).early.contains_key(k)
            &&& !late ==> engine@.without_early(gone).early.contains_key(k)
                && engine@.without_early(gone).early[k] == engine@.early[k]
        }),
{
    let s = engine@;
    let gone = s.expired(wanted, now);
    let rest = s.early.dom().difference(gone);
    assert(s.early.dom().difference(rest) =~= gone);
    table::lemma_listable(engine.early, rest);
    let keys = table::listing(gone);
    if gone.contains(k) {
        assert(keys.contains(k));
        let i = choose|i: int| 0 <= i < keys.len() && keys[i] == k;
        assert(!s.frosted.contains_key(k));
        assert(early_drops(s.early, keys)[i] == put_back(k, s.record(k)));
    }
}

/// Windows that stay wanted are not touched by a scan.
pub proof fn wanted_windows_stay(state: EngineState, wanted: Set<isize>, k: isize)
    requires
        wanted.contains(k),
    ensures
        state.without_stale(wanted).frosted.contains_key(k) == state.frosted.contains_key(k),
        state.frosted.contains_key(k) ==> state.without_stale(wanted).frosted[k]
            == state.frosted[k],
        state.without_stale(wanted).prior.contains_key(k) == state.prior.contains_key(k),
        state.prior.contains_key(k) ==> state.without_stale(wanted).prior[k] == state.prior[k],
{
}

/// The style a window had before it was touched survives the early fade and the frosting: it is
/// what the frosting starts from, what is saved, and what the window gets back in the end.
pub proof fn the_original_style_survives(
    state: EngineState,
    early: Early,
    frosted: Frosted,
    saved: SavedStyle,
)
    requires
        state.ok(),
        !state.frosted.contains_key(early.window.hwnd),
        early.window.style() == saved,
        is_same(early.window, frosted.pid, frosted.process_start),
        state.faded_early(early.window.hwnd, Some(early)).original(
            early.window.hwnd,
            frosted.pid,
            frosted.process_start,
        ) == Some(frosted.saved),
    ensures
        ({
            let k = early.window.hwnd;
            let faded = state.faded_early(k, Some(early));
            let done = faded.tracking(k, frosted);
            &&& frosted.saved == saved
            &&& faded.record(k).style() == saved
            &&& done.record(k).style() == saved
            &&& drop_of(done.frosted, k)[0] == Effect::PutBack {
                hwnd: k,
                pid: frosted.pid,
                process_start: frosted.process_start,
                saved,
            }
        }),
{
}

/// A remembered style goes only to the process it was taken from.
pub proof fn styles_stay_with_their_process(
    state: EngineState,
    k: isize,
    pid: u32,
    process_start: u64,
)
    requires
        state.ok(),
        !state.frosted.contains_key(k),
        state.original(k, pid, process_start) is Some,
    ensures
        state.touched().contains(k),
        is_same(state.record(k), pid, process_start),
        state.original(k, pid, process_start) == Some(state.record(k).style()),
{
}

proof fn lemma_by_handle(windows: Seq<PersistedWindow>, records: Map<isize, PersistedWindow>)
    requires
        in_handle_order(windows, records),
    ensures
        by_handle(windows) == records,
    decreases windows.len(),
{
    let handles = windows.map_values(|w: PersistedWindow| w.hwnd);
    if windows.len() == 0 {
        assert forall|k: isize| !records.contains_key(k) by {
            assert(records.dom().contains(k) <==> handles.contains(k));
        }
        assert(by_handle(windows) =~= records);
    } else {
        let rest = windows.drop_last();
        let last = windows.last();
        let fewer = records.remove(last.hwnd);
        let keys = rest.map_values(|w: PersistedWindow| w.hwnd);
        assert(keys =~= handles.drop_last());
        assert(handles.last() == last.hwnd);
        assert forall|k: isize| fewer.dom().contains(k) <==> #[trigger] keys.contains(k) by {
            assert(records.dom().contains(k) <==> handles.contains(k));
            if handles.contains(k) {
                let i = choose|i: int| 0 <= i < handles.len() && handles[i] == k;
                if i < keys.len() {
                    assert(keys[i] == k);
                }
            }
            if keys.contains(k) {
                let i = choose|i: int| 0 <= i < keys.len() && keys[i] == k;
                assert(handles[i] == k);
                assert(handles[i] < handles[keys.len() as int]);
            }
        }
        assert forall|i: int, j: int| 0 <= i < j < keys.len() implies keys[i] < keys[j] by {
            assert(handles[i] < handles[j]);
        }
        assert forall|i: int| 0 <= i < rest.len() implies #[trigger] rest[i]
            == fewer[rest[i].hwnd] by {
            assert(windows[i] == rest[i]);
            assert(handles[i] < handles[keys.len() as int]);
        }
        lemma_by_handle(rest, fewer);
        assert(handles.contains(last.hwnd)) by {
            assert(handles[windows.len() - 1] == last.hwnd);
        }
        assert(windows[windows.len() - 1] == records[last.hwnd]);
        assert(by_handle(windows) =~= records);
    }
}

/// What is saved is enough to undo a crash: the next start remembers every touched window as it
/// was, and putting back the leftovers reaches every one of them.
pub proof fn a_crash_can_be_undone(
    state: EngineState,
    windows: Seq<PersistedWindow>,
    k: isize,
)
    requires
        state.ok(),
        in_handle_order(windows, state.records()),
        state.touched().contains(k),
    ensures
        by_handle(windows).contains_key(k),
        by_handle(windows)[k] == state.record(k),
        windows.map_values(|w: PersistedWindow| put_back(w.hwnd, w)).contains(
            put_back(k, state.record(k)),
        ),
{
    lemma_by_handle(windows, state.records());
    let handles = windows.map_values(|w: PersistedWindow| w.hwnd);
    assert(state.records().dom().contains(k) <==> handles.contains(k));
    let i = choose|i: int| 0 <= i < handles.len() && handles[i] == k;
    assert(windows[i] == state.records()[windows[i].hwnd]);
    assert(windows.map_values(|w: PersistedWindow| put_back(w.hwnd, w))[i] == put_back(
        k,
        state.record(k),
    ));
}

/// A window that refused is left alone while it stays the same window, and is tried again once
/// the rules are read anew.
pub proof fn a_refused_window_waits_for_new_rules(
    state: EngineState,
    window: LiveWindow,
    wanted: Set<isize>,
    store: Store,
)
    requires
        wanted.contains(window.hwnd),
    ensures
        state.refusing(window).is_refused(window),
        state.refusing(window).without_stale(wanted).is_refused(window),
        !(EngineState { store, refused: Map::empty(), ..state }).is_refused(window),
{
}

/// No event waits twice.
pub proof fn waiting_events_are_distinct(queue: Seq<(u32, isize)>, event: (u32, isize))
    requires
        queue.no_duplicates(),
    ensures
        !queue.contains(event) ==> queue.push(event).no_duplicates(),
        queue.len() > 0 ==> queue.drop_first().no_duplicates(),
{
}

/// Every event that asks for something is listened for.
pub proof fn every_event_is_heard(event: u32)
    requires
        is_arrival(event) || event == EVENT_OBJECT_DESTROY || event == EVENT_SYSTEM_FOREGROUND
            || event == EVENT_OBJECT_HIDE || event == EVENT_OBJECT_CLOAKED || event
            == EVENT_OBJECT_LOCATIONCHANGE || event == EVENT_SYSTEM_MINIMIZESTART,
    ensures
        exists|i: int|
            0 <= i < hook_ranges().len() && (#[trigger] hook_ranges()[i]).0 <= event
                && event <= hook_ranges()[i].1,
{
    let i: int = if event == EVENT_SYSTEM_FOREGROUND {
        0
    } else if event < EVENT_OBJECT_CREATE {
        1
    } else if event <= EVENT_OBJECT_HIDE {
        2
    } else if event <= EVENT_OBJECT_NAMECHANGE {
        3
    } else {
        4
    };
    assert(hook_ranges()[i].0 <= event && event <= hook_ranges()[i].1);
}

/// A new window of an app with a rule that is on is faded as it is created or shown: unless the
/// rules are paused, or the window refused before, it is faded already or is to be faded now.
pub proof fn new_windows_never_appear_solid(
    state: EngineState,
    event: u32,
    k: isize,
    pid: u32,
    process: Seq<char>,
    l: int,
)
    requires
        is_arrival(event),
        event != EVENT_OBJECT_NAMECHANGE,
        !state.store.paused,
        !state.refused.contains_key(k),
        0 <= l < state.store.rules@.len(),
        state.store.rules@[l].enabled,
        text::same_name(state.store.rules@[l].process@, process),
    ensures
        state.arrived(event, k) == if state.early.contains_key(k) {
            Next::Faded
        } else {
            Next::Fade
        },
        state.fades_early(false, Some(pid), Some(process)),
{
    target::lemma_enabled_for_reaches(state.store.rules@, process, l);
}

proof fn lemma_drops_only(frosted: Map<isize, Frosted>, keys: Seq<isize>, e: Effect)
    requires
        drops(frosted, keys).contains(e),
    ensures
        match e {
            Effect::PutBack { hwnd, pid, process_start, saved } => keys.contains(hwnd)
                && frosted.contains_key(hwnd) && frosted[hwnd].pid == pid
                && frosted[hwnd].process_start == process_start && frosted[hwnd].saved == saved,
            Effect::Close { hwnd } => keys.contains(hwnd) && frosted.contains_key(hwnd),
            _ => false,
        },
    decreases keys.len(),
{
    let all = drops(frosted, keys);
    let at = choose|at: int| 0 <= at < all.len() && all[at] == e;
    let rest = keys.drop_last();
    let first = drops(frosted, rest);
    let last = keys.last();
    assert(keys[keys.len() - 1] == last);
    if at < first.len() {
        assert(first[at] == e);
        lemma_drops_only(frosted, rest, e);
        assert forall|k: isize| rest.contains(k) implies keys.contains(k) by {
            let i = choose|i: int| 0 <= i < rest.len() && rest[i] == k;
            assert(keys[i] == k);
        }
    } else {
        assert(drop_of(frosted, last)[at - first.len()] == e);
    }
}

/// Pausing undoes what was done to each window and does nothing else. Every window that is frosted,
/// was faded early, or was left by an earlier run gets back the very style it had, if it still
/// belongs to its process; the glass of every frosted window is closed. No other window is touched.
pub proof fn pausing_undoes_each_window(engine: Engine, k: isize, e: Effect)
    requires
        engine.ok(),
    ensures
        ({
            let s = engine@;
            &&& s.frosted.contains_key(k) ==> s.restore_effects().contains(
                Effect::PutBack {
                    hwnd: k,
                    pid: s.frosted[k].pid,
                    process_start: s.frosted[k].process_start,
                    saved: s.frosted[k].saved,
                },
            ) && s.restore_effects().contains(Effect::Close { hwnd: k })
            &&& s.early.contains_key(k) ==> s.restore_effects().contains(
                Effect::PutBack {
                    hwnd: k,
                    pid: s.early[k].window.pid,
                    process_start: s.early[k].window.process_start,
                    saved: SavedStyle {
                        exstyle: s.early[k].window.original_exstyle,
                        was_layered: s.early[k].window.original_layered,
                        alpha: s.early[k].window.original_alpha,
                    },
                },
            )
            &&& s.prior.contains_key(k) ==> s.restore_effects().contains(
                Effect::PutBack {
                    hwnd: k,
                    pid: s.prior[k].pid,
                    process_start: s.prior[k].process_start,
                    saved: SavedStyle {
                        exstyle: s.prior[k].original_exstyle,
                        was_layered: s.prior[k].original_layered,
                        alpha: s.prior[k].original_alpha,
                    },
                },
            )
            &&& s.restore_effects().contains(e) ==> match e {
                Effect::PutBack { hwnd, pid, process_start, saved } => {
                    ||| s.frosted.contains_key(hwnd) && s.frosted[hwnd].pid == pid
                        && s.frosted[hwnd].process_start == process_start && s.frosted[hwnd].saved
                        == saved
                    ||| s.early.contains_key(hwnd) && s.early[hwnd].window.pid == pid
                        && s.early[hwnd].window.process_start == process_start
                        && s.early[hwnd].window.original_exstyle == saved.exstyle
                        && s.early[hwnd].window.original_layered == saved.was_layered
                        && s.early[hwnd].window.original_alpha == saved.alpha
                    ||| s.prior.contains_key(hwnd) && s.prior[hwnd].pid == pid
                        && s.prior[hwnd].process_start == process_start
                        && s.prior[hwnd].original_exstyle == saved.exstyle
                        && s.prior[hwnd].original_layered == saved.was_layered
                        && s.prior[hwnd].original_alpha == saved.alpha
                },
                Effect::Close { hwnd } => s.frosted.contains_key(hwnd),
                _ => false,
            }
            &&& !s.restored().frosted.contains_key(k)
            &&& !s.restored().early.contains_key(k)
            &&& !s.restored().prior.contains_key(k)
            &&& s.restored().refused == s.refused
            &&& s.restored().store == s.store
            &&& s.restored().persisted == s.persisted
        }),
{
    let s = engine@;
    if s.touched().contains(k) {
        pausing_puts_everything_back(engine, k);
    }
    let a = table::listing(s.frosted.dom());
    let b = table::listing(s.early.dom());
    let c = table::listing(s.prior.dom());
    table::lemma_listable(engine.frosted, Set::empty());
    table::lemma_listable(engine.early, Set::empty());
    table::lemma_listable(engine.prior, Set::empty());
    assert(s.frosted.dom().difference(Set::empty()) =~= s.frosted.dom());
    assert(s.early.dom().difference(Set::empty()) =~= s.early.dom());
    assert(s.prior.dom().difference(Set::empty()) =~= s.prior.dom());
    let first = drops(s.frosted, a);
    let second = early_drops(s.early, b);
    let third = prior_drops(s.prior, c);
    let all = s.restore_effects();
    if all.contains(e) {
        let at = choose|at: int| 0 <= at < all.len() && all[at] == e;
        if at < first.len() {
            assert(first[at] == e);
            lemma_drops_only(s.frosted, a, e);
        } else if at < first.len() + second.len() {
            let i = at - first.len();
            assert(second[i] == e);
            assert(b.contains(b[i]));
        } else {
            let i = at - first.len() - second.len();
            assert(third[i] == e);
            assert(c.contains(c[i]));
        }
    }
}

/// A scan undoes what is no longer wanted and nothing else. A frosted window that is not wanted
/// gets its own style back and its glass closed, one left by an earlier run its style; wanted ones
/// are not touched, and neither is any other window. What is kept is what is wanted, as it was.
pub proof fn a_scan_undoes_only_what_is_not_wanted(
    engine: Engine,
    wanted: Set<isize>,
    k: isize,
    e: Effect,
)
    requires
        engine.ok(),
    ensures
        ({
            let s = engine@;
            let after = s.without_stale(wanted);
            &&& s.frosted.contains_key(k) && !wanted.contains(k) ==> s.stale_effects(
                wanted,
            ).contains(
                Effect::PutBack {
                    hwnd: k,
                    pid: s.frosted[k].pid,
                    process_start: s.frosted[k].process_start,
                    saved: s.frosted[k].saved,
                },
            ) && s.stale_effects(wanted).contains(Effect::Close { hwnd: k })
            &&& s.prior.contains_key(k) && !wanted.contains(k) ==> s.stale_effects(wanted).contains(
                Effect::PutBack {
                    hwnd: k,
                    pid: s.prior[k].pid,
                    process_start: s.prior[k].process_start,
                    saved: SavedStyle {
                        exstyle: s.prior[k].original_exstyle,
                        was_layered: s.prior[k].original_layered,
                        alpha: s.prior[k].original_alpha,
                    },
                },
            )
            &&& s.stale_effects(wanted).contains(e) ==> match e {
                Effect::PutBack { hwnd, pid, process_start, saved } => !wanted.contains(hwnd) && {
                    ||| s.frosted.contains_key(hwnd) && s.frosted[hwnd].pid == pid
                        && s.frosted[hwnd].process_start == process_start && s.frosted[hwnd].saved
                        == saved
                    ||| s.prior.contains_key(hwnd) && s.prior[hwnd].pid == pid
                        && s.prior[hwnd].process_start == process_start
                        && s.prior[hwnd].original_exstyle == saved.exstyle
                        && s.prior[hwnd].original_layered == saved.was_layered
                        && s.prior[hwnd].original_alpha == saved.alpha
                },
                Effect::Close { hwnd } => !wanted.contains(hwnd) && s.frosted.contains_key(hwnd),
                _ => false,
            }
            &&& after.frosted.contains_key(k) <==> s.frosted.contains_key(k) && wanted.contains(k)
            &&& after.frosted.contains_key(k) ==> after.frosted[k] == s.frosted[k]
            &&& after.prior.contains_key(k) <==> s.prior.contains_key(k) && wanted.contains(k)
            &&& after.prior.contains_key(k) ==> after.prior[k] == s.prior[k]
            &&& after.refused.contains_key(k) <==> s.refused.contains_key(k) && wanted.contains(k)
            &&& after.refused.contains_key(k) ==> after.refused[k] == s.refused[k]
            &&& after.early == s.early
            &&& after.store == s.store
            &&& after.persisted == s.persisted
        }),
{
    let s = engine@;
    if (s.frosted.contains_key(k) || s.prior.contains_key(k)) && !wanted.contains(k) {
        windows_without_a_rule_are_put_back(engine, wanted, k);
    }
    let a = table::listing(s.frosted.dom().difference(wanted));
    let c = table::listing(s.prior.dom().difference(wanted));
    table::lemma_listable(engine.frosted, wanted);
    table::lemma_listable(engine.prior, wanted);
    let first = drops(s.frosted, a);
    let third = prior_drops(s.prior, c);
    let all = s.stale_effects(wanted);
    if all.contains(e) {
        let at = choose|at: int| 0 <= at < all.len() && all[at] == e;
        if at < first.len() {
            assert(first[at] == e);
            lemma_drops_only(s.frosted, a, e);
        } else {
            let i = at - first.len();
            assert(third[i] == e);
            assert(c.contains(c[i]));
        }
    }
}

/// Dropping a frosted window puts it back first, with the style it had, and then closes its glass.
/// A window that is not frosted asks for nothing.
pub proof fn dropping_puts_back_and_closes(frosted: Map<isize, Frosted>, k: isize)
    ensures
        frosted.contains_key(k) ==> drop_of(frosted, k).len() == 2 && drop_of(frosted, k)[0]
            == (Effect::PutBack {
            hwnd: k,
            pid: frosted[k].pid,
            process_start: frosted[k].process_start,
            saved: frosted[k].saved,
        }) && drop_of(frosted, k)[1] == (Effect::Close { hwnd: k }),
        !frosted.contains_key(k) ==> drop_of(frosted, k).len() == 0,
{
}

/// A window goes by its process: frost, and the memory of a refusal, count only for the process
/// they were for. A look at a wanted window drops the frost of another process under its handle,
/// and refuses one that runs as administrator unless it is frosted or refused already. Nothing
/// else changes.
pub proof fn a_look_drops_what_is_of_another_process(state: EngineState, window: LiveWindow)
    ensures
        ({
            let k = window.hwnd;
            let own = state.frosted.contains_key(k) && state.frosted[k].pid == window.pid
                && state.frosted[k].process_start == window.process_start;
            let known = state.refused.contains_key(k) && state.refused[k].0 == window.pid
                && state.refused[k].1 == window.process_start;
            let after = state.visited(window);
            &&& state.is_reused(window) <==> state.frosted.contains_key(k) && !own
            &&& state.is_refused(window) <==> known
            &&& state.checked(window).frosted =~= if own {
                state.frosted
            } else {
                state.frosted.remove(k)
            }
            &&& state.checked(window) == (EngineState {
                frosted: state.checked(window).frosted,
                ..state
            })
            &&& after.frosted == state.checked(window).frosted
            &&& after.refused == if !own && !known && window.elevated {
                state.refused.insert(k, (window.pid, window.process_start))
            } else {
                state.refused
            }
            &&& after == (EngineState {
                frosted: after.frosted,
                refused: after.refused,
                ..state
            })
        }),
{
    let k = window.hwnd;
    if !state.frosted.contains_key(k) {
        assert(state.frosted.remove(k) =~= state.frosted);
    }
}

/// A frosted window is remembered with its process, the style it had and the settings it got; one
/// that could not be frosted is remembered as refused for its process. Either way what was known of
/// its style is taken up, and nothing is changed about any other window.
pub proof fn what_was_frosted_is_remembered(
    state: EngineState,
    window: LiveWindow,
    rule: Rule,
    saved: SavedStyle,
    outcome: Attached,
)
    ensures
        ({
            let k = window.hwnd;
            let after = state.attached(window, rule, saved, outcome);
            &&& after.early == state.early.remove(k)
            &&& after.prior == state.prior.remove(k)
            &&& after.store == state.store
            &&& after.persisted == state.persisted
            &&& outcome is Frosted ==> after.refused == state.refused && after.frosted
                == state.frosted.insert(
                k,
                Frosted {
                    pid: window.pid,
                    process_start: window.process_start,
                    process: window.process,
                    saved,
                    transparency: rule.transparency,
                    blur: rule.blur,
                },
            )
            &&& !(outcome is Frosted) ==> after.frosted == state.frosted && after.refused
                == state.refused.insert(k, (window.pid, window.process_start))
        }),
{
}

/// A setting of a frosted window counts as changed when changing it worked, and stays what it was
/// when it failed or was not tried. Nothing else changes.
pub proof fn a_setting_counts_when_it_worked(
    state: EngineState,
    k: isize,
    faded: Option<Result<(), String>>,
    blurred: Option<Result<(), String>>,
    rule: Rule,
)
    requires
        state.frosted.contains_key(k),
    ensures
        ({
            let was = state.frosted[k];
            let after = state.synced(
                k,
                applied(faded, rule.transparency),
                applied(blurred, rule.blur),
            );
            let now = after.frosted[k];
            &&& faded matches Some(Ok(_)) ==> now.transparency == rule.transparency
            &&& !(faded matches Some(Ok(_))) ==> now.transparency == was.transparency
            &&& blurred matches Some(Ok(_)) ==> now.blur == rule.blur
            &&& !(blurred matches Some(Ok(_))) ==> now.blur == was.blur
            &&& now == (Frosted { transparency: now.transparency, blur: now.blur, ..was })
            &&& after == (EngineState { frosted: state.frosted.insert(k, now), ..state })
        }),
{
}

/// Nothing is recorded about a window that is not frosted.
pub proof fn only_frosted_windows_have_settings(
    state: EngineState,
    k: isize,
    transparency: Option<u8>,
    blur: Option<u8>,
)
    requires
        !state.frosted.contains_key(k),
    ensures
        state.synced(k, transparency, blur) == state,
{
}

/// The style a window had is remembered for its own process only, first from the fade at its
/// creation, next from an earlier run.
pub proof fn the_remembered_style_is_that_of_the_process(
    state: EngineState,
    k: isize,
    pid: u32,
    process_start: u64,
)
    ensures
        ({
            let e = state.early[k].window;
            let p = state.prior[k];
            let early = state.early.contains_key(k) && e.pid == pid && e.process_start
                == process_start;
            let prior = state.prior.contains_key(k) && p.pid == pid && p.process_start
                == process_start;
            &&& early ==> state.original(k, pid, process_start) == Some(
                SavedStyle {
                    exstyle: e.original_exstyle,
                    was_layered: e.original_layered,
                    alpha: e.original_alpha,
                },
            )
            &&& !early && prior ==> state.original(k, pid, process_start) == Some(
                SavedStyle {
                    exstyle: p.original_exstyle,
                    was_layered: p.original_layered,
                    alpha: p.original_alpha,
                },
            )
            &&& !early && !prior ==> state.original(k, pid, process_start) is None
        }),
{
}

/// A window faded early is given up after more than three seconds in which it was not wanted, and
/// is put back with the style it had. What is wanted, or has waited less, is kept as it is.
pub proof fn early_fades_are_given_three_seconds(
    engine: Engine,
    wanted: Set<isize>,
    now: u64,
    k: isize,
)
    requires
        engine.ok(),
        engine@.early.contains_key(k),
    ensures
        ({
            let s = engine@;
            let gone = s.expired(wanted, now);
            let late = !wanted.contains(k) && now - s.early[k].since > 3_000_000_000;
            &&& gone.contains(k) <==> late
            &&& late ==> early_drops(s.early, table::listing(gone)).contains(
                Effect::PutBack {
                    hwnd: k,
                    pid: s.early[k].window.pid,
                    process_start: s.early[k].window.process_start,
                    saved: SavedStyle {
                        exstyle: s.early[k].window.original_exstyle,
                        was_layered: s.early[k].window.original_layered,
                        alpha: s.early[k].window.original_alpha,
                    },
                },
            )
            &&& s.without_early(gone).early.contains_key(k) <==> !late
            &&& !late ==> s.without_early(gone).early[k] == s.early[k]
            &&& s.without_early(gone) == (EngineState {
                early: s.without_early(gone).early,
                ..s
            })
        }),
{
    early_fades_do_not_last(engine, wanted, now, k);
}

/// Giving up early fades puts back those that are given up and no other window.
pub proof fn only_late_fades_are_put_back(engine: Engine, wanted: Set<isize>, now: u64, e: Effect)
    requires
        engine.ok(),
        early_drops(engine@.early, table::listing(engine@.expired(wanted, now))).contains(e),
    ensures
        e matches Effect::PutBack { hwnd, pid, process_start, saved } && {
            let early = engine@.early[hwnd];
            &&& engine@.early.contains_key(hwnd)
            &&& !wanted.contains(hwnd)
            &&& now - early.since > 3_000_000_000
            &&& early.window.pid == pid
            &&& early.window.process_start == process_start
            &&& early.window.original_exstyle == saved.exstyle
            &&& early.window.original_layered == saved.was_layered
            &&& early.window.original_alpha == saved.alpha
        },
{
    let s = engine@;
    let gone = s.expired(wanted, now);
    let rest = s.early.dom().difference(gone);
    assert(s.early.dom().difference(rest) =~= gone);
    table::lemma_listable(engine.early, rest);
    let keys = table::listing(gone);
    let all = early_drops(s.early, keys);
    let i = choose|i: int| 0 <= i < all.len() && all[i] == e;
    assert(keys.contains(keys[i]));
}

/// A fade at creation is remembered under the window, and what was known of its style before is
/// taken up, also when the fade did not work. Nothing else changes.
pub proof fn a_fade_at_creation_is_remembered(state: EngineState, k: isize, early: Early)
    ensures
        state.faded_early(k, Some(early)) == (EngineState {
            early: state.early.remove(k).insert(k, early),
            prior: state.prior.remove(k),
            ..state
        }),
        state.faded_early(k, None) == (EngineState {
            early: state.early.remove(k),
            prior: state.prior.remove(k),
            ..state
        }),
{
}

/// A window that comes up is looked at when it is created, shown, uncloaked, named or restored, as
/// long as the rules are not paused, one of them is on, and the window did not refuse. It is faded
/// first unless it was faded already or only got a name.
pub proof fn a_new_window_is_looked_at_when_it_comes_up(state: EngineState, event: u32, k: isize)
    ensures
        ({
            let comes = event == 0x8000 || event == 0x8002 || event == 0x8018 || event == 0x800C
                || event == 0x0017;
            let on = exists|i: int|
                0 <= i < state.store.rules@.len() && (#[trigger] state.store.rules@[i]).enabled;
            let looks = comes && on && !state.store.paused && !state.refused.contains_key(k);
            &&& is_arrival(event) <==> comes
            &&& state.any_enabled() <==> on
            &&& !looks ==> state.arrived(event, k) == Next::Nothing
            &&& looks && state.early.contains_key(k) ==> state.arrived(event, k) == Next::Faded
            &&& looks && !state.early.contains_key(k) && event != 0x800C ==> state.arrived(event, k)
                == Next::Fade
            &&& looks && !state.early.contains_key(k) && event == 0x800C ==> state.arrived(event, k)
                == Next::Match
        }),
{
}

/// A window is faded at its creation exactly when it is not minimized, could become an app's
/// window, and a rule that is on names its process.
pub proof fn ruled_apps_are_faded_at_creation(
    state: EngineState,
    minimized: bool,
    candidate: Option<u32>,
    process: Option<Seq<char>>,
)
    ensures
        state.fades_early(minimized, candidate, process) <==> !minimized && candidate is Some
            && process is Some && exists|i: int|
            0 <= i < state.store.rules@.len() && (#[trigger] state.store.rules@[i]).enabled
                && text::same_name(state.store.rules@[i].process@, process->0),
{
    if process is Some {
        a_process_is_ruled_by_name(state.store.rules@, process->0);
    }
}

/// A process is ruled exactly when a rule that is on has its name.
pub proof fn a_process_is_ruled_by_name(rules: Seq<Rule>, name: Seq<char>)
    ensures
        has_enabled(rules, name) <==> exists|i: int|
            0 <= i < rules.len() && (#[trigger] rules[i]).enabled && text::same_name(
                rules[i].process@,
                name,
            ),
{
    target::lemma_enabled_for(rules, name);
    if exists|i: int|
        0 <= i < rules.len() && (#[trigger] rules[i]).enabled && text::same_name(
            rules[i].process@,
            name,
        ) {
        let i = choose|i: int|
            0 <= i < rules.len() && (#[trigger] rules[i]).enabled && text::same_name(
                rules[i].process@,
                name,
            );
        target::lemma_enabled_for_reaches(rules, name, i);
    }
}

/// What is saved is each window that was touched, once, in the order of the handles, with its
/// process and the style it had.
pub proof fn every_touched_window_is_saved(
    state: EngineState,
    windows: Seq<PersistedWindow>,
    k: isize,
)
    requires
        state.ok(),
        in_handle_order(windows, state.records()),
    ensures
        forall|i: int, j: int|
            0 <= i < j < windows.len() ==> (#[trigger] windows[i]).hwnd < (
            #[trigger] windows[j]).hwnd,
        state.frosted.contains_key(k) ==> exists|i: int|
            0 <= i < windows.len() && (#[trigger] windows[i]) == (PersistedWindow {
                hwnd: k,
                pid: state.frosted[k].pid,
                process_start: state.frosted[k].process_start,
                process: state.frosted[k].process,
                original_exstyle: state.frosted[k].saved.exstyle,
                original_layered: state.frosted[k].saved.was_layered,
                original_alpha: state.frosted[k].saved.alpha,
            }),
        state.early.contains_key(k) ==> exists|i: int|
            0 <= i < windows.len() && (#[trigger] windows[i]) == state.early[k].window,
        state.prior.contains_key(k) ==> exists|i: int|
            0 <= i < windows.len() && (#[trigger] windows[i]) == state.prior[k],
        forall|i: int|
            0 <= i < windows.len() ==> state.frosted.contains_key((#[trigger] windows[i]).hwnd)
                || state.early.contains_key(windows[i].hwnd) || state.prior.contains_key(
                windows[i].hwnd,
            ),
{
    let handles = windows.map_values(|w: PersistedWindow| w.hwnd);
    assert forall|i: int, j: int| 0 <= i < j < windows.len() implies (#[trigger] windows[i]).hwnd < (
    #[trigger] windows[j]).hwnd by {
        assert(handles[i] < handles[j]);
    }
    assert(state.records().dom().contains(k) <==> handles.contains(k));
    if state.touched().contains(k) {
        let i = choose|i: int| 0 <= i < handles.len() && handles[i] == k;
        assert(windows[i] == state.records()[windows[i].hwnd]);
    }
    assert forall|i: int| 0 <= i < windows.len() implies state.frosted.contains_key(
        (#[trigger] windows[i]).hwnd,
    ) || state.early.contains_key(windows[i].hwnd) || state.prior.contains_key(
        windows[i].hwnd,
    ) by {
        assert(handles[i] == windows[i].hwnd);
        assert(handles.contains(handles[i]));
        assert(state.records().dom().contains(windows[i].hwnd));
    }
}

/// Of several saved windows with one handle the last counts.
pub proof fn the_last_saved_window_of_a_handle_counts(windows: Seq<PersistedWindow>, i: int, k: isize)
    ensures
        0 <= i < windows.len() && windows[i].hwnd == k && (forall|j: int|
            i < j < windows.len() ==> (#[trigger] windows[j]).hwnd != k) ==> by_handle(
            windows,
        ).contains_key(k) && by_handle(windows)[k] == windows[i],
        (forall|j: int| 0 <= j < windows.len() ==> (#[trigger] windows[j]).hwnd != k)
            ==> !by_handle(windows).contains_key(k),
    decreases windows.len(),
{
    if windows.len() > 0 {
        let rest = windows.drop_last();
        the_last_saved_window_of_a_handle_counts(rest, i, k);
        assert(windows[windows.len() - 1] == windows.last());
        assert forall|j: int| 0 <= j < rest.len() implies rest[j] == windows[j] by {}
        if forall|j: int| 0 <= j < windows.len() ==> (#[trigger] windows[j]).hwnd != k {
            assert forall|j: int| 0 <= j < rest.len() implies (#[trigger] rest[j]).hwnd != k by {
                assert(windows[j].hwnd != k);
            }
        }
        if 0 <= i < windows.len() - 1 && windows[i].hwnd == k && (forall|j: int|
            i < j < windows.len() ==> (#[trigger] windows[j]).hwnd != k) {
            assert forall|j: int| i < j < rest.len() implies (#[trigger] rest[j]).hwnd != k by {
                assert(windows[j].hwnd != k);
            }
        }
    }
}

/// What was saved counts as unchanged only when it is the same windows with the same process, name
/// and style.
pub proof fn records_differ_in_any_field(a: Seq<PersistedWindow>, b: Seq<PersistedWindow>)
    ensures
        same_records(a, b) <==> a.len() == b.len() && forall|i: int|
            0 <= i < a.len() ==> (#[trigger] a[i]).hwnd == b[i].hwnd && a[i].pid == b[i].pid
                && a[i].process_start == b[i].process_start && a[i].process@ == b[i].process@
                && a[i].original_exstyle == b[i].original_exstyle && a[i].original_layered
                == b[i].original_layered && a[i].original_alpha == b[i].original_alpha,
{
    if same_records(a, b) {
        assert forall|i: int| 0 <= i < a.len() implies (#[trigger] a[i]).hwnd == b[i].hwnd
            && a[i].pid == b[i].pid && a[i].process_start == b[i].process_start && a[i].process@
            == b[i].process@ && a[i].original_exstyle == b[i].original_exstyle
            && a[i].original_layered == b[i].original_layered && a[i].original_alpha
            == b[i].original_alpha by {
            assert(same_record(a[i], b[i]));
            crate::rules::a_record_keeps_its_style(a[i]);
            crate::rules::a_record_keeps_its_style(b[i]);
        }
    }
}

/// A leftover is put back under its own handle, for its own process, with its own style.
pub proof fn leftovers_get_their_own_style(k: isize, saved: PersistedWindow)
    ensures
        put_back(k, saved) == (Effect::PutBack {
            hwnd: k,
            pid: saved.pid,
            process_start: saved.process_start,
            saved: SavedStyle {
                exstyle: saved.original_exstyle,
                was_layered: saved.original_layered,
                alpha: saved.original_alpha,
            },
        }),
{
}

/// When another window comes to the front every glass follows its app, each once and in the order
/// of the handles.
pub proof fn every_glass_follows(keys: Seq<isize>)
    ensures
        follows(keys).len() == keys.len(),
        forall|i: int|
            0 <= i < keys.len() ==> #[trigger] follows(keys)[i] == (Effect::Follow {
                hwnd: keys[i],
            }),
{
}

/// Wanted windows go by their handles, in their order.
pub proof fn wanted_windows_go_by_their_handles(wanted: Seq<(LiveWindow, Rule)>)
    ensures
        handles(wanted).len() == wanted.len(),
        forall|i: int| 0 <= i < wanted.len() ==> #[trigger] handles(wanted)[i] == wanted[i].0.hwnd,
{
}

/// Every failed change is told, with the app it was about, and nothing else is.
pub proof fn failures_are_told(process: Seq<char>, result: Option<Result<(), String>>)
    ensures
        result matches Some(Err(err)) ==> problems(process, result).len() == 1 && problems(
            process,
            result,
        )[0] == process + ": "@ + err@,
        !(result matches Some(Err(_))) ==> problems(process, result).len() == 0,
{
}

/// Nothing else is listened for than windows that come to the front, are minimized or restored,
/// created, destroyed, shown, hidden, moved, named, cloaked or uncloaked.
pub proof fn only_window_events_are_heard(event: u32)
    ensures
        (exists|i: int|
            0 <= i < hook_ranges().len() && (#[trigger] hook_ranges()[i]).0 <= event <= hook_ranges()[i].1)
            <==> event == 0x0003 || event == 0x0016 || event == 0x0017 || 0x8000 <= event <= 0x8003
            || event == 0x800B || event == 0x800C || event == 0x8017 || event == 0x8018,
{
    let all = hook_ranges();
    if event == 0x0003 {
        assert(all[0].0 <= event <= all[0].1);
    } else if event == 0x0016 || event == 0x0017 {
        assert(all[1].0 <= event <= all[1].1);
    } else if 0x8000 <= event <= 0x8003 {
        assert(all[2].0 <= event <= all[2].1);
    } else if event == 0x800B || event == 0x800C {
        assert(all[3].0 <= event <= all[3].1);
    } else if event == 0x8017 || event == 0x8018 {
        assert(all[4].0 <= event <= all[4].1);
    }
}

/// Everything is put back in order: first the frosted windows, each before its glass is closed,
/// next those faded early, last those of an earlier run, and each kind in the order of the handles.
/// A scan puts back what is not wanted in the same order.
pub proof fn windows_are_put_back_in_order(
    state: EngineState,
    wanted: Set<isize>,
    keys: Seq<isize>,
    k: isize,
    i: int,
)
    ensures
        state.restore_effects() == drops(state.frosted, table::listing(state.frosted.dom()))
            + early_drops(state.early, table::listing(state.early.dom())) + prior_drops(
            state.prior,
            table::listing(state.prior.dom()),
        ),
        state.stale_effects(wanted) == drops(
            state.frosted,
            table::listing(state.frosted.dom().difference(wanted)),
        ) + prior_drops(state.prior, table::listing(state.prior.dom().difference(wanted))),
        drops(state.frosted, Seq::empty()).len() == 0,
        drops(state.frosted, keys.push(k)) == drops(state.frosted, keys) + drop_of(
            state.frosted,
            k,
        ),
        early_drops(state.early, keys).len() == keys.len(),
        prior_drops(state.prior, keys).len() == keys.len(),
        0 <= i < keys.len() ==> early_drops(state.early, keys)[i] == put_back(
            keys[i],
            state.early[keys[i]].window,
        ),
        0 <= i < keys.len() ==> prior_drops(state.prior, keys)[i] == put_back(
            state.prior[keys[i]].hwnd,
            state.prior[keys[i]],
        ),
{
    assert(keys.push(k).drop_last() =~= keys);
}

/// Windows in the order of the handles are those of the records, each once and as it is recorded.
pub proof fn records_are_listed_by_handle(
    windows: Seq<PersistedWindow>,
    records: Map<isize, PersistedWindow>,
    k: isize,
)
    requires
        in_handle_order(windows, records),
    ensures
        forall|i: int, j: int|
            0 <= i < j < windows.len() ==> (#[trigger] windows[i]).hwnd < (
            #[trigger] windows[j]).hwnd,
        records.contains_key(k) <==> exists|i: int|
            0 <= i < windows.len() && (#[trigger] windows[i]).hwnd == k,
        forall|i: int|
            0 <= i < windows.len() ==> (#[trigger] windows[i]) == records[windows[i].hwnd],
{
    let handles = windows.map_values(|w: PersistedWindow| w.hwnd);
    assert forall|i: int, j: int| 0 <= i < j < windows.len() implies (#[trigger] windows[i]).hwnd < (
    #[trigger] windows[j]).hwnd by {
        assert(handles[i] < handles[j]);
    }
    assert(records.dom().contains(k) <==> handles.contains(k));
    if records.contains_key(k) {
        let i = choose|i: int| 0 <= i < handles.len() && handles[i] == k;
        assert(windows[i].hwnd == k);
    }
    if exists|i: int| 0 <= i < windows.len() && (#[trigger] windows[i]).hwnd == k {
        let i = choose|i: int| 0 <= i < windows.len() && (#[trigger] windows[i]).hwnd == k;
        assert(handles[i] == k);
    }
}

/// The engine is seen with all that it remembers.
pub proof fn the_engine_is_seen_as_it_is(engine: Engine, queue: EventQueue)
    ensures
        engine@.store == engine.store,
        engine@.frosted == engine.frosted@,
        engine@.early == engine.early@,
        engine@.prior == engine.prior@,
        engine@.refused == engine.refused@,
        engine@.persisted == engine.persisted@,
        queue@ == queue.events@,
{
}

/// Forgetting a frosted window forgets nothing else.
pub proof fn forgetting_one_window_keeps_the_others(state: EngineState, k: isize, other: isize)
    ensures
        !state.without_frosted(k).frosted.contains_key(k),
        other != k ==> state.without_frosted(k).frosted.contains_key(other)
            == state.frosted.contains_key(other),
        other != k && state.frosted.contains_key(other) ==> state.without_frosted(k).frosted[other]
            == state.frosted[other],
        state.without_frosted(k) == (EngineState {
            frosted: state.without_frosted(k).frosted,
            ..state
        }),
{
}

} // verus!
