use blurman::mapping::SavedStyle;
use blurman::rules::{PersistedWindow, Rule, Store};
use blurman::target::{Bounds, LiveWindow};
use blurman::worker::{
    host_action, install_hooks, nudges_early, nudges_frosting, on_win_event, restore_leftovers, Attached, Effect,
    Engine, EventQueue, HostAction, Next, Work, EARLY_WAIT, EVENT_OBJECT_CLOAKED,
    EVENT_OBJECT_CREATE, EVENT_OBJECT_DESTROY, EVENT_OBJECT_LOCATIONCHANGE,
    EVENT_OBJECT_NAMECHANGE, EVENT_OBJECT_SHOW, EVENT_SYSTEM_FOREGROUND, WM_TIMER,
};

const PLAIN: SavedStyle = SavedStyle { exstyle: 0x100, was_layered: false, alpha: 255 };
const LAYERED: SavedStyle = SavedStyle { exstyle: 0x8_0000, was_layered: true, alpha: 99 };

fn window(hwnd: isize, pid: u32, process: &str) -> LiveWindow {
    LiveWindow {
        hwnd,
        pid,
        process_start: 1000 + pid as u64,
        process: process.to_string(),
        title: "title".to_string(),
        elevated: false,
        cloaked: false,
        bounds: Bounds { left: 0, top: 0, right: 800, bottom: 600 },
    }
}

fn rule(process: &str, transparency: u8, blur: u8) -> Rule {
    Rule {
        process: process.to_string(),
        transparency,
        blur,
        enabled: true,
        solid_text: false,
    }
}

fn saved(hwnd: isize, pid: u32, process: &str, style: &SavedStyle) -> PersistedWindow {
    PersistedWindow::new(hwnd, pid, 1000 + pid as u64, process.to_string(), style)
}

fn put_back(hwnd: isize, pid: u32, saved: SavedStyle) -> Effect {
    Effect::PutBack { hwnd, pid, process_start: 1000 + pid as u64, saved }
}

/// An engine with a rule for a.exe and one frosted window of it.
fn frosted() -> Engine {
    let mut engine = Engine::new(&Vec::new());
    engine.reload(Store { paused: false, rules: vec![rule("a.exe", 30, 40)] });
    let (effects, status) =
        engine.attach(window(1, 10, "a.exe"), &rule("a.exe", 30, 40), PLAIN, Attached::Frosted);
    assert_eq!(effects, vec![Effect::Follow { hwnd: 1 }]);
    assert!(status.is_none());
    engine
}

#[test]
fn an_earlier_run_is_remembered() {
    let state = vec![
        saved(7, 1, "x.exe", &PLAIN),
        saved(3, 2, "y.exe", &LAYERED),
        saved(7, 5, "z.exe", &LAYERED),
    ];
    let engine = Engine::new(&state);
    assert_eq!(
        engine.persisted,
        vec![saved(3, 2, "y.exe", &LAYERED), saved(7, 5, "z.exe", &LAYERED)]
    );
    assert!(engine.persist().is_none(), "nothing changed yet");
    assert_eq!(engine.original_style(3, 2, 1002), Some(LAYERED));
    assert_eq!(engine.original_style(3, 2, 1003), None, "another process instance");
    assert_eq!(engine.original_style(4, 2, 1002), None);
}

#[test]
fn leftovers_are_put_back() {
    let state = vec![saved(7, 1, "x.exe", &PLAIN), saved(3, 2, "y.exe", &LAYERED)];
    assert_eq!(
        restore_leftovers(&state),
        vec![put_back(7, 1, PLAIN), put_back(3, 2, LAYERED)]
    );
}

#[test]
fn a_scan_finds_what_to_frost() {
    let mut engine = frosted();
    let windows = vec![window(1, 10, "A.exe"), window(2, 11, "b.exe"), window(3, 12, "a.EXE")];
    let scan = engine.reconcile(&windows);
    assert!(!scan.paused);
    assert!(scan.effects.is_empty());
    let ids: Vec<isize> = scan.wanted.iter().map(|(w, _)| w.hwnd).collect();
    assert_eq!(ids, vec![1, 3]);
    let (effects, work) = engine.visit(&scan.wanted[0].0, &scan.wanted[0].1);
    assert!(effects.is_empty());
    assert!(matches!(work, Work::Sync { transparency: None, blur: None }));
    let (_, work) = engine.visit(&scan.wanted[1].0, &scan.wanted[1].1);
    assert!(matches!(work, Work::Attach { saved: None }));
}

#[test]
fn windows_without_a_rule_are_put_back() {
    let mut engine = frosted();
    let scan = engine.reconcile(&vec![window(2, 11, "b.exe")]);
    assert_eq!(scan.effects, vec![put_back(1, 10, PLAIN), Effect::Close { hwnd: 1 }]);
    assert!(scan.wanted.is_empty());
    assert!(!engine.frosted.contains_key(1));

    let mut engine = Engine::new(&vec![saved(5, 9, "gone.exe", &LAYERED)]);
    let scan = engine.reconcile(&Vec::new());
    assert_eq!(scan.effects, vec![put_back(5, 9, LAYERED)]);
}

#[test]
fn a_second_scan_has_nothing_to_do() {
    let mut engine = frosted();
    let windows = vec![window(2, 11, "b.exe")];
    assert!(!engine.reconcile(&windows).effects.is_empty());
    assert!(engine.reconcile(&windows).effects.is_empty());
    assert!(engine.needs_windows());
    engine.reload(Store { paused: true, rules: vec![rule("a.exe", 30, 40)] });
    assert!(!engine.needs_windows());
    engine.reload(Store::default());
    assert!(!engine.needs_windows());
}

#[test]
fn pausing_puts_everything_back_and_keeps_the_rules() {
    let mut engine = Engine::new(&vec![saved(5, 9, "p.exe", &LAYERED)]);
    let rules = vec![rule("a.exe", 30, 40)];
    engine.reload(Store { paused: false, rules: rules.clone() });
    engine.attach(window(1, 10, "a.exe"), &rules[0], PLAIN, Attached::Frosted);
    let plan = engine.fade_early(4, false, Some(10), Some("A.EXE".to_string()), 1010).unwrap();
    assert_eq!(engine.faded(plan, &PLAIN, true, 0), Next::Faded);
    engine.reload(Store { paused: true, rules: rules.clone() });
    let scan = engine.reconcile(&vec![window(1, 10, "a.exe")]);
    assert!(scan.paused);
    assert_eq!(
        scan.effects,
        vec![
            put_back(1, 10, PLAIN),
            Effect::Close { hwnd: 1 },
            put_back(4, 10, PLAIN),
            put_back(5, 9, LAYERED),
        ]
    );
    assert_eq!(engine.store.rules, rules);
    assert!(engine.restore_all().is_empty());
}

#[test]
fn a_reused_handle_is_dropped_first() {
    let mut engine = frosted();
    let (effects, work) = engine.visit(&window(1, 20, "a.exe"), &rule("a.exe", 30, 40));
    assert_eq!(effects, vec![put_back(1, 10, PLAIN), Effect::Close { hwnd: 1 }]);
    assert!(matches!(work, Work::Attach { saved: None }));
}

#[test]
fn sliders_apply_to_frosted_windows() {
    let mut engine = frosted();
    let moved = rule("a.exe", 50, 60);
    let (_, work) = engine.visit(&window(1, 10, "a.exe"), &moved);
    assert!(matches!(work, Work::Sync { transparency: Some(50), blur: Some(60) }));
    let (effects, status) = engine.sync_frosted(
        &window(1, 10, "a.exe"),
        &moved,
        Some(Ok(())),
        Some(Err("no".to_string())),
    );
    assert_eq!(effects, vec![Effect::Follow { hwnd: 1 }]);
    assert_eq!(status, vec!["a.exe: no".to_string()]);
    let (effects, status) = engine.sync_frosted(&window(1, 10, "a.exe"), &moved, None, None);
    assert_eq!(effects, vec![Effect::Follow { hwnd: 1 }], "the glass follows in any case");
    assert!(status.is_empty());
    let (_, work) = engine.visit(&window(1, 10, "a.exe"), &moved);
    assert!(matches!(work, Work::Sync { transparency: None, blur: Some(60) }));
}

#[test]
fn refused_windows_wait_for_new_rules() {
    let mut engine = Engine::new(&Vec::new());
    let rules = vec![rule("a.exe", 30, 40)];
    engine.reload(Store { paused: false, rules: rules.clone() });
    let mut admin = window(1, 10, "a.exe");
    admin.elevated = true;
    match engine.visit(&admin, &rules[0]).1 {
        Work::Refuse(text) => assert_eq!(
            text,
            "a.exe runs as administrator. Run Blurman as administrator to frost it."
        ),
        _ => panic!("an elevated window is refused"),
    }
    assert!(matches!(engine.visit(&admin, &rules[0]).1, Work::Skip));
    assert_eq!(engine.on_event(EVENT_OBJECT_SHOW, 1).1, Next::Nothing);
    engine.reload(Store { paused: false, rules: rules.clone() });
    assert!(matches!(engine.visit(&admin, &rules[0]).1, Work::Refuse(_)));
}

#[test]
fn failures_are_undone_and_reported() {
    let mut engine = Engine::new(&Vec::new());
    let rules = vec![rule("a.exe", 30, 40)];
    engine.reload(Store { paused: false, rules: rules.clone() });
    let (effects, status) = engine.attach(
        window(1, 10, "a.exe"),
        &rules[0],
        PLAIN,
        Attached::NoGlass("No glass.".to_string()),
    );
    assert_eq!(effects, vec![Effect::Restore { hwnd: 1, saved: PLAIN }]);
    assert_eq!(status, Some("No glass.".to_string()));
    let (effects, status) = engine.attach(
        window(2, 10, "a.exe"),
        &rules[0],
        LAYERED,
        Attached::NotFaded("The window is gone.".to_string()),
    );
    assert_eq!(
        effects,
        vec![Effect::Close { hwnd: 2 }, Effect::Restore { hwnd: 2, saved: LAYERED }]
    );
    assert_eq!(status, Some("a.exe: The window is gone.".to_string()));
    assert!(matches!(engine.visit(&window(2, 10, "a.exe"), &rules[0]).1, Work::Skip));
    assert!(engine.persist().is_none());
}

#[test]
fn a_scan_serves_every_wanted_window() {
    let mut engine = Engine::new(&vec![
        saved(5, 14, "a.exe", &LAYERED),
        saved(9, 19, "gone.exe", &LAYERED),
    ]);
    engine.reload(Store { paused: false, rules: vec![rule("a.exe", 30, 40)] });
    let known = rule("a.exe", 30, 40);
    engine.attach(window(1, 10, "a.exe"), &known, PLAIN, Attached::Frosted);
    engine.attach(window(2, 11, "a.exe"), &known, PLAIN, Attached::Frosted);
    engine.attach(window(8, 18, "a.exe"), &known, PLAIN, Attached::NoGlass("no".to_string()));

    // Still frosted, a reused handle, one that cannot be faded, an elevated one, one that an
    // earlier run left faded. The windows 8 and 9 are gone.
    let mut admin = window(4, 13, "a.exe");
    admin.elevated = true;
    let windows = vec![
        window(1, 10, "a.exe"),
        window(2, 21, "a.exe"),
        window(3, 12, "a.exe"),
        admin,
        window(5, 14, "a.exe"),
    ];
    let scan = engine.reconcile(&windows);
    assert_eq!(scan.effects, vec![put_back(9, 19, LAYERED)]);
    for (window, rule) in &scan.wanted {
        match engine.visit(window, rule).1 {
            Work::Sync { .. } => {
                engine.sync_frosted(window, rule, None, None);
            }
            Work::Attach { saved } => {
                assert_eq!(saved, if window.hwnd == 5 { Some(LAYERED) } else { None });
                let outcome = if window.hwnd == 3 {
                    Attached::NotFaded("no".to_string())
                } else {
                    Attached::Frosted
                };
                engine.attach(window.clone(), rule, saved.unwrap_or(PLAIN), outcome);
            }
            Work::Skip | Work::Refuse(_) => {}
        }
    }

    assert_eq!(engine.frosted.keys(), vec![1, 2, 5]);
    for (hwnd, pid) in [(1, 10), (2, 21), (5, 14)] {
        let frosted = engine.frosted.get(hwnd).unwrap();
        assert_eq!((frosted.pid, frosted.process_start), (pid, 1000 + pid as u64));
    }
    assert_eq!(engine.refused.keys(), vec![3, 4]);
    assert_eq!(engine.refused.get(3), Some(&(12, 1012)));
    assert_eq!(engine.refused.get(4), Some(&(13, 1013)));
    assert!(engine.prior.keys().is_empty());
}

#[test]
fn the_original_style_survives_an_early_fade() {
    let mut engine = Engine::new(&Vec::new());
    let rules = vec![rule("a.exe", 30, 40)];
    engine.reload(Store { paused: false, rules: rules.clone() });
    assert_eq!(engine.on_event(EVENT_OBJECT_CREATE, 1).1, Next::Fade);
    let plan = engine.fade_early(1, false, Some(10), Some("a.exe".to_string()), 1010).unwrap();
    assert_eq!(plan.transparency, 30);
    assert!(plan.saved.is_none());
    assert_eq!(engine.faded(plan, &LAYERED, true, 5), Next::Faded);
    let unsaved = engine.persist().unwrap();
    assert_eq!(unsaved, vec![saved(1, 10, "a.exe", &LAYERED)]);
    engine.saved(unsaved);
    assert!(engine.persist().is_none());
    assert_eq!(engine.on_event(EVENT_OBJECT_NAMECHANGE, 1).1, Next::Faded);
    let style = match engine.visit(&window(1, 10, "a.exe"), &rules[0]).1 {
        Work::Attach { saved: Some(style) } => style,
        _ => panic!("the window is to be frosted from the style it had"),
    };
    assert_eq!(style, LAYERED);
    engine.attach(window(1, 10, "a.exe"), &rules[0], style, Attached::Frosted);
    assert!(engine.persist().is_none(), "the record is the same");
    assert_eq!(engine.drop_frosted(1), vec![put_back(1, 10, LAYERED), Effect::Close { hwnd: 1 }]);
    assert!(engine.drop_frosted(1).is_empty());
    assert_eq!(engine.persist(), Some(Vec::new()));
}

#[test]
fn only_windows_of_ruled_apps_are_faded_early() {
    let mut engine = Engine::new(&vec![saved(1, 10, "a.exe", &LAYERED)]);
    engine.reload(Store { paused: false, rules: vec![rule("a.exe", 30, 40)] });
    let name = || Some("a.exe".to_string());
    assert!(engine.fade_early(1, true, Some(10), name(), 1010).is_none());
    assert!(engine.fade_early(1, false, None, name(), 1010).is_none());
    assert!(engine.fade_early(1, false, Some(10), None, 1010).is_none());
    assert!(engine.fade_early(1, false, Some(10), Some("b.exe".to_string()), 1010).is_none());
    let plan = engine.fade_early(1, false, Some(10), name(), 1010).unwrap();
    assert_eq!(plan.saved, Some(LAYERED), "from the earlier run");
    assert_eq!(engine.faded(plan, &LAYERED, false, 0), Next::Match);
    assert!(engine.original_style(1, 10, 1010).is_none());
    assert!(engine.is_ready_process(Some("A.EXE")));
    assert!(!engine.is_ready_process(Some("b.exe")));
    assert!(!engine.is_ready_process(None));
    assert!(nudges_early(&PLAIN, false));
    assert!(!nudges_early(&PLAIN, true));
    assert!(!nudges_early(&LAYERED, false));
    assert!(nudges_frosting(&PLAIN));
    assert!(!nudges_frosting(&LAYERED));
}

#[test]
fn early_fades_expire() {
    let mut engine = Engine::new(&Vec::new());
    engine.reload(Store { paused: false, rules: vec![rule("a.exe", 30, 40)] });
    for (hwnd, since) in [(1, 0), (2, 10), (3, 0)] {
        let plan = engine.fade_early(hwnd, false, Some(10), Some("a.exe".to_string()), 1010).unwrap();
        engine.faded(plan, &PLAIN, true, since);
    }
    let wanted = vec![(window(3, 10, "a.exe"), rule("a.exe", 30, 40))];
    assert!(engine.expire_early(&wanted, EARLY_WAIT).is_empty());
    assert_eq!(engine.expire_early(&wanted, EARLY_WAIT + 1), vec![put_back(1, 10, PLAIN)]);
    assert!(engine.early.contains_key(2) && engine.early.contains_key(3));
}

#[test]
fn events_are_answered() {
    let mut engine = frosted();
    engine.attach(window(-5, 10, "a.exe"), &rule("a.exe", 30, 40), PLAIN, Attached::Frosted);
    let (effects, next) = engine.on_event(EVENT_SYSTEM_FOREGROUND, 0);
    assert_eq!(effects, vec![Effect::Follow { hwnd: -5 }, Effect::Follow { hwnd: 1 }]);
    assert_eq!(next, Next::Nothing);
    let (effects, _) = engine.on_event(EVENT_OBJECT_LOCATIONCHANGE, 1);
    assert_eq!(effects, vec![Effect::Follow { hwnd: 1 }]);
    let (effects, _) = engine.on_event(EVENT_OBJECT_SHOW, 1);
    assert_eq!(effects, vec![Effect::Follow { hwnd: 1 }], "it is frosted already");
    let (effects, next) = engine.on_event(EVENT_OBJECT_LOCATIONCHANGE, 2);
    assert!(effects.is_empty());
    assert_eq!(next, Next::Nothing);
    assert_eq!(engine.on_event(EVENT_OBJECT_SHOW, 2).1, Next::Fade);
    assert_eq!(engine.on_event(EVENT_OBJECT_NAMECHANGE, 2).1, Next::Match);
    assert_eq!(engine.on_event(EVENT_OBJECT_CLOAKED, 2).1, Next::Nothing);
    let (effects, next) = engine.on_event(EVENT_OBJECT_DESTROY, 1);
    assert_eq!(effects, vec![put_back(1, 10, PLAIN), Effect::Close { hwnd: 1 }]);
    assert_eq!(next, Next::Persist);
    assert_eq!(engine.on_event(EVENT_OBJECT_DESTROY, 1).1, Next::Nothing);
    let mut off = rule("a.exe", 30, 40);
    off.enabled = false;
    engine.reload(Store { paused: false, rules: vec![off] });
    assert_eq!(engine.on_event(EVENT_OBJECT_SHOW, 2).1, Next::Nothing);
}

#[test]
fn a_faded_window_that_closes_is_forgotten() {
    let mut engine = Engine::new(&Vec::new());
    engine.reload(Store { paused: false, rules: vec![rule("a.exe", 30, 40)] });
    let plan = engine.fade_early(1, false, Some(10), Some("a.exe".to_string()), 1010).unwrap();
    engine.faded(plan, &PLAIN, true, 0);
    let (effects, next) = engine.on_event(EVENT_OBJECT_DESTROY, 1);
    assert!(effects.is_empty());
    assert_eq!(next, Next::Persist);
    assert!(engine.persist().is_none());
}

#[test]
fn what_is_saved_can_undo_a_crash() {
    let mut engine = Engine::new(&vec![saved(9, 3, "old.exe", &LAYERED)]);
    engine.reload(Store { paused: false, rules: vec![rule("a.exe", 30, 40)] });
    engine.attach(window(20, 10, "a.exe"), &rule("a.exe", 30, 40), PLAIN, Attached::Frosted);
    let plan = engine.fade_early(4, false, Some(10), Some("a.exe".to_string()), 1010).unwrap();
    engine.faded(plan, &LAYERED, true, 0);
    let state = engine.persist().unwrap();
    let handles: Vec<isize> = state.iter().map(|w| w.hwnd).collect();
    assert_eq!(handles, vec![4, 9, 20]);
    let next = Engine::new(&state);
    assert_eq!(next.original_style(20, 10, 1010), Some(PLAIN));
    assert_eq!(next.original_style(4, 10, 1010), Some(LAYERED));
    assert_eq!(next.original_style(9, 3, 1003), Some(LAYERED));
}

#[test]
fn waiting_events_come_out_in_order_and_once() {
    let mut queue = EventQueue::new();
    queue.queue_event(1, 10);
    queue.queue_event(2, 10);
    queue.queue_event(1, 10);
    queue.queue_event(1, 11);
    assert_eq!(queue.pop(), Some((1, 10)));
    queue.queue_event(1, 10);
    assert_eq!(queue.pop(), Some((2, 10)));
    assert_eq!(queue.pop(), Some((1, 11)));
    assert_eq!(queue.pop(), Some((1, 10)));
    assert_eq!(queue.pop(), None);
    queue.queue_event(1, 10);
    queue.clear();
    assert_eq!(queue.pop(), None);
}

#[test]
fn every_event_is_listened_for() {
    let ranges = install_hooks();
    assert_eq!(
        ranges,
        vec![
            (0x0003, 0x0003),
            (0x0016, 0x0017),
            (0x8000, 0x8003),
            (0x800B, 0x800C),
            (0x8017, 0x8018),
        ]
    );
    assert!(on_win_event(5, 0, 0));
    assert!(!on_win_event(0, 0, 0));
    assert!(!on_win_event(5, -4, 0));
    assert!(!on_win_event(5, 0, 1));
}

#[test]
fn messages_to_the_host_are_told_apart() {
    assert_eq!(host_action(true, WM_TIMER, 1, 2, 3), HostAction::Scan);
    assert_eq!(host_action(true, 1, 1, 2, 3), HostAction::Reload);
    assert_eq!(host_action(true, 2, 1, 2, 3), HostAction::Show);
    assert_eq!(host_action(true, 3, 1, 2, 3), HostAction::Quit);
    assert_eq!(host_action(true, 4, 1, 2, 3), HostAction::Pass);
    assert_eq!(host_action(false, WM_TIMER, 1, 2, 3), HostAction::Pass);
}
