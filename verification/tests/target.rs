use blurman::fade::{
    apply_alpha, capture_style, check_fade, nudge_resize, nudges, pane_size, restore_alpha,
    FadePlan, RestorePlan,
};
use blurman::mapping::SavedStyle;
use blurman::rules::Rule;
use blurman::target::{
    early_candidate, enabled_rule, enumerate_windows, frame_bounds, frostable_process, inspect_window, is_cloaked,
    is_elevated, is_frostable, is_out_of_view, is_topmost, list_groups,
    other_windows, process_name, process_start, window_alive, windows_for_rules, Bounds,
    EarlyFacts, LiveWindow, ProcessInfo, WindowFacts, WS_CAPTION, WS_CHILD, WS_EX_TOOLWINDOW,
    WS_THICKFRAME,
};

fn bounds(left: i32, top: i32, right: i32, bottom: i32) -> Bounds {
    Bounds { left, top, right, bottom }
}

fn window(hwnd: isize, process: &str, title: &str) -> LiveWindow {
    LiveWindow {
        hwnd,
        pid: 10,
        process_start: 100,
        process: process.to_string(),
        title: title.to_string(),
        elevated: false,
        cloaked: false,
        bounds: bounds(0, 0, 800, 600),
    }
}

fn rule(process: &str, transparency: u8, enabled: bool) -> Rule {
    Rule {
        process: process.to_string(),
        transparency,
        blur: 40,
        enabled,
        solid_text: false,
    }
}

#[test]
fn apps_are_grouped_and_sorted() {
    let mut admin = window(3, "alpha.EXE", "third");
    admin.elevated = true;
    let mut hidden = window(4, "gamma.exe", "fourth");
    hidden.cloaked = true;
    let windows = vec![
        window(1, "Beta.exe", "first"),
        window(2, "Alpha.exe", "second"),
        admin,
        hidden,
        window(5, "beta.exe", ""),
    ];
    let groups = list_groups(&windows);
    let shown: Vec<(String, String, usize, bool)> = groups
        .iter()
        .map(|g| (g.process.clone(), g.sample_title.clone(), g.windows, g.elevated))
        .collect();
    assert_eq!(
        shown,
        vec![
            ("Alpha.exe".to_string(), "second".to_string(), 2, true),
            ("Beta.exe".to_string(), "first".to_string(), 2, false),
        ]
    );
    assert_eq!(groups.iter().map(|g| g.windows).sum::<usize>(), 4);
    assert!(list_groups(&Vec::new()).is_empty());
}

#[test]
fn only_enabled_rules_pick_windows() {
    let rules = vec![rule("a.exe", 20, false), rule("A.EXE", 30, true), rule("b.exe", 40, true)];
    let windows = vec![window(1, "b.exe", "x"), window(2, "c.exe", "y"), window(3, "a.exe", "z")];
    let wanted = windows_for_rules(&windows, &rules);
    let picked: Vec<(isize, u8)> = wanted.iter().map(|(w, r)| (w.hwnd, r.transparency)).collect();
    assert_eq!(picked, vec![(1, 40), (3, 30)]);
    assert_eq!(enabled_rule(&rules, "a.exe").unwrap().transparency, 30);
    assert!(enabled_rule(&rules, "c.exe").is_none());
    assert!(windows_for_rules(&windows, &Vec::new()).is_empty());
}

fn facts() -> WindowFacts {
    WindowFacts {
        hwnd: 9,
        visible: true,
        is_root: true,
        exstyle: 0,
        class: "Chrome_WidgetWin_1".to_string(),
        title: "A page".to_string(),
        bounds: bounds(10, 10, 170, 100),
        minimized: false,
        pid: 77,
        cloaked: true,
    }
}

#[test]
fn app_windows_are_recognized() {
    let found = inspect_window(facts()).unwrap();
    assert_eq!((found.hwnd, found.pid, found.process_start), (9, 77, 0));
    assert_eq!(found.title, "A page");
    assert_eq!(found.process, "");
    assert!(found.cloaked && !found.elevated);
    assert_eq!(found.bounds, bounds(10, 10, 170, 100));
    assert!(is_frostable(facts()));
    assert_eq!(frostable_process(facts(), Some("a.exe".to_string())), Some("a.exe".to_string()));
    assert_eq!(frostable_process(facts(), None), None);

    let refused = [
        WindowFacts { visible: false, ..facts() },
        WindowFacts { is_root: false, ..facts() },
        WindowFacts { exstyle: WS_EX_TOOLWINDOW | 1, ..facts() },
        WindowFacts { class: "Progman".to_string(), ..facts() },
        WindowFacts { class: "Shell_TrayWnd".to_string(), ..facts() },
        WindowFacts { class: "Shell_SecondaryTrayWnd".to_string(), ..facts() },
        WindowFacts { class: "WorkerW".to_string(), ..facts() },
        WindowFacts { title: " \t ".to_string(), ..facts() },
        WindowFacts { bounds: bounds(10, 10, 169, 100), ..facts() },
        WindowFacts { bounds: bounds(10, 10, 170, 99), ..facts() },
        WindowFacts { pid: 0, ..facts() },
    ];
    for facts in refused {
        assert!(inspect_window(facts).is_none());
    }
    let minimized = WindowFacts { bounds: bounds(0, 0, 0, 0), minimized: true, ..facts() };
    assert!(is_frostable(minimized));
    let hidden = WindowFacts { visible: false, ..facts() };
    assert_eq!(frostable_process(hidden, Some("a.exe".to_string())), None);
}

#[test]
fn new_windows_are_judged_early() {
    let facts = EarlyFacts {
        is_root: true,
        style: WS_CAPTION,
        exstyle: 0,
        rect: Some(bounds(0, 0, 160, 90)),
        pid: 5,
    };
    assert_eq!(early_candidate(facts), Some(5));
    assert_eq!(early_candidate(EarlyFacts { style: WS_THICKFRAME, ..facts }), Some(5));
    // Half of a caption is none.
    assert_eq!(early_candidate(EarlyFacts { style: 0x0080_0000, ..facts }), None);
    assert_eq!(early_candidate(EarlyFacts { style: WS_CAPTION | WS_CHILD, ..facts }), None);
    assert_eq!(early_candidate(EarlyFacts { exstyle: WS_EX_TOOLWINDOW, ..facts }), None);
    assert_eq!(early_candidate(EarlyFacts { is_root: false, ..facts }), None);
    assert_eq!(early_candidate(EarlyFacts { rect: None, ..facts }), None);
    assert_eq!(early_candidate(EarlyFacts { rect: Some(bounds(0, 0, 159, 90)), ..facts }), None);
    assert_eq!(early_candidate(EarlyFacts { pid: 0, ..facts }), None);
}

#[test]
fn frames_are_taken_where_they_are_drawn() {
    let frame = bounds(1, 2, 3, 4);
    let own = bounds(0, 0, 9, 9);
    assert_eq!(frame_bounds(frame, true, Some(own)), frame);
    assert_eq!(frame_bounds(frame, false, Some(own)), own);
    assert_eq!(frame_bounds(bounds(5, 5, 5, 9), true, Some(own)), own);
    assert_eq!(frame_bounds(bounds(5, 5, 5, 9), true, None), bounds(5, 5, 5, 9));
}

#[test]
fn windows_out_of_view_have_no_glass() {
    assert!(is_cloaked(Some(2)));
    assert!(!is_cloaked(Some(0)));
    assert!(!is_cloaked(None));
    assert!(is_out_of_view(true, true, false));
    assert!(is_out_of_view(false, false, false));
    assert!(is_out_of_view(false, true, true));
    assert!(!is_out_of_view(false, true, false));
    assert!(is_topmost(0x0000_0108));
    assert!(!is_topmost(0x0000_0100));
}

#[test]
fn handles_are_checked_against_their_process() {
    assert!(window_alive(true, 5, 100, 5, 100));
    assert!(window_alive(true, 5, 100, 5, 0), "an unknown start matches");
    assert!(!window_alive(true, 5, 101, 5, 100));
    assert!(!window_alive(true, 6, 100, 5, 100));
    assert!(!window_alive(false, 5, 100, 5, 100));
    assert_eq!(process_start(1, 2), 0x1_0000_0002);
    assert_eq!(process_start(u32::MAX, u32::MAX), u64::MAX);
}

#[test]
fn elevation_is_read_from_tokens() {
    assert!(!is_elevated(Some(true), true, Some(true)), "we are elevated ourselves");
    assert!(is_elevated(Some(false), true, Some(true)));
    assert!(is_elevated(None, true, None), "a token that cannot be opened");
    assert!(!is_elevated(None, true, Some(false)));
    assert!(!is_elevated(Some(false), false, None));
}

#[test]
fn names_come_from_paths() {
    assert_eq!(process_name("C:\\Windows\\notepad.exe"), "notepad.exe");
    assert_eq!(process_name("notepad.exe"), "notepad.exe");
    assert_eq!(process_name("C:/Windows/x.exe"), "C:/Windows/x.exe");
    assert_eq!(process_name("C:\\"), "");
}

#[test]
fn windows_are_labelled_with_their_process() {
    let mut own = window(1, "", "mine");
    own.pid = 4;
    let left = other_windows(&vec![own, window(2, "", "theirs")], 4);
    assert_eq!(left.len(), 1);
    assert_eq!(left[0].hwnd, 2);
    let info = vec![
        ProcessInfo { pid: 9, start: 1, elevated: false },
        ProcessInfo { pid: 10, start: 55, elevated: true },
    ];
    let names = vec![(10, "old.exe".to_string()), (10, "new.exe".to_string())];
    let mut own = window(1, "", "mine");
    own.pid = 4;
    let found = vec![window(2, "", "t"), own];
    let labelled = enumerate_windows(&found, 4, &info, &names);
    assert_eq!(labelled.len(), 1);
    assert_eq!(labelled[0].process, "new.exe");
    assert_eq!(labelled[0].process_start, 55);
    assert!(labelled[0].elevated);
    assert_eq!(labelled[0].title, "t");
    let unnamed = enumerate_windows(&found, 4, &Vec::new(), &Vec::new());
    assert_eq!(unnamed[0].process, "pid-10");
    assert_eq!(unnamed[0].process_start, 0);
    assert!(!unnamed[0].elevated);
}

#[test]
fn sizes_are_never_empty() {
    assert_eq!(pane_size(&bounds(10, 20, 110, 70)), (100, 50));
    assert_eq!(pane_size(&bounds(10, 20, 10, 0)), (1, 1));
    assert_eq!(pane_size(&bounds(i32::MIN, 0, i32::MAX, 1)), (i32::MAX, 1));
    assert_eq!(nudge_resize(Some(bounds(10, 20, 110, 70))), Some(((101, 50), (100, 50))));
    assert_eq!(nudge_resize(None), None);
}

#[test]
fn styles_are_captured() {
    let plain = SavedStyle { exstyle: 0x100, was_layered: false, alpha: 255 };
    assert_eq!(capture_style(0x100, Some((9, 2))), plain);
    let layered = SavedStyle { exstyle: 0x8_0100, was_layered: true, alpha: 9 };
    assert_eq!(capture_style(0x8_0100, Some((9, 2))), layered);
    assert_eq!(capture_style(0x8_0100, Some((9, 1))).alpha, 255, "the alpha is not in use");
    assert_eq!(capture_style(0x8_0100, None).alpha, 255);
}

#[test]
fn fading_is_refused_in_words() {
    assert_eq!(apply_alpha(false, false, 0, 30), Err("The window is gone.".to_string()));
    assert_eq!(apply_alpha(true, true, 0, 30), Err("The app is not responding.".to_string()));
    assert_eq!(
        apply_alpha(true, false, 0x100, 30),
        Ok(FadePlan { style: Some(0x8_0100), alpha: 179 })
    );
    assert_eq!(apply_alpha(true, false, 0x8_0000, 30), Ok(FadePlan { style: None, alpha: 179 }));
    assert_eq!(check_fade(0x8_0000, 5), Ok(()));
    assert_eq!(
        check_fade(0x100, 5),
        Err("Windows refused the transparency change (5). Apps running as administrator need \
             Blurman running as administrator too."
            .to_string())
    );
    let gains = FadePlan { style: Some(1), alpha: 1 };
    assert!(nudges(&gains, true, false));
    assert!(!nudges(&gains, true, true));
    assert!(!nudges(&gains, false, false));
    assert!(!nudges(&FadePlan { style: None, alpha: 1 }, true, false));
}

#[test]
fn putting_back_undoes_fading() {
    let before = 0x100;
    let saved = capture_style(before, None);
    let faded = apply_alpha(true, false, before, 50).unwrap().style.unwrap();
    assert_eq!(restore_alpha(true, false, &saved, faded), RestorePlan::SetStyle(before));
    let layered = capture_style(0x8_0000, Some((44, 2)));
    assert_eq!(restore_alpha(true, false, &layered, 0x8_0000), RestorePlan::SetAlpha(44));
    assert_eq!(restore_alpha(false, false, &layered, 0x8_0000), RestorePlan::Leave);
    assert_eq!(restore_alpha(true, true, &layered, 0x8_0000), RestorePlan::Leave);
}
