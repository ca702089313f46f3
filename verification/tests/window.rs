use blurman::app::{icon_rgba, row_fill, Banner, BlurmanApp, Fill, Tab};
use blurman::autostart;
use blurman::cli;
use blurman::files::{self, Base, FilePath, Step};
use blurman::glass::{
    apply_acrylic, glass_proc, property, property_index, Backdrop, BlurPlan, FollowPlan, GlassPane,
    GlassSession, PaneFacts, PlacePlan, Property,
};
use blurman::launch::{self, LaunchStep, RunStep, ShowCommand};
use blurman::mapping::BlurRadius;
use blurman::rules::{new_rule, Rule, Settings, Store};
use blurman::target::{AppGroup, Bounds};
use blurman::tray::{self, MenuAction, TrayPlan};

fn group(process: &str, title: &str, windows: usize, elevated: bool) -> AppGroup {
    AppGroup {
        process: process.to_string(),
        sample_title: title.to_string(),
        windows,
        elevated,
    }
}

fn app(store: Store, settings: Settings, startup: bool) -> BlurmanApp {
    BlurmanApp::new(store, settings, false, None, Vec::new(), 0, startup)
}

fn plain() -> BlurmanApp {
    app(Store::default(), Settings::default(), false)
}

#[test]
fn apps_are_listed_in_columns() {
    let lines = cli::list(&vec![
        group("notepad.exe", "notes.txt", 1, false),
        group("a_process_with_a_name_of_more_than_28.exe", "", 12, true),
        group("code.exe", "x", 100, true),
    ]);
    assert_eq!(
        lines,
        vec![
            "notepad.exe                   1 window ".to_string(),
            "  notes.txt".to_string(),
            "a_process_with_a_name_of_more_than_28.exe 12 windows  administrator".to_string(),
            "code.exe                     100 windows  administrator".to_string(),
            "  x".to_string(),
        ]
    );
    for g in [group("é.exe", "t", 3, false), group("x", "", 1, true)] {
        let expected = format!(
            "{:<28} {:>2} window{}{}",
            g.process,
            g.windows,
            if g.windows == 1 { " " } else { "s" },
            if g.elevated { "  administrator" } else { "" }
        );
        assert_eq!(cli::list(&vec![g])[0], expected);
    }
}

#[test]
fn the_command_line_saves_and_clears_rules() {
    let mut store = Store { paused: true, rules: Vec::new() };
    let rule = cli::apply(&mut store, "C:\\x\\Chrome", 99, 40).unwrap();
    assert_eq!(rule, new_rule("Chrome.exe", 70, 40, false));
    assert_eq!(store, Store { paused: false, rules: vec![rule.clone()] });
    assert_eq!(cli::applied(&rule), "Frosting Chrome.exe at transparency 70 and blur 40.");
    assert_eq!(
        cli::apply(&mut store, "  ", 30, 40),
        Err("Give an app name, like chrome.exe.".to_string())
    );
    assert_eq!(cli::clear(&mut store, Some("other"), false), Some("other.exe had no rule.".to_string()));
    assert_eq!(store.rules.len(), 1);
    assert_eq!(cli::clear(&mut store, Some("chrome"), false), None);
    assert!(store.rules.is_empty());
    cli::apply(&mut store, "a", 30, 40).unwrap();
    store.paused = true;
    assert_eq!(cli::clear(&mut store, None, true), None);
    assert_eq!(store, Store::default());
}

#[test]
fn files_live_in_one_folder() {
    let names = |path: &FilePath| path.names.join("/");
    let dir = files::app_dir(true);
    assert_eq!((dir.base, names(&dir)), (Base::Config, "Blurman".to_string()));
    assert_eq!(files::app_dir(false).base, Base::Here);
    assert_eq!(names(&files::rules_path(true)), "Blurman/rules.json");
    assert_eq!(names(&files::state_path(true)), "Blurman/state.json");
    assert_eq!(names(&files::settings_path(false)), "Blurman/settings.json");
}

#[test]
fn files_are_written_beside_and_renamed() {
    let steps = files::write_atomic(files::rules_path(true));
    assert_eq!(steps.len(), 3);
    match (&steps[0], &steps[1], &steps[2]) {
        (Step::CreateDir(dir), Step::Write(temp), Step::Rename(from, to)) => {
            assert_eq!(dir.names, vec!["Blurman"]);
            assert_eq!(temp.names, vec!["Blurman", "rules.json.tmp"]);
            assert_eq!(from.names, temp.names);
            assert_eq!(to.names, vec!["Blurman", "rules.json"]);
        }
        _ => panic!("the steps come in this order"),
    }
    for name in ["rules.json", "a.b.c", "noext", ".hidden", "x.", "...", "y.json.tmp"] {
        let path = FilePath { base: Base::Here, names: vec![name.to_string()] };
        let expected = std::path::Path::new(name).with_extension("json.tmp");
        match &files::write_atomic(path)[1] {
            Step::Write(temp) => assert_eq!(temp.names[0], expected.to_str().unwrap()),
            _ => panic!("the second step writes"),
        }
    }
}

#[test]
fn only_names_of_files_are_written() {
    let path = |name: &str| FilePath { base: Base::Here, names: vec![name.to_string()] };
    for name in ["rules.json", "x", ".hidden", "...", "a b", "ab:c"] {
        assert!(files::names_a_file(&path(name)), "{name}");
    }
    for name in ["", ".", "..", "a.b/c", "a\\b", "/", "C:x", "C:"] {
        assert!(!files::names_a_file(&path(name)), "{name}");
    }
    assert!(!files::names_a_file(&FilePath { base: Base::Here, names: Vec::new() }));
    assert!(files::names_a_file(&files::settings_path(true)));
}

#[test]
fn the_startup_entry_is_kept_current() {
    let command = autostart::command("C:\\b\\blurman.exe");
    assert_eq!(command, "\"C:\\b\\blurman.exe\" --startup");
    assert!(autostart::is_enabled(Some(&command)));
    assert!(!autostart::is_enabled(None));
    let exe = Some("C:\\b\\blurman.exe");
    assert_eq!(autostart::refresh(Some(&command), exe), None);
    assert_eq!(autostart::refresh(None, exe), None);
    assert_eq!(autostart::refresh(Some(&command), None), None);
    assert_eq!(autostart::refresh(Some("\"C:\\a.exe\" --startup"), exe), Some(command));
    assert_eq!(autostart::set_enabled(true, 0), Ok(()));
    assert_eq!(autostart::set_enabled(false, 2), Ok(()));
    assert_eq!(
        autostart::set_enabled(true, 2),
        Err("Could not turn on start with Windows (2).".to_string())
    );
    assert_eq!(
        autostart::set_enabled(false, 5),
        Err("Could not turn off start with Windows (5).".to_string())
    );
}

#[test]
fn blur_falls_back_for_good() {
    let mut session = GlassSession::new(true);
    assert!(!session.fallback());
    assert_eq!(session.open(Some(true)), Backdrop::Gaussian);
    assert!(!session.fallback());
    assert_eq!(session.open(Some(false)), Backdrop::Acrylic);
    assert!(session.fallback());
    assert_eq!(session.open(None), Backdrop::Acrylic);
    assert!(GlassSession::new(false).fallback());
}

#[test]
fn the_slider_sets_radius_or_tint() {
    let gaussian = GlassPane::new(Backdrop::Gaussian);
    assert_eq!(
        gaussian.set_blur(100),
        BlurPlan::Radius(BlurRadius { whole: 4, part: 44 * 99, parts: 99 })
    );
    let acrylic = GlassPane::new(Backdrop::Acrylic);
    assert_eq!(acrylic.set_blur(1), BlurPlan::Tint(0x1C18_1818));
    assert_eq!(apply_acrylic(100), (200u32 << 24) | 0x0018_1818);
}

#[test]
fn solid_text_needs_the_adjustable_blur() {
    let mut pane = GlassPane::new(Backdrop::Gaussian);
    assert!(!pane.hide_content());
    assert_eq!(pane.show_content(), Ok(false));
    assert_eq!(pane.show_content(), Ok(true), "the older picture goes");
    assert!(pane.hide_content());
    assert_eq!(
        GlassPane::new(Backdrop::Acrylic).show_content(),
        Err("Solid text needs the adjustable blur, which this PC does not have.".to_string())
    );
}

#[test]
fn the_glass_follows_its_app() {
    let bounds = Bounds { left: 5, top: 6, right: 105, bottom: 56 };
    let there = PaneFacts { rect: Some(bounds), visible: true, is_next: true };
    let mut pane = GlassPane::new(Backdrop::Gaussian);
    let plan = PlacePlan { band: None, left: 5, top: 6, size: (100, 50) };
    assert_eq!(pane.place_under(there, bounds, false), Some(plan), "it was hidden");
    assert_eq!(pane.place_under(there, bounds, false), None);
    assert_eq!(pane.place_under(PaneFacts { is_next: false, ..there }, bounds, false), Some(plan));
    assert_eq!(pane.place_under(PaneFacts { visible: false, ..there }, bounds, false), Some(plan));
    assert_eq!(pane.place_under(PaneFacts { rect: None, ..there }, bounds, false), Some(plan));
    let raised = PlacePlan { band: Some(true), ..plan };
    assert_eq!(pane.place_under(there, bounds, true), Some(raised));
    assert_eq!(pane.follow(true, there, bounds, true), FollowPlan::Conceal);
    assert_eq!(pane.follow(true, there, bounds, true), FollowPlan::Stay);
    assert!(!pane.take_down());
    assert_eq!(
        pane.follow(false, there, bounds, true),
        FollowPlan::Place(raised),
        "hidden panes lose their band"
    );
    assert!(pane.take_down());
}

#[test]
fn the_blur_effect_describes_itself() {
    assert_eq!(property_index("BlurAmount"), Some(0));
    assert_eq!(property_index("StandardDeviation"), Some(0));
    assert_eq!(property_index("Optimization"), Some(1));
    assert_eq!(property_index("BorderMode"), Some(2));
    assert_eq!(property_index("blurAmount"), None);
    assert_eq!(property(0), Some(Property::Deviation));
    assert_eq!(property(1), Some(Property::Number(1)));
    assert_eq!(property(2), Some(Property::Number(1)));
    assert_eq!(property(3), None);
    assert_eq!(glass_proc(0x14), Some(1));
    assert_eq!(glass_proc(0x84), Some(-1));
    assert_eq!(glass_proc(0x10), None);
}

#[test]
fn the_tray_icon_stays_in_step() {
    assert_eq!(tray::sync(None, false, true), TrayPlan::Nothing);
    assert_eq!(tray::sync(None, true, true), TrayPlan::Build(true));
    assert_eq!(tray::sync(Some(true), true, true), TrayPlan::Nothing);
    assert_eq!(tray::sync(Some(true), true, false), TrayPlan::Check(false));
    assert_eq!(tray::sync(Some(true), false, false), TrayPlan::Remove);
    assert_eq!(tray::menu_action("open"), MenuAction::Open);
    assert_eq!(tray::menu_action("pause"), MenuAction::TogglePause);
    assert_eq!(tray::menu_action("exit"), MenuAction::Exit);
    assert_eq!(tray::menu_action("Exit"), MenuAction::Nothing);
    let mut store = Store { paused: false, rules: vec![new_rule("a", 30, 40, false)] };
    tray::toggle_pause(&mut store);
    assert!(store.paused);
    assert_eq!(store.rules.len(), 1);
}

#[test]
fn one_blurman_runs_at_a_time() {
    assert_eq!(launch::launch(true, true), LaunchStep::Leave);
    assert_eq!(launch::launch(true, false), LaunchStep::ShowRunning);
    assert_eq!(launch::launch(false, true), LaunchStep::ShowRunning);
    assert_eq!(launch::after_show(true), LaunchStep::Leave);
    assert_eq!(launch::after_show(false), LaunchStep::Open);
    assert_eq!(launch::find_host(Some(0)), None);
    assert_eq!(launch::find_host(Some(4)), Some(4));
    assert_eq!(launch::find_host(None), None);
}

#[test]
fn the_window_goes_to_the_tray_and_back() {
    assert_eq!(launch::run(true, true), RunStep::Wait);
    assert_eq!(launch::run(true, false), RunStep::OpenWindow);
    assert_eq!(launch::run(false, true), RunStep::OpenWindow);
    assert_eq!(launch::after_wait(true), RunStep::OpenWindow);
    assert_eq!(launch::after_wait(false), RunStep::Quit);
    assert_eq!(launch::after_window(true), RunStep::Wait);
    assert_eq!(launch::after_window(false), RunStep::Quit);
    assert_eq!(launch::show_window(0, false), None);
    assert_eq!(launch::show_window(3, true), Some(ShowCommand::Restore));
    assert_eq!(launch::show_window(3, false), Some(ShowCommand::Show));
    assert!(launch::keeps_waiting(false, 2999, 3000));
    assert!(!launch::keeps_waiting(false, 3000, 3000));
    assert!(!launch::keeps_waiting(true, 0, 3000));
}

#[test]
fn frosting_follows_the_controls() {
    let mut app = plain();
    assert!(!app.frost_selected(), "nothing is selected");
    assert!(app.selected_rule().is_none());
    app.pick("chrome.exe".to_string());
    assert_eq!((app.transparency, app.blur, app.solid_text), (30, 40, false));
    assert!(!app.move_controls(50, 60, true, true, false), "no rule yet");
    assert!(app.store.rules.is_empty());
    app.store.paused = true;
    assert!(app.click_glass(false));
    assert!(!app.store.paused);
    assert_eq!(app.selected_rule(), Some(&new_rule("chrome.exe", 50, 60, true)));
    assert!(app.move_controls(20, 60, true, true, true), "changes apply as you drag");
    assert_eq!(app.store.rules, vec![new_rule("chrome.exe", 20, 60, true)]);
    assert!(!app.move_controls(20, 60, true, false, true));
    assert!(app.click_glass(true));
    assert!(app.store.rules.is_empty());
    assert!(app.frost_selected());
    assert!(app.unfrost_selected());
    assert!(app.store.rules.is_empty());
}

#[test]
fn picking_an_app_shows_its_rule() {
    let store = Store { paused: false, rules: vec![new_rule("a", 11, 22, true)] };
    let mut app = app(store, Settings::default(), false);
    app.pick("A.EXE".to_string());
    assert_eq!((app.transparency, app.blur, app.solid_text), (11, 22, true));
    app.pick("b.exe".to_string());
    assert_eq!((app.transparency, app.blur, app.solid_text), (11, 22, true));
}

#[test]
fn the_rule_list_edits_rules() {
    let rules = vec![new_rule("a", 30, 40, false), new_rule("b", 30, 40, false)];
    let mut app = app(Store { paused: false, rules: rules.clone() }, Settings::default(), false);
    app.pick("b.exe".to_string());
    app.edit_rule(1, false, 66, 77);
    assert!(app.saved_rules(true, None, false, None));
    assert_eq!((app.transparency, app.blur), (66, 77));
    assert!(!app.store.rules[1].enabled);
    assert!(!app.saved_rules(false, None, false, None));
    assert!(app.saved_rules(false, Some("A.exe"), false, None));
    assert_eq!(app.store.rules.len(), 1);
    assert!(app.saved_rules(false, None, false, Some(true)));
    assert!(app.store.paused);
    assert_eq!(app.store.rules.len(), 1, "pausing keeps the rules");
    assert!(app.saved_rules(false, None, true, None));
    assert_eq!(app.store, Store::default());
    app.set_paused(true);
    assert!(app.store.paused);
}

#[test]
fn outside_changes_are_picked_up() {
    let mut app = plain();
    app.pick("a.exe".to_string());
    assert!(!app.is_outdated(0));
    assert!(app.is_outdated(3));
    app.sync_from_disk(3, Store { paused: true, rules: vec![new_rule("a", 12, 13, false)] });
    assert!(!app.is_outdated(3));
    assert_eq!((app.transparency, app.blur), (12, 13));
    assert!(!app.is_scan_due(999_999_999));
    assert!(app.is_scan_due(1_000_000_000));
    app.rescan(vec![group("x.exe", "t", 1, false)], 1_000_000_000);
    assert!(!app.is_scan_due(1_500_000_000));
    assert_eq!(app.groups.len(), 1);
    assert!(app.tab == Tab::Apps);
}

#[test]
fn the_tray_keeps_the_window_only_with_an_icon() {
    let keep = Settings { close_to_tray: true, solid_text_in_fullscreen: false };
    let mut app = app(Store::default(), keep, false);
    assert!(app.wants_tray() && app.keeps_in_tray());
    assert_eq!(app.footer(), "Closing hides Blurman in the tray. Exit from the tray puts every app back.");
    app.tray_error = Some("Could not add the tray icon".to_string());
    assert!(app.wants_tray() && !app.keeps_in_tray());
    assert_eq!(app.footer(), "Closing Blurman puts every app back to normal.");
    let startup = BlurmanApp::new(
        Store::default(),
        Settings::default(),
        true,
        None,
        Vec::new(),
        0,
        true,
    );
    assert!(startup.keeps_in_tray());
    assert!(!plain().wants_tray());
    let mut app = plain();
    assert!(app.set_close_to_tray(true));
    assert!(app.settings.close_to_tray);
    assert!(!app.set_close_to_tray(false));
    app.set_solid_text_in_fullscreen(true);
    assert_eq!(
        app.settings,
        Settings { close_to_tray: false, solid_text_in_fullscreen: true }
    );
    let mut startup = startup;
    assert!(startup.set_close_to_tray(false), "a startup session stays in the tray");
}

#[test]
fn autostart_changes_only_when_it_worked() {
    let mut app = plain();
    assert_eq!(app.set_autostart(true, Err("no".to_string())), Some("no".to_string()));
    assert!(!app.autostart);
    assert_eq!(app.set_autostart(true, Ok(())), None);
    assert!(app.autostart);
}

#[test]
fn banners_come_in_order() {
    let mut app = plain();
    assert!(app.banners("", false).is_empty());
    app.store.paused = true;
    let shown = app.banners("trouble", true);
    assert_eq!(shown.len(), 3);
    assert!(matches!(shown[0], Banner::Paused));
    assert!(matches!(&shown[1], Banner::Status(text) if text == "trouble"));
    assert!(matches!(shown[2], Banner::Acrylic));
}

#[test]
fn rows_show_their_app() {
    let mut off: Rule = new_rule("b", 30, 40, false);
    off.enabled = false;
    let rules = vec![new_rule("a", 30, 40, false), off];
    let mut app = app(Store { paused: false, rules }, Settings::default(), false);
    app.pick("a.exe".to_string());
    let row = app.app_row(&group("a.exe", "t", 1, true));
    assert!(row.selected && row.frosted && row.admin);
    assert_eq!(row.count, "1 window");
    let row = app.app_row(&group("B.exe", "t", 3, false));
    assert!(!row.selected && !row.frosted && !row.admin);
    assert_eq!(row.count, "3 windows");
    assert_eq!(row_fill(true, true), Fill::Selected);
    assert_eq!(row_fill(false, true), Fill::Hovered);
    assert_eq!(row_fill(false, false), Fill::Clear);
}

#[test]
fn the_icon_is_a_disk_in_a_ring() {
    let rgba = icon_rgba();
    assert_eq!(rgba.len(), 32 * 32 * 4);
    let at = |x: usize, y: usize| &rgba[(y * 32 + x) * 4..(y * 32 + x) * 4 + 4];
    assert_eq!(at(16, 16), [176, 214, 232, 255]);
    assert_eq!(at(16, 5), [176, 214, 232, 255]);
    assert_eq!(at(16, 4), [58, 96, 132, 255]);
    assert_eq!(at(1, 16), [58, 96, 132, 255]);
    assert_eq!(at(0, 16), [0, 0, 0, 0]);
    assert_eq!(at(31, 31), [0, 0, 0, 0]);
}
