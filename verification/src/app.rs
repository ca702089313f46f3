//! What the Blurman window shows and what its controls do.

use crate::mapping;
use crate::rules::{self, Rule, RuleView, Settings, Store, StoreView};
use crate::target::AppGroup;
use crate::text;
use vstd::prelude::*;
use vstd::string::*;

verus! {

/// How often the running apps are listed again, in nanoseconds.
pub const RESCAN: u64 = 1_000_000_000;

#[derive(Debug, Clone, Copy, PartialEq, Eq, Structural)]
pub enum Tab {
    Apps,
    Settings,
}

pub struct BlurmanApp {
    pub store: Store,
    pub settings: Settings,
    pub autostart: bool,
    pub tray_error: Option<String>,
    pub tab: Tab,
    pub seen_generation: u64,
    pub groups: Vec<AppGroup>,
    pub scanned: u64,
    pub selected: Option<String>,
    pub transparency: u8,
    pub blur: u8,
    pub solid_text: bool,
    /// Launched by Windows startup: this session lives in the tray whatever the setting says.
    pub startup: bool,
}

pub struct AppView {
    pub store: StoreView,
    pub settings: Settings,
    pub autostart: bool,
    pub tray_error: Option<Seq<char>>,
    pub tab: Tab,
    pub seen_generation: u64,
    pub groups: Seq<AppGroup>,
    pub scanned: u64,
    pub selected: Option<Seq<char>>,
    pub transparency: u8,
    pub blur: u8,
    pub solid_text: bool,
    pub startup: bool,
}

pub open spec fn chars(text: Option<String>) -> Option<Seq<char>> {
    match text {
        Some(s) => Some(s@),
        None => None,
    }
}

impl View for BlurmanApp {
    type V = AppView;

    open spec fn view(&self) -> AppView {
        AppView {
            store: self.store@,
            settings: self.settings,
            autostart: self.autostart,
            tray_error: chars(self.tray_error),
            tab: self.tab,
            seen_generation: self.seen_generation,
            groups: self.groups@,
            scanned: self.scanned,
            selected: chars(self.selected),
            transparency: self.transparency,
            blur: self.blur,
            solid_text: self.solid_text,
            startup: self.startup,
        }
    }
}

/// The rule of an app, if it has one.
pub open spec fn rule_of(rules: Seq<RuleView>, process: Seq<char>) -> Option<RuleView> {
    let name = mapping::process_of(process);
    if rules::has_named(rules, name) {
        Some(rules[rules::first_named(rules, name)])
    } else {
        None
    }
}

impl AppView {
    pub open spec fn wants_tray(self) -> bool {
        self.settings.close_to_tray || self.startup
    }

    pub open spec fn keeps_in_tray(self) -> bool {
        self.wants_tray() && self.tray_error is None
    }

    pub open spec fn selected_rule(self) -> Option<RuleView> {
        match self.selected {
            Some(process) => rule_of(self.store.rules, process),
            None => None,
        }
    }

    /// With the controls set to the rule of the selected app, if it has one.
    pub open spec fn with_sliders(self) -> AppView {
        match self.selected_rule() {
            Some(rule) => AppView {
                transparency: rule.transparency,
                blur: rule.blur,
                solid_text: rule.solid_text,
                ..self
            },
            None => self,
        }
    }

    pub open spec fn with_store(self, paused: bool, rules: Seq<RuleView>) -> AppView {
        AppView { store: StoreView { paused, rules }, ..self }
    }

    /// The rules as they are saved: normalized.
    pub open spec fn published(self) -> AppView {
        self.with_store(self.store.paused, rules::normalized(self.store.rules))
    }

    /// The look the controls are set to, as a rule for an app.
    pub open spec fn look(self, process: Seq<char>) -> RuleView {
        rules::cleaned(
            RuleView {
                process,
                transparency: self.transparency,
                blur: self.blur,
                enabled: true,
                solid_text: self.solid_text,
            },
        )
    }

    pub open spec fn frosted(self) -> AppView {
        match self.selected {
            Some(process) => self.with_store(
                false,
                rules::upserted(self.store.rules, self.look(process)),
            ).published(),
            None => self,
        }
    }

    pub open spec fn unfrosted(self) -> AppView {
        match self.selected {
            Some(process) => self.with_store(
                self.store.paused,
                rules::without(self.store.rules, mapping::process_of(process)),
            ).published(),
            None => self,
        }
    }

    /// After the buttons of the rule list: one rule removed, all of them, or a pause.
    pub open spec fn edited(self, delete: Option<Seq<char>>, restore_all: bool, pause: Option<
        bool,
    >) -> AppView {
        let kept = match delete {
            Some(process) => rules::without(self.store.rules, mapping::process_of(process)),
            None => self.store.rules,
        };
        let rules = if restore_all {
            Seq::empty()
        } else {
            kept
        };
        let paused = match pause {
            Some(paused) => paused,
            None => self.store.paused && !restore_all,
        };
        self.with_store(paused, rules)
    }
}

/// A message above the tabs.
pub enum Banner {
    /// The rules are paused, with a button to resume them.
    Paused,
    Status(String),
    /// This PC has no adjustable blur.
    Acrylic,
}

/// How a row of the app list is filled.
#[derive(Debug, Clone, Copy, PartialEq, Eq, Structural)]
pub enum Fill {
    Selected,
    Hovered,
    Clear,
}

/// What a row of the app list shows.
pub struct Row {
    pub selected: bool,
    pub frosted: bool,
    pub admin: bool,
    pub count: String,
}

pub open spec fn count_text(windows: nat) -> Seq<char> {
    text::digits(windows) + " window"@ + if windows == 1 {
        ""@
    } else {
        "s"@
    }
}

impl BlurmanApp {
    pub fn new(
        store: Store,
        settings: Settings,
        autostart: bool,
        tray_error: Option<String>,
        groups: Vec<AppGroup>,
        now: u64,
        startup: bool,
    ) -> (r: BlurmanApp)
        ensures
            r@ == (AppView {
                store: store@,
                settings,
                autostart,
                tray_error: chars(tray_error),
                tab: Tab::Apps,
                seen_generation: 0,
                groups: groups@,
                scanned: now,
                selected: None,
                transparency: mapping::TRANSPARENCY_DEFAULT,
                blur: mapping::BLUR_DEFAULT,
                solid_text: false,
                startup,
            }),
            r@.transparency == 30,
            r@.blur == 40,
    {
        BlurmanApp {
            store,
            settings,
            autostart,
            tray_error,
            tab: Tab::Apps,
            seen_generation: 0,
            groups,
            scanned: now,
            selected: None,
            transparency: mapping::TRANSPARENCY_DEFAULT,
            blur: mapping::BLUR_DEFAULT,
            solid_text: false,
            startup,
        }
    }

    pub fn wants_tray(&self) -> (r: bool)
        ensures
            r == self@.wants_tray(),
    {
        self.settings.close_to_tray || self.startup
    }

    pub fn keeps_in_tray(&self) -> (r: bool)
        ensures
            r == self@.keeps_in_tray(),
    {
        self.wants_tray() && self.tray_error.is_none()
    }

    pub fn is_scan_due(&self, now: u64) -> (r: bool)
        ensures
            r == (now - self@.scanned >= RESCAN),
            r == (now - self@.scanned >= 1_000_000_000),
    {
        now >= self.scanned && now - self.scanned >= RESCAN
    }

    pub fn rescan(&mut self, groups: Vec<AppGroup>, now: u64)
        ensures
            final(self)@ == (AppView { groups: groups@, scanned: now, ..old(self)@ }),
    {
        self.groups = groups;
        self.scanned = now;
    }

    /// The rules were changed from the tray or the command line.
    pub fn is_outdated(&self, generation: u64) -> (r: bool)
        ensures
            r == (generation != self@.seen_generation),
    {
        generation != self.seen_generation
    }

    /// Picks up rule changes made from the tray or the command line.
    pub fn sync_from_disk(&mut self, generation: u64, store: Store)
        ensures
            final(self)@ == (AppView {
                seen_generation: generation,
                store: store@,
                ..old(self)@
            }).with_sliders(),
    {
        self.seen_generation = generation;
        self.store = store;
        self.sliders_from_rule();
    }

    pub fn sliders_from_rule(&mut self)
        ensures
            final(self)@ == old(self)@.with_sliders(),
    {
        let look: Option<(u8, u8, bool)> = match self.selected_rule() {
            Some(rule) => Some((rule.transparency, rule.blur, rule.solid_text)),
            None => None,
        };
        match look {
            Some((transparency, blur, solid_text)) => {
                self.transparency = transparency;
                self.blur = blur;
                self.solid_text = solid_text;
            },
            None => {},
        }
    }

    pub fn selected_rule(&self) -> (r: Option<&Rule>)
        ensures
            match r {
                Some(rule) => self@.selected_rule() == Some(rule@),
                None => self@.selected_rule() is None,
            },
    {
        match &self.selected {
            Some(process) => {
                let found: Option<&Rule> = self.store.rule(process.as_str());
                proof {
                    rules::lemma_first_named_bounds(
                        self.store@.rules,
                        mapping::process_of(process@),
                    );
                }
                found
            },
            None => None,
        }
    }

    /// Brings the rules into the form in which they are saved.
    pub fn publish(&mut self)
        ensures
            final(self)@ == old(self)@.published(),
    {
        self.store.normalize();
    }

    /// Frosts the selected app with the look the controls are set to. Gives whether there are
    /// rules to save.
    pub fn frost_selected(&mut self) -> (r: bool)
        ensures
            r == old(self)@.selected is Some,
            final(self)@ == old(self)@.frosted(),
    {
        let rule: Rule = match &self.selected {
            Some(process) => rules::new_rule(
                process.as_str(),
                self.transparency,
                self.blur,
                self.solid_text,
            ),
            None => return false,
        };
        self.store.paused = false;
        self.store.upsert(rule);
        self.publish();
        true
    }

    /// Removes the rule of the selected app. Gives whether there are rules to save.
    pub fn unfrost_selected(&mut self) -> (r: bool)
        ensures
            r == old(self)@.selected is Some,
            final(self)@ == old(self)@.unfrosted(),
    {
        match &self.selected {
            Some(process) => {
                let _ = self.store.remove(process.as_str());
            },
            None => return false,
        }
        self.publish();
        true
    }

    pub fn set_paused(&mut self, paused: bool)
        ensures
            final(self)@ == old(self)@.with_store(paused, old(self)@.store.rules).published(),
    {
        self.store.paused = paused;
        self.publish();
    }

    /// Selects an app of the list.
    pub fn pick(&mut self, process: String)
        ensures
            final(self)@ == (AppView { selected: Some(process@), ..old(self)@ }).with_sliders(),
    {
        self.selected = Some(process);
        self.sliders_from_rule();
    }

    /// Sets the controls. When the selected app has a rule, a change applies at once. Gives whether
    /// there are rules to save.
    pub fn move_controls(
        &mut self,
        transparency: u8,
        blur: u8,
        solid_text: bool,
        moved: bool,
        ruled: bool,
    ) -> (r: bool)
        ensures
            ({
                let set = AppView { transparency, blur, solid_text, ..old(self)@ };
                &&& r == (moved && ruled && set.selected is Some)
                &&& final(self)@ == if moved && ruled {
                    set.frosted()
                } else {
                    set
                }
            }),
    {
        self.transparency = transparency;
        self.blur = blur;
        self.solid_text = solid_text;
        if ruled && moved {
            self.frost_selected()
        } else {
            false
        }
    }

    /// The button below the controls: it removes the frost of an app that has a rule, and frosts
    /// one that has none. Gives whether there are rules to save.
    pub fn click_glass(&mut self, ruled: bool) -> (r: bool)
        ensures
            r == old(self)@.selected is Some,
            final(self)@ == if ruled {
                old(self)@.unfrosted()
            } else {
                old(self)@.frosted()
            },
    {
        if ruled {
            self.unfrost_selected()
        } else {
            self.frost_selected()
        }
    }

    /// Sets the switch and the sliders of one saved rule.
    pub fn edit_rule(&mut self, index: usize, enabled: bool, transparency: u8, blur: u8)
        requires
            index < old(self)@.store.rules.len(),
        ensures
            final(self)@ == old(self)@.with_store(
                old(self)@.store.paused,
                old(self)@.store.rules.update(
                    index as int,
                    RuleView {
                        enabled,
                        transparency,
                        blur,
                        ..old(self)@.store.rules[index as int]
                    },
                ),
            ),
    {
        let ghost was = self.store.rules@;
        let rule = Rule {
            process: self.store.rules[index].process.clone(),
            transparency,
            blur,
            enabled,
            solid_text: self.store.rules[index].solid_text,
        };
        self.store.rules.set(index, rule);
        assert(rules::views(self.store.rules@) =~= rules::views(was).update(index as int, rule@));
    }

    /// The end of the rule list: applies its buttons. `changed` says whether a rule was edited in
    /// place. Gives whether there are rules to save.
    pub fn saved_rules(
        &mut self,
        changed: bool,
        delete: Option<&str>,
        restore_all: bool,
        pause: Option<bool>,
    ) -> (r: bool)
        ensures
            r == (changed || delete is Some || restore_all || pause is Some),
            ({
                let gone = match delete {
                    Some(process) => Some(process@),
                    None => None,
                };
                let edited = old(self)@.edited(gone, restore_all, pause);
                final(self)@ == if r {
                    edited.with_sliders().published()
                } else {
                    edited
                }
            }),
    {
        let mut changed: bool = changed;
        match delete {
            Some(process) => {
                let _ = self.store.remove(process);
                changed = true;
            },
            None => {},
        }
        if restore_all {
            self.store.clear();
            changed = true;
        }
        match pause {
            Some(paused) => {
                self.store.paused = paused;
                changed = true;
            },
            None => {},
        }
        if changed {
            self.sliders_from_rule();
            self.publish();
        }
        changed
    }

    /// What came of turning start with Windows on or off. Gives what to tell the user.
    pub fn set_autostart(&mut self, on: bool, result: Result<(), String>) -> (r: Option<String>)
        ensures
            match result {
                Ok(_) => r is None && final(self)@ == (AppView { autostart: on, ..old(self)@ }),
                Err(err) => r matches Some(text) && text@ == err@ && final(self)@ == old(self)@,
            },
    {
        match result {
            Ok(_) => {
                self.autostart = on;
                None
            },
            Err(err) => Some(err),
        }
    }

    /// Sets whether closing keeps Blurman in the tray. Gives whether the tray icon is wanted now.
    pub fn set_close_to_tray(&mut self, on: bool) -> (r: bool)
        ensures
            final(self)@ == (AppView {
                settings: Settings { close_to_tray: on, ..old(self)@.settings },
                ..old(self)@
            }),
            r == final(self)@.wants_tray(),
    {
        self.settings.close_to_tray = on;
        self.wants_tray()
    }

    /// Sets whether solid text keeps running while a fullscreen game is in front.
    pub fn set_solid_text_in_fullscreen(&mut self, on: bool)
        ensures
            final(self)@ == (AppView {
                settings: Settings { solid_text_in_fullscreen: on, ..old(self)@.settings },
                ..old(self)@
            }),
    {
        self.settings.solid_text_in_fullscreen = on;
    }

    /// The messages above the tabs, in their order.
    pub fn banners(&self, status: &str, fallback: bool) -> (r: Vec<Banner>)
        ensures
            banner_views(r@) == shown_banners(self@.store.paused, status@, fallback),
    {
        let mut r: Vec<Banner> = Vec::new();
        if self.store.paused {
            r.push(Banner::Paused);
        }
        if status.unicode_len() > 0 {
            r.push(Banner::Status(status.to_owned()));
        }
        if fallback {
            r.push(Banner::Acrylic);
        }
        assert(banner_views(r@) =~= shown_banners(self@.store.paused, status@, fallback));
        r
    }

    /// What a row of the app list shows.
    pub fn app_row(&self, group: &AppGroup) -> (r: Row)
        ensures
            r.selected == (self@.selected == Some(group@.process)),
            r.frosted == (rule_of(self@.store.rules, group@.process) matches Some(rule)
                && rule.enabled),
            r.admin == group@.elevated,
            r.count@ == count_text(group@.windows),
    {
        let selected: bool = match &self.selected {
            Some(process) => text::same_text(process.as_str(), group.process.as_str()),
            None => false,
        };
        let frosted: bool = match self.store.rule(group.process.as_str()) {
            Some(rule) => {
                proof {
                    rules::lemma_first_named_bounds(
                        self.store@.rules,
                        mapping::process_of(group.process@),
                    );
                }
                rule.enabled
            },
            None => false,
        };
        let mut count: String = text::decimal(group.windows as u64);
        count.append(" window");
        if group.windows == 1 {
            count.append("");
        } else {
            count.append("s");
        }
        Row { selected, frosted, admin: group.elevated, count }
    }

    /// The line at the bottom of the window.
    pub fn footer(&self) -> (r: String)
        ensures
            r@ == if self@.keeps_in_tray() {
                "Closing hides Blurman in the tray. Exit from the tray puts every app back."@
            } else {
                "Closing Blurman puts every app back to normal."@
            },
    {
        if self.keeps_in_tray() {
            "Closing hides Blurman in the tray. Exit from the tray puts every app back.".to_owned()
        } else {
            "Closing Blurman puts every app back to normal.".to_owned()
        }
    }
}

/// How to fill a row of the app list.
pub fn row_fill(selected: bool, hovered: bool) -> (r: Fill)
    ensures
        r == if selected {
            Fill::Selected
        } else if hovered {
            Fill::Hovered
        } else {
            Fill::Clear
        },
{
    if selected {
        Fill::Selected
    } else if hovered {
        Fill::Hovered
    } else {
        Fill::Clear
    }
}

pub enum BannerView {
    Paused,
    Status(Seq<char>),
    Acrylic,
}

impl View for Banner {
    type V = BannerView;

    open spec fn view(&self) -> BannerView {
        match self {
            Banner::Paused => BannerView::Paused,
            Banner::Status(text) => BannerView::Status(text@),
            Banner::Acrylic => BannerView::Acrylic,
        }
    }
}

pub open spec fn banner_views(banners: Seq<Banner>) -> Seq<BannerView> {
    banners.map_values(|b: Banner| b@)
}

pub open spec fn shown_banners(paused: bool, status: Seq<char>, fallback: bool) -> Seq<BannerView> {
    let first = if paused {
        seq![BannerView::Paused]
    } else {
        Seq::empty()
    };
    let second = if status.len() > 0 {
        seq![BannerView::Status(status)]
    } else {
        Seq::empty()
    };
    let third = if fallback {
        seq![BannerView::Acrylic]
    } else {
        Seq::empty()
    };
    first + second + third
}

/// The width and height of the icon.
pub const ICON_SIZE: usize = 32;

/// One part of a pixel of the icon: a light disk in a darker ring, and nothing around it. The
/// parts are red, green, blue and opacity.
pub open spec fn icon_part(x: int, y: int, part: int) -> u8 {
    let distance = (x - 16) * (x - 16) + (y - 16) * (y - 16);
    let pixel = if distance <= 11 * 11 {
        seq![176u8, 214u8, 232u8, 255u8]
    } else if distance <= 15 * 15 {
        seq![58u8, 96u8, 132u8, 255u8]
    } else {
        seq![0u8, 0u8, 0u8, 0u8]
    };
    pixel[part]
}

/// The pixels of the icon, row by row.
pub fn icon_rgba() -> (r: Vec<u8>)
    ensures
        r@.len() == 4 * ICON_SIZE * ICON_SIZE,
        r@.len() == 4 * 32 * 32,
        forall|i: int|
            0 <= i < r@.len() ==> #[trigger] r@[i] == icon_part(
                (i / 4) % ICON_SIZE as int,
                (i / 4) / ICON_SIZE as int,
                i % 4,
            ),
{
    let mut rgba: Vec<u8> = Vec::new();
    let mut at: usize = 0;
    while at < ICON_SIZE * ICON_SIZE
        invariant
            at <= ICON_SIZE * ICON_SIZE,
            rgba@.len() == 4 * at,
            forall|i: int|
                0 <= i < rgba@.len() ==> #[trigger] rgba@[i] == icon_part(
                    (i / 4) % ICON_SIZE as int,
                    (i / 4) / ICON_SIZE as int,
                    i % 4,
                ),
        decreases ICON_SIZE * ICON_SIZE - at,
    {
        let dx: i32 = (at % ICON_SIZE) as i32 - 16;
        let dy: i32 = (at / ICON_SIZE) as i32 - 16;
        assert(0 <= dx * dx <= 256) by (nonlinear_arith)
            requires
                -16 <= dx <= 15,
        ;
        assert(0 <= dy * dy <= 256) by (nonlinear_arith)
            requires
                -16 <= dy <= 15,
        ;
        let distance: i32 = dx * dx + dy * dy;
        let pixel: [u8; 4] = if distance <= 11 * 11 {
            [176, 214, 232, 255]
        } else if distance <= 15 * 15 {
            [58, 96, 132, 255]
        } else {
            [0, 0, 0, 0]
        };
        rgba.push(pixel[0]);
        rgba.push(pixel[1]);
        rgba.push(pixel[2]);
        rgba.push(pixel[3]);
        at += 1;
    }
    rgba
}

/// Pausing and resuming keep every rule.
pub proof fn pausing_keeps_the_rules(app: AppView, paused: bool)
    requires
        rules::all_clean(app.store.rules),
        forall|k: int|
            0 <= k < app.store.rules.len() ==> (#[trigger] app.store.rules[k]).process.first()
                != '"',
    ensures
        app.with_store(paused, app.store.rules).published() == app.with_store(
            paused,
            app.store.rules,
        ),
{
    rules::normalizing_twice_changes_nothing(app.store.rules);
}

/// Restoring all deletes every rule and resumes, whatever else was clicked.
pub proof fn restoring_all_deletes_every_rule(app: AppView, delete: Option<Seq<char>>)
    ensures
        app.edited(delete, true, None).store == (StoreView {
            paused: false,
            rules: Seq::empty(),
        }),
        app.edited(delete, true, None).with_sliders().published().store == (StoreView {
            paused: false,
            rules: Seq::empty(),
        }),
{
    let edited = app.edited(delete, true, None);
    assert(rules::normalized(Seq::empty()) =~= Seq::empty());
    assert(edited.with_sliders().store.rules =~= Seq::empty());
}

/// Frosting an app gives it a rule with the look of the controls, and the rules are not paused.
/// Afterwards the controls show that rule.
pub proof fn frosting_takes_the_look_of_the_controls(app: AppView, process: Seq<char>)
    requires
        app.selected == Some(process),
        mapping::process_of(process).len() > 0,
        mapping::process_of(process).first() != '"',
        rules::all_clean(app.store.rules),
        forall|k: int|
            0 <= k < app.store.rules.len() ==> (#[trigger] app.store.rules[k]).process.first()
                != '"',
    ensures
        !app.frosted().store.paused,
        app.frosted().selected_rule() == Some(app.look(process)),
        app.frosted().with_sliders().frosted() == app.frosted().with_sliders(),
{
    let look = app.look(process);
    let name = mapping::process_of(process);
    mapping::normalizing_twice_changes_nothing(process);
    mapping::sliders_stay_in_range(app.transparency);
    mapping::sliders_stay_in_range(app.blur);
    assert(rules::cleaned(look) == look);
    let all = rules::upserted(app.store.rules, look);
    rules::edits_keep_rules_clean(app.store.rules, look, name);
    rules::lemma_first_named_bounds(app.store.rules, name);
    assert forall|k: int| 0 <= k < all.len() implies (#[trigger] all[k]).process.first() != '"' by {
        if k < app.store.rules.len() && all[k] != look {
            assert(all[k] == app.store.rules[k]);
        }
    }
    rules::normalizing_twice_changes_nothing(all);
    assert(text::same_name(name, name));
    rules::a_saved_rule_is_found(app.store.rules, look, process);
    let next = app.frosted().with_sliders();
    assert(next.store.rules == all);
    assert(next.look(process) == look);
    rules::lemma_first_named_bounds(all, name);
    let at = rules::first_named(all, name);
    assert(rules::upserted(all, look) =~= all);
}

/// Rules as they are kept stay as they are when they are saved.
proof fn lemma_kept(rules: Seq<RuleView>)
    requires
        forall|k: int|
            0 <= k < rules.len() ==> (#[trigger] rules[k]).process.len() > 0 && mapping::process_of(
                rules[k].process,
            ) == rules[k].process && 10 <= rules[k].transparency <= 70 && 1 <= rules[k].blur <= 100,
    ensures
        rules::normalized(rules) == rules,
    decreases rules.len(),
{
    if rules.len() == 0 {
        assert(rules::normalized(rules) =~= rules);
    } else {
        let front = rules.drop_last();
        assert forall|k: int| 0 <= k < front.len() implies (#[trigger] front[k]).process.len() > 0
            && mapping::process_of(front[k].process) == front[k].process && 10
            <= front[k].transparency <= 70 && 1 <= front[k].blur <= 100 by {
            assert(front[k] == rules[k]);
        }
        lemma_kept(front);
        let last = rules[rules.len() - 1];
        mapping::sliders_stay_in_range(last.transparency);
        mapping::sliders_stay_in_range(last.blur);
        assert(rules::cleaned(last) == last);
        assert(front.push(last) =~= rules);
    }
}

/// Frosting touches one app. The rule of the selected app gets the look of the controls and is
/// switched on; every rule of another app stays where it is and as it is, so for every other name
/// the same rule is found as before, or none. Nothing but the rules changes, and they are not
/// paused.
pub proof fn frosting_touches_one_app(app: AppView, process: Seq<char>, name: Seq<char>)
    requires
        app.selected == Some(process),
        mapping::process_of(mapping::process_of(process)) == mapping::process_of(process),
        forall|k: int|
            0 <= k < app.store.rules.len() ==> (#[trigger] app.store.rules[k]).process.len() > 0
                && mapping::process_of(app.store.rules[k].process) == app.store.rules[k].process
                && 10 <= app.store.rules[k].transparency <= 70 && 1 <= app.store.rules[k].blur
                <= 100,
    ensures
        ({
            let own = mapping::process_of(process);
            let before = app.store.rules;
            let after = app.frosted().store.rules;
            &&& app.frosted() == app.with_store(false, after)
            &&& before.len() <= after.len() <= before.len() + 1
            &&& forall|k: int|
                0 <= k < before.len() && !text::same_name((#[trigger] before[k]).process, own)
                    ==> after[k] == before[k]
            &&& forall|k: int|
                0 <= k < after.len() && (k == before.len() || after[k] != before[k]) ==> (
                #[trigger] after[k]).process == own && after[k].transparency
                    == mapping::transparency_of(app.transparency) && after[k].blur
                    == mapping::blur_of(app.blur) && after[k].enabled && after[k].solid_text
                    == app.solid_text
            &&& !text::same_name(name, own) ==> rules::has_named(after, name) == rules::has_named(
                before,
                name,
            )
            &&& !text::same_name(name, own) && rules::has_named(before, name)
                ==> after[rules::first_named(after, name)] == before[rules::first_named(
                before,
                name,
            )]
            &&& own.len() > 0 ==> rules::has_named(after, own) && {
                let rule = after[rules::first_named(after, own)];
                &&& rule.process == own
                &&& rule.transparency == mapping::transparency_of(app.transparency)
                &&& rule.blur == mapping::blur_of(app.blur)
                &&& rule.enabled
                &&& rule.solid_text == app.solid_text
            }
        }),
{
    let own = mapping::process_of(process);
    let before = app.store.rules;
    let look = app.look(process);
    mapping::sliders_stay_in_range(app.transparency);
    mapping::sliders_stay_in_range(app.blur);
    assert(rules::cleaned(look) == look);
    let all = rules::upserted(before, look);
    rules::lemma_first_named_bounds(before, own);
    if rules::has_named(before, own) {
        let at = rules::first_named(before, own);
        text::only_the_case_of_letters_is_ignored(before[at].process, own);
    }
    assert forall|k: int| 0 <= k < all.len() implies (#[trigger] all[k]).process.len() > 0
        && mapping::process_of(all[k].process) == all[k].process && 10 <= all[k].transparency <= 70
        && 1 <= all[k].blur <= 100 by {
        if k < before.len() && all[k] != look {
            assert(all[k] == before[k]);
        }
    }
    lemma_kept(all);
    assert(app.frosted().store.rules == all);
    if !text::same_name(name, own) {
        rules::saving_touches_one_app(before, look, name);
    }
    if own.len() > 0 {
        assert(text::same_name(own, own));
        rules::a_saved_rule_is_found(before, look, process);
    }
}

/// Removing the frost of the selected app takes away the rules of its name and leaves all others
/// as they are, paused or not.
pub proof fn unfrosting_touches_one_app(app: AppView, process: Seq<char>)
    requires
        app.selected == Some(process),
        forall|k: int|
            0 <= k < app.store.rules.len() ==> (#[trigger] app.store.rules[k]).process.len() > 0
                && mapping::process_of(app.store.rules[k].process) == app.store.rules[k].process
                && 10 <= app.store.rules[k].transparency <= 70 && 1 <= app.store.rules[k].blur
                <= 100,
    ensures
        app.unfrosted() == app.with_store(
            app.store.paused,
            app.store.rules.filter(
                |rule: RuleView| !text::same_name(rule.process, mapping::process_of(process)),
            ),
        ),
{
    let name = mapping::process_of(process);
    let other = |rule: RuleView| !text::same_name(rule.process, name);
    let rest = app.store.rules.filter(other);
    rules::removing_leaves_the_others_in_order(app.store.rules, name);
    assert forall|k: int| 0 <= k < rest.len() implies (#[trigger] rest[k]).process.len() > 0
        && mapping::process_of(rest[k].process) == rest[k].process && 10 <= rest[k].transparency
        <= 70 && 1 <= rest[k].blur <= 100 by {
        assert(rest.contains(rest[k]));
        app.store.rules.lemma_filter_contains_rev(other, rest[k]);
        let m = choose|m: int| 0 <= m < app.store.rules.len() && app.store.rules[m] == rest[k];
        assert(app.store.rules[m].process.len() > 0);
    }
    lemma_kept(rest);
}

/// Without a selected app the buttons change nothing.
pub proof fn nothing_selected_is_nothing_frosted(app: AppView)
    requires
        app.selected is None,
    ensures
        app.frosted() == app,
        app.unfrosted() == app,
        app.with_sliders() == app,
{
}

/// The rule of an app is the first one of its name, and the controls of a selected app show it.
/// They stay as they are for an app without a rule.
pub proof fn the_controls_show_the_rule(app: AppView, process: Seq<char>, i: int)
    requires
        app.selected == Some(process),
        0 <= i <= app.store.rules.len(),
        forall|k: int|
            0 <= k < i ==> !text::same_name(
                (#[trigger] app.store.rules[k]).process,
                mapping::process_of(process),
            ),
        i < app.store.rules.len() ==> text::same_name(
            app.store.rules[i].process,
            mapping::process_of(process),
        ),
    ensures
        rule_of(app.store.rules, process) == if i < app.store.rules.len() {
            Some(app.store.rules[i])
        } else {
            None
        },
        app.selected_rule() == rule_of(app.store.rules, process),
        app.with_sliders() == if i < app.store.rules.len() {
            AppView {
                transparency: app.store.rules[i].transparency,
                blur: app.store.rules[i].blur,
                solid_text: app.store.rules[i].solid_text,
                ..app
            }
        } else {
            app
        },
{
    let name = mapping::process_of(process);
    assert forall|k: int| 0 <= k < i implies !text::same_name(
        #[trigger] app.store.rules[k].process,
        name,
    ) by {
        assert(!text::same_name(app.store.rules[k].process, name));
    }
    rules::the_first_rule_of_a_name_counts(app.store.rules, name, i);
    rules::lemma_first_named_bounds(app.store.rules, name);
}

/// The buttons of the rule list do what they say: the bin takes away one app's rules, restore all
/// takes every rule away and resumes, and pause sets the pause. Nothing else changes, and without a
/// click nothing does.
pub proof fn the_list_buttons_do_what_they_say(
    app: AppView,
    delete: Option<Seq<char>>,
    restore_all: bool,
    pause: Option<bool>,
)
    ensures
        ({
            let after = app.edited(delete, restore_all, pause);
            &&& after == (AppView { store: after.store, ..app })
            &&& pause is Some ==> after.store.paused == pause->0
            &&& pause is None && restore_all ==> !after.store.paused
            &&& pause is None && !restore_all ==> after.store.paused == app.store.paused
            &&& restore_all ==> after.store.rules.len() == 0
            &&& !restore_all && delete is None ==> after.store.rules == app.store.rules
            &&& !restore_all && delete is Some ==> after.store.rules == app.store.rules.filter(
                |rule: RuleView| !text::same_name(rule.process, mapping::process_of(delete->0)),
            )
        }),
{
    if delete is Some {
        rules::removing_leaves_the_others_in_order(
            app.store.rules,
            mapping::process_of(delete->0),
        );
    }
}

/// Frosting saves a rule for the selected app with the look of the controls, and removing the frost
/// removes the rules of its name. Either way the rules are normalized as they are saved, whatever
/// they were before.
pub proof fn frosting_saves_and_unfrosting_removes(app: AppView, process: Seq<char>)
    requires
        app.selected == Some(process),
    ensures
        app.frosted() == app.with_store(
            false,
            rules::normalized(
                rules::upserted(
                    app.store.rules,
                    RuleView {
                        process: mapping::process_of(process),
                        transparency: mapping::transparency_of(app.transparency),
                        blur: mapping::blur_of(app.blur),
                        enabled: true,
                        solid_text: app.solid_text,
                    },
                ),
            ),
        ),
        app.unfrosted() == app.with_store(
            app.store.paused,
            rules::normalized(
                app.store.rules.filter(
                    |rule: RuleView| !text::same_name(rule.process, mapping::process_of(process)),
                ),
            ),
        ),
{
    rules::removing_leaves_the_others_in_order(app.store.rules, mapping::process_of(process));
}

/// The app is seen with all that it holds.
pub proof fn the_app_is_seen_as_it_is(app: BlurmanApp)
    ensures
        app@.store.paused == app.store.paused,
        app@.store.rules.len() == app.store.rules@.len(),
        forall|i: int|
            0 <= i < app.store.rules@.len() ==> #[trigger] app@.store.rules[i]
                == app.store.rules@[i]@,
        app@.settings == app.settings,
        app@.autostart == app.autostart,
        app@.tab == app.tab,
        app@.seen_generation == app.seen_generation,
        app@.groups == app.groups@,
        app@.scanned == app.scanned,
        app@.selected is Some <==> app.selected is Some,
        app.selected is Some ==> app@.selected->0 == app.selected->0@,
        app@.tray_error is Some <==> app.tray_error is Some,
        app.tray_error is Some ==> app@.tray_error->0 == app.tray_error->0@,
        app@.transparency == app.transparency,
        app@.blur == app.blur,
        app@.solid_text == app.solid_text,
        app@.startup == app.startup,
{
}

/// Changing the store changes nothing else, and saving it normalizes the rules alone.
pub proof fn saving_changes_the_rules_alone(app: AppView, paused: bool, rules: Seq<RuleView>)
    ensures
        ({
            let set = app.with_store(paused, rules);
            &&& set.store.paused == paused
            &&& set.store.rules == rules
            &&& set == (AppView { store: set.store, ..app })
            &&& app.published() == app.with_store(
                app.store.paused,
                rules::normalized(app.store.rules),
            )
        }),
{
}

/// Blurman stays in the tray when it is set to, or was started by Windows, and the icon is there.
pub proof fn the_tray_is_kept_when_wanted(app: AppView)
    ensures
        app.wants_tray() <==> app.settings.close_to_tray || app.startup,
        app.keeps_in_tray() <==> (app.settings.close_to_tray || app.startup) && app.tray_error
            is None,
{
}

/// Every message that holds is shown, once, and no other: first the pause, next the status, last
/// the missing blur.
pub proof fn every_message_is_shown(paused: bool, status: Seq<char>, fallback: bool)
    ensures
        ({
            let shown = shown_banners(paused, status, fallback);
            let a: int = if paused {
                1
            } else {
                0
            };
            let b: int = if status.len() > 0 {
                1
            } else {
                0
            };
            let c: int = if fallback {
                1
            } else {
                0
            };
            &&& shown.len() == a + b + c
            &&& paused ==> shown[0] == BannerView::Paused
            &&& status.len() > 0 ==> shown[a] == BannerView::Status(status)
            &&& fallback ==> shown[a + b] == BannerView::Acrylic
        }),
{
}

/// Messages keep their number and order as characters.
pub proof fn views_keep_every_message(banners: Seq<Banner>)
    ensures
        banner_views(banners).len() == banners.len(),
        forall|i: int|
            0 <= i < banners.len() ==> match banners[i] {
                Banner::Paused => #[trigger] banner_views(banners)[i] == BannerView::Paused,
                Banner::Status(text) => banner_views(banners)[i] == BannerView::Status(text@),
                Banner::Acrylic => banner_views(banners)[i] == BannerView::Acrylic,
            },
{
}

/// One window is counted as one, and every other number as several.
pub proof fn windows_are_counted_in_words(windows: nat)
    ensures
        windows == 1 ==> count_text(windows) == text::digits(1) + " window"@,
        windows != 1 ==> count_text(windows) == text::digits(windows) + " windows"@,
{
    reveal_strlit("");
    reveal_strlit("s");
    reveal_strlit(" window");
    reveal_strlit(" windows");
    assert(" window"@ + ""@ =~= " window"@);
    assert(" window"@ + "s"@ =~= " windows"@);
    assert(count_text(windows) =~= text::digits(windows) + (" window"@ + if windows == 1 {
        ""@
    } else {
        "s"@
    }));
}

/// The icon is a disk in a ring: a pixel is opaque exactly within 15 pixels of the middle, light
/// within 11 of it and darker between, and the picture is the same from all four sides.
pub proof fn the_icon_is_a_disk_in_a_ring(x: int, y: int, part: int)
    requires
        0 <= part < 4,
    ensures
        ({
            let distance = (x - 16) * (x - 16) + (y - 16) * (y - 16);
            &&& icon_part(x, y, 3) == if distance <= 225 {
                255u8
            } else {
                0u8
            }
            &&& distance <= 121 ==> icon_part(x, y, 0) == 176 && icon_part(x, y, 1) == 214
                && icon_part(x, y, 2) == 232
            &&& 121 < distance <= 225 ==> icon_part(x, y, 0) == 58 && icon_part(x, y, 1) == 96
                && icon_part(x, y, 2) == 132
            &&& distance > 225 ==> icon_part(x, y, part) == 0
            &&& icon_part(x, y, part) == icon_part(y, x, part)
            &&& icon_part(x, y, part) == icon_part(32 - x, y, part)
        }),
{
    assert((32 - x - 16) * (32 - x - 16) == (x - 16) * (x - 16)) by (nonlinear_arith);
}

} // verus!
