//! Rules the user asked for, plus the original style of every window we touched.

use crate::mapping::{self, SavedStyle};
use crate::text;
use vstd::prelude::*;
use vstd::string::*;

verus! {

#[derive(Debug, PartialEq, Eq)]
pub struct Rule {
    pub process: String,
    pub transparency: u8,
    pub blur: u8,
    pub enabled: bool,
    /// Keep text and images solid: only the app's background turns to glass.
    pub solid_text: bool,
}

/// A rule with its name as characters.
pub struct RuleView {
    pub process: Seq<char>,
    pub transparency: u8,
    pub blur: u8,
    pub enabled: bool,
    pub solid_text: bool,
}

impl View for Rule {
    type V = RuleView;

    open spec fn view(&self) -> RuleView {
        RuleView {
            process: self.process@,
            transparency: self.transparency,
            blur: self.blur,
            enabled: self.enabled,
            solid_text: self.solid_text,
        }
    }
}

impl Clone for Rule {
    fn clone(&self) -> (r: Self)
        ensures
            r == *self,
    {
        Rule {
            process: self.process.clone(),
            transparency: self.transparency,
            blur: self.blur,
            enabled: self.enabled,
            solid_text: self.solid_text,
        }
    }
}

#[derive(Debug, PartialEq, Eq)]
pub struct Store {
    pub paused: bool,
    pub rules: Vec<Rule>,
}

pub struct StoreView {
    pub paused: bool,
    pub rules: Seq<RuleView>,
}

/// The rules with their names as characters.
pub open spec fn views(rules: Seq<Rule>) -> Seq<RuleView> {
    rules.map_values(|r: Rule| r@)
}

impl View for Store {
    type V = StoreView;

    open spec fn view(&self) -> StoreView {
        StoreView { paused: self.paused, rules: views(self.rules@) }
    }
}

impl Clone for Store {
    fn clone(&self) -> (r: Self)
        ensures
            r@ == self@,
    {
        let mut rules: Vec<Rule> = Vec::new();
        let mut i: usize = 0;
        while i < self.rules.len()
            invariant
                i <= self.rules@.len(),
                rules@ == self.rules@.take(i as int),
            decreases self.rules.len() - i,
        {
            rules.push(self.rules[i].clone());
            assert(rules@ =~= self.rules@.take(i + 1));
            i += 1;
        }
        assert(rules@ =~= self.rules@);
        Store { paused: self.paused, rules }
    }
}

impl Default for Store {
    fn default() -> (r: Self)
        ensures
            r@ == (StoreView { paused: false, rules: Seq::empty() }),
    {
        let r = Store { paused: false, rules: Vec::new() };
        assert(r@.rules =~= Seq::empty());
        r
    }
}

/// `rule` with its name normalized and its sliders in range.
pub open spec fn cleaned(rule: RuleView) -> RuleView {
    RuleView {
        process: mapping::process_of(rule.process),
        transparency: mapping::transparency_of(rule.transparency),
        blur: mapping::blur_of(rule.blur),
        enabled: rule.enabled,
        solid_text: rule.solid_text,
    }
}

/// The cleaned rules in their order, without those that name no app.
pub open spec fn normalized(rules: Seq<RuleView>) -> Seq<RuleView>
    decreases rules.len(),
{
    if rules.len() == 0 {
        Seq::empty()
    } else {
        let front = normalized(rules.drop_last());
        let rule = cleaned(rules.last());
        if rule.process.len() == 0 {
            front
        } else {
            front.push(rule)
        }
    }
}

/// The place of the first rule of that name, or the number of rules when there is none.
pub open spec fn first_named(rules: Seq<RuleView>, name: Seq<char>) -> int
    decreases rules.len(),
{
    if rules.len() == 0 || text::same_name(rules.first().process, name) {
        0
    } else {
        1 + first_named(rules.drop_first(), name)
    }
}

pub open spec fn has_named(rules: Seq<RuleView>, name: Seq<char>) -> bool {
    first_named(rules, name) < rules.len()
}

/// The rules in their order without those of that name.
pub open spec fn without(rules: Seq<RuleView>, name: Seq<char>) -> Seq<RuleView>
    decreases rules.len(),
{
    if rules.len() == 0 {
        Seq::empty()
    } else {
        let front = without(rules.drop_last(), name);
        if text::same_name(rules.last().process, name) {
            front
        } else {
            front.push(rules.last())
        }
    }
}

/// The rules with `rule`, cleaned, in place of the first one of its name, or at the end.
pub open spec fn upserted(rules: Seq<RuleView>, rule: RuleView) -> Seq<RuleView> {
    let new = cleaned(rule);
    if has_named(rules, new.process) {
        rules.update(first_named(rules, new.process), new)
    } else if new.process.len() > 0 {
        rules.push(new)
    } else {
        rules
    }
}

fn clean(rule: &Rule) -> (r: Rule)
    ensures
        r@ == cleaned(rule@),
{
    Rule {
        process: mapping::normalize_process(rule.process.as_str()),
        transparency: mapping::clamp_transparency(rule.transparency),
        blur: mapping::clamp_blur(rule.blur),
        enabled: rule.enabled,
        solid_text: rule.solid_text,
    }
}

/// The place of the first rule named `name`, which is looked for as it is.
fn find(rules: &Vec<Rule>, name: &str) -> (r: usize)
    ensures
        r == first_named(views(rules@), name@),
        r <= rules@.len(),
{
    let ghost all = views(rules@);
    let mut i: usize = 0;
    assert(all.skip(0) =~= all);
    while i < rules.len() && !text::eq_ignore_ascii_case(rules[i].process.as_str(), name)
        invariant
            all == views(rules@),
            i <= rules@.len(),
            first_named(all, name@) == i + first_named(all.skip(i as int), name@),
        decreases rules.len() - i,
    {
        assert(all.skip(i as int).drop_first() =~= all.skip(i + 1));
        i += 1;
    }
    i
}

impl Store {
    pub fn normalize(&mut self)
        ensures
            final(self)@ == (StoreView {
                paused: old(self)@.paused,
                rules: normalized(old(self)@.rules),
            }),
    {
        let ghost all = self@.rules;
        let mut rules: Vec<Rule> = Vec::new();
        let mut i: usize = 0;
        assert(all.take(0) =~= Seq::empty());
        assert(views(rules@) =~= Seq::empty());
        while i < self.rules.len()
            invariant
                all == views(self.rules@),
                i <= self.rules@.len(),
                views(rules@) == normalized(all.take(i as int)),
            decreases self.rules.len() - i,
        {
            let rule: Rule = clean(&self.rules[i]);
            assert(all.take(i + 1).drop_last() =~= all.take(i as int));
            assert(all.take(i + 1).last() == self.rules@[i as int]@);
            if !rule.process.as_str().is_empty() {
                let ghost was = rules@;
                rules.push(rule);
                assert(views(rules@) =~= views(was).push(rule@));
            }
            i += 1;
        }
        assert(all.take(i as int) =~= all);
        self.rules = rules;
    }

    pub fn rule(&self, process: &str) -> (r: Option<&Rule>)
        ensures
            match r {
                Some(rule) => has_named(self@.rules, mapping::process_of(process@)) && *rule
                    == self.rules@[first_named(self@.rules, mapping::process_of(process@))],
                None => !has_named(self@.rules, mapping::process_of(process@)),
            },
    {
        let want: String = mapping::normalize_process(process);
        let i: usize = find(&self.rules, want.as_str());
        if i < self.rules.len() {
            Some(&self.rules[i])
        } else {
            None
        }
    }

    pub fn upsert(&mut self, rule: Rule)
        ensures
            final(self)@ == (StoreView {
                paused: old(self)@.paused,
                rules: upserted(old(self)@.rules, rule@),
            }),
    {
        let new: Rule = clean(&rule);
        let i: usize = find(&self.rules, new.process.as_str());
        let ghost was = self.rules@;
        if i < self.rules.len() {
            self.rules.set(i, new);
            assert(views(self.rules@) =~= views(was).update(i as int, new@));
        } else if !new.process.as_str().is_empty() {
            self.rules.push(new);
            assert(views(self.rules@) =~= views(was).push(new@));
        }
    }

    pub fn remove(&mut self, process: &str) -> (r: bool)
        ensures
            final(self)@ == (StoreView {
                paused: old(self)@.paused,
                rules: without(old(self)@.rules, mapping::process_of(process@)),
            }),
            r == has_named(old(self)@.rules, mapping::process_of(process@)),
    {
        let want: String = mapping::normalize_process(process);
        let ghost all = self@.rules;
        let mut rules: Vec<Rule> = Vec::new();
        let mut i: usize = 0;
        assert(all.take(0) =~= Seq::empty());
        assert(views(rules@) =~= Seq::empty());
        while i < self.rules.len()
            invariant
                all == views(self.rules@),
                i <= self.rules@.len(),
                views(rules@) == without(all.take(i as int), want@),
            decreases self.rules.len() - i,
        {
            assert(all.take(i + 1).drop_last() =~= all.take(i as int));
            assert(all.take(i + 1).last() == self.rules@[i as int]@);
            if !text::eq_ignore_ascii_case(self.rules[i].process.as_str(), want.as_str()) {
                let ghost was = rules@;
                rules.push(self.rules[i].clone());
                assert(views(rules@) =~= views(was).push(self.rules@[i as int]@));
            }
            i += 1;
        }
        assert(all.take(i as int) =~= all);
        proof {
            lemma_without(all, want@);
        }
        let r: bool = self.rules.len() != rules.len();
        self.rules = rules;
        r
    }

    pub fn clear(&mut self)
        ensures
            final(self)@ == (StoreView { paused: false, rules: Seq::empty() }),
    {
        self.rules.clear();
        self.paused = false;
        assert(self@.rules =~= Seq::empty());
    }
}

/// The window's handle, its process, and the style it had before it was faded.
#[derive(Debug, PartialEq, Eq)]
pub struct PersistedWindow {
    pub hwnd: isize,
    pub pid: u32,
    pub process_start: u64,
    pub process: String,
    pub original_exstyle: i64,
    pub original_layered: bool,
    pub original_alpha: u8,
}

impl Clone for PersistedWindow {
    fn clone(&self) -> (r: Self)
        ensures
            r == *self,
    {
        PersistedWindow {
            hwnd: self.hwnd,
            pid: self.pid,
            process_start: self.process_start,
            process: self.process.clone(),
            original_exstyle: self.original_exstyle,
            original_layered: self.original_layered,
            original_alpha: self.original_alpha,
        }
    }
}

impl PersistedWindow {
    pub open spec fn style(self) -> SavedStyle {
        SavedStyle {
            exstyle: self.original_exstyle,
            was_layered: self.original_layered,
            alpha: self.original_alpha,
        }
    }

    pub fn new(
        hwnd: isize,
        pid: u32,
        process_start: u64,
        process: String,
        saved: &SavedStyle,
    ) -> (r: PersistedWindow)
        ensures
            r.hwnd == hwnd,
            r.pid == pid,
            r.process_start == process_start,
            r.process == process,
            r.style() == *saved,
    {
        PersistedWindow {
            hwnd,
            pid,
            process_start,
            process,
            original_exstyle: saved.exstyle,
            original_layered: saved.was_layered,
            original_alpha: saved.alpha,
        }
    }

    pub fn saved_style(&self) -> (r: SavedStyle)
        ensures
            r == self.style(),
    {
        SavedStyle {
            exstyle: self.original_exstyle,
            was_layered: self.original_layered,
            alpha: self.original_alpha,
        }
    }
}

/// Window behavior. Start with Windows lives in the registry, not here.
#[derive(Debug, Clone, Copy, PartialEq, Eq, Structural)]
pub struct Settings {
    pub close_to_tray: bool,
    /// Keep solid text running while a fullscreen game is in front instead of pausing it.
    pub solid_text_in_fullscreen: bool,
}

impl Default for Settings {
    fn default() -> (r: Self)
        ensures
            r == (Settings { close_to_tray: false, solid_text_in_fullscreen: false }),
    {
        Settings { close_to_tray: false, solid_text_in_fullscreen: false }
    }
}

/// The settings in the file, or the default ones when it holds none.
pub fn load_settings(stored: Option<Settings>) -> (r: Settings)
    ensures
        r == match stored {
            Some(settings) => settings,
            None => Settings { close_to_tray: false, solid_text_in_fullscreen: false },
        },
{
    match stored {
        Some(settings) => settings,
        None => Settings::default(),
    }
}

/// The rules in the file, normalized, or none when it holds none.
pub fn load(stored: Option<Store>) -> (r: Store)
    ensures
        r@ == match stored {
            Some(store) => StoreView {
                paused: store@.paused,
                rules: normalized(store@.rules),
            },
            None => StoreView { paused: false, rules: Seq::empty() },
        },
{
    let mut store: Store = match stored {
        Some(store) => store,
        None => Store::default(),
    };
    store.normalize();
    store
}

/// The windows in the file, or none when it holds none.
pub fn load_state(stored: Option<Vec<PersistedWindow>>) -> (r: Vec<PersistedWindow>)
    ensures
        match stored {
            Some(windows) => r == windows,
            None => r@ == Seq::<PersistedWindow>::empty(),
        },
{
    match stored {
        Some(windows) => windows,
        None => Vec::new(),
    }
}

pub fn new_rule(process: &str, transparency: u8, blur: u8, solid_text: bool) -> (r: Rule)
    ensures
        r@ == cleaned(
            RuleView { process: process@, transparency, blur, enabled: true, solid_text },
        ),
{
    Rule {
        process: mapping::normalize_process(process),
        transparency: mapping::clamp_transparency(transparency),
        blur: mapping::clamp_blur(blur),
        enabled: true,
        solid_text,
    }
}

pub proof fn lemma_first_named_bounds(rules: Seq<RuleView>, name: Seq<char>)
    ensures
        0 <= first_named(rules, name) <= rules.len(),
        has_named(rules, name) ==> text::same_name(
            rules[first_named(rules, name)].process,
            name,
        ),
        forall|k: int|
            0 <= k < first_named(rules, name) ==> !text::same_name(
                #[trigger] rules[k].process,
                name,
            ),
    decreases rules.len(),
{
    if rules.len() > 0 && !text::same_name(rules.first().process, name) {
        let rest = rules.drop_first();
        lemma_first_named_bounds(rest, name);
        assert forall|k: int| 0 <= k < first_named(rules, name) implies !text::same_name(
            #[trigger] rules[k].process,
            name,
        ) by {
            if k > 0 {
                assert(rules[k] == rest[k - 1]);
            }
        }
    }
}

/// The first rule of a name is where the name occurs and nowhere before.
proof fn lemma_first_named_is(rules: Seq<RuleView>, name: Seq<char>, i: int)
    requires
        0 <= i < rules.len(),
        text::same_name(rules[i].process, name),
        forall|k: int| 0 <= k < i ==> !text::same_name(#[trigger] rules[k].process, name),
    ensures
        first_named(rules, name) == i,
{
    lemma_first_named_bounds(rules, name);
    let j = first_named(rules, name);
    if j < i {
        assert(!text::same_name(rules[j].process, name));
    }
}

proof fn lemma_without(rules: Seq<RuleView>, name: Seq<char>)
    ensures
        without(rules, name).len() <= rules.len(),
        without(rules, name).len() == rules.len() <==> !has_named(rules, name),
        !has_named(rules, name) ==> without(rules, name) == rules,
        forall|k: int|
            0 <= k < without(rules, name).len() ==> !text::same_name(
                (#[trigger] without(rules, name)[k]).process,
                name,
            ) && rules.contains(without(rules, name)[k]),
    decreases rules.len(),
{
    lemma_first_named_bounds(rules, name);
    if rules.len() > 0 {
        let front = rules.drop_last();
        lemma_without(front, name);
        lemma_first_named_bounds(front, name);
        let i = first_named(rules, name);
        if has_named(front, name) {
            let j = first_named(front, name);
            assert(rules[j] == front[j]);
            if !has_named(rules, name) {
                assert(!text::same_name(rules[j].process, name));
            }
        } else if text::same_name(rules.last().process, name) {
            if !has_named(rules, name) {
                assert(!text::same_name(rules[rules.len() - 1].process, name));
            }
        } else {
            if has_named(rules, name) {
                assert(i < rules.len() - 1);
                assert(front[i] == rules[i]);
            }
            assert(front.push(rules.last()) =~= rules);
        }
        assert forall|k: int| 0 <= k < without(rules, name).len() implies !text::same_name(
            (#[trigger] without(rules, name)[k]).process,
            name,
        ) && rules.contains(without(rules, name)[k]) by {
            let w = without(rules, name);
            if k < without(front, name).len() {
                assert(w[k] == without(front, name)[k]);
                let m = choose|m: int| 0 <= m < front.len() && front[m] == w[k];
                assert(rules[m] == w[k]);
            } else {
                assert(w[k] == rules[rules.len() - 1]);
            }
        }
    }
}

/// A rule as it is kept: normalized name, sliders in range.
pub open spec fn is_clean(rule: RuleView) -> bool {
    &&& rule.process.len() > 0
    &&& exists|name: Seq<char>| rule.process == #[trigger] mapping::process_of(name)
    &&& mapping::TRANSPARENCY_MIN <= rule.transparency <= mapping::TRANSPARENCY_MAX
    &&& mapping::BLUR_MIN <= rule.blur <= mapping::BLUR_MAX
}

pub open spec fn all_clean(rules: Seq<RuleView>) -> bool {
    forall|k: int| 0 <= k < rules.len() ==> is_clean(#[trigger] rules[k])
}

/// No two rules have the same name.
pub open spec fn distinct(rules: Seq<RuleView>) -> bool {
    forall|k: int, l: int|
        0 <= k < l < rules.len() ==> !text::same_name(
            #[trigger] rules[k].process,
            #[trigger] rules[l].process,
        )
}

/// After normalizing, every rule names an executable and has its sliders in range.
pub proof fn normalizing_cleans(rules: Seq<RuleView>)
    ensures
        all_clean(normalized(rules)),
    decreases rules.len(),
{
    if rules.len() > 0 {
        normalizing_cleans(rules.drop_last());
        mapping::sliders_stay_in_range(rules.last().transparency);
        mapping::sliders_stay_in_range(rules.last().blur);
        let rule = cleaned(rules.last());
        assert(rule.process == mapping::process_of(rules.last().process));
        let front = normalized(rules.drop_last());
        assert forall|k: int| 0 <= k < normalized(rules).len() implies is_clean(
            #[trigger] normalized(rules)[k],
        ) by {
            if k < front.len() {
                assert(normalized(rules)[k] == front[k]);
            }
        }
    }
}

/// Normalizing clean rules changes nothing, unless a name still starts with a quote.
pub proof fn normalizing_twice_changes_nothing(rules: Seq<RuleView>)
    requires
        all_clean(rules),
        forall|k: int| 0 <= k < rules.len() ==> (#[trigger] rules[k]).process.first() != '"',
    ensures
        normalized(rules) == rules,
    decreases rules.len(),
{
    if rules.len() > 0 {
        let front = rules.drop_last();
        assert forall|k: int| 0 <= k < front.len() implies is_clean(#[trigger] front[k])
            && front[k].process.first() != '"' by {
            assert(front[k] == rules[k]);
        }
        normalizing_twice_changes_nothing(front);
        let last = rules.last();
        assert(is_clean(rules[rules.len() - 1]));
        let name = choose|name: Seq<char>| last.process == #[trigger] mapping::process_of(name);
        mapping::normalizing_twice_changes_nothing(name);
        mapping::sliders_stay_in_range(last.transparency);
        mapping::sliders_stay_in_range(last.blur);
        assert(cleaned(last) == last);
        assert(front.push(last) =~= rules);
    } else {
        assert(normalized(rules) =~= rules);
    }
}

/// Saving and removing rules keeps the others clean.
pub proof fn edits_keep_rules_clean(rules: Seq<RuleView>, rule: RuleView, name: Seq<char>)
    requires
        all_clean(rules),
    ensures
        all_clean(upserted(rules, rule)),
        all_clean(without(rules, name)),
{
    let new = cleaned(rule);
    mapping::sliders_stay_in_range(rule.transparency);
    mapping::sliders_stay_in_range(rule.blur);
    assert(new.process == mapping::process_of(rule.process));
    lemma_first_named_bounds(rules, new.process);
    lemma_without(rules, name);
    assert forall|k: int| 0 <= k < upserted(rules, rule).len() implies is_clean(
        #[trigger] upserted(rules, rule)[k],
    ) by {
        let i = first_named(rules, new.process);
        if has_named(rules, new.process) && k == i {
            assert(is_clean(rules[i]));
            lemma_same_length(rules[i].process, new.process);
        } else if k < rules.len() {
            assert(upserted(rules, rule)[k] == rules[k]);
        }
    }
    assert forall|k: int| 0 <= k < without(rules, name).len() implies is_clean(
        #[trigger] without(rules, name)[k],
    ) by {
        assert(rules.contains(without(rules, name)[k]));
    }
}

proof fn lemma_same_length(a: Seq<char>, b: Seq<char>)
    requires
        text::same_name(a, b),
    ensures
        a.len() == b.len(),
{
    assert(text::folded(a).len() == a.len());
    assert(text::folded(b).len() == b.len());
}

/// One rule per app: saving a rule never makes a second one of the same name, and neither does
/// removing one.
pub proof fn edits_keep_one_rule_per_app(rules: Seq<RuleView>, rule: RuleView, name: Seq<char>)
    requires
        distinct(rules),
    ensures
        distinct(upserted(rules, rule)),
        distinct(without(rules, name)),
{
    let new = cleaned(rule);
    let r = upserted(rules, rule);
    lemma_first_named_bounds(rules, new.process);
    let i = first_named(rules, new.process);
    assert forall|k: int, l: int| 0 <= k < l < r.len() implies !text::same_name(
        #[trigger] r[k].process,
        #[trigger] r[l].process,
    ) by {
        if has_named(rules, new.process) {
            assert(!text::same_name(rules[k].process, rules[l].process));
        } else if l == rules.len() {
            assert(!text::same_name(rules[k].process, new.process));
        } else {
            assert(!text::same_name(rules[k].process, rules[l].process));
        }
    }
    lemma_without_distinct(rules, name);
}

proof fn lemma_without_distinct(rules: Seq<RuleView>, name: Seq<char>)
    requires
        distinct(rules),
    ensures
        distinct(without(rules, name)),
    decreases rules.len(),
{
    if rules.len() > 0 {
        let front = rules.drop_last();
        assert(distinct(front)) by {
            assert forall|k: int, l: int| 0 <= k < l < front.len() implies !text::same_name(
                #[trigger] front[k].process,
                #[trigger] front[l].process,
            ) by {
                assert(!text::same_name(rules[k].process, rules[l].process));
            }
        }
        lemma_without_distinct(front, name);
        lemma_without(front, name);
        let f = without(front, name);
        let w = without(rules, name);
        assert forall|k: int, l: int| 0 <= k < l < w.len() implies !text::same_name(
            #[trigger] w[k].process,
            #[trigger] w[l].process,
        ) by {
            if l < f.len() {
                assert(w[k] == f[k] && w[l] == f[l]);
            } else {
                assert(w[k] == f[k]);
                assert(front.contains(f[k]));
                let m = choose|m: int| 0 <= m < front.len() && front[m] == f[k];
                assert(!text::same_name(rules[m].process, rules[rules.len() - 1].process));
            }
        }
    }
}

/// What was saved is what is found: after a rule is saved, looking its app up, under any spelling
/// that normalizes to the same name, gives that rule with its name normalized and its sliders in
/// range.
pub proof fn a_saved_rule_is_found(rules: Seq<RuleView>, rule: RuleView, process: Seq<char>)
    requires
        mapping::process_of(rule.process).len() > 0,
        text::same_name(mapping::process_of(process), mapping::process_of(rule.process)),
    ensures
        has_named(upserted(rules, rule), mapping::process_of(process)),
        upserted(rules, rule)[first_named(upserted(rules, rule), mapping::process_of(process))]
            == cleaned(rule),
{
    let new = cleaned(rule);
    let want = mapping::process_of(process);
    let r = upserted(rules, rule);
    lemma_first_named_bounds(rules, new.process);
    let i = first_named(rules, new.process);
    assert forall|k: int| 0 <= k < i implies !text::same_name(#[trigger] r[k].process, want) by {
        assert(r[k] == rules[k]);
    }
    assert(r[i] == new);
    lemma_first_named_is(r, want, i);
}

/// Saving a rule leaves the rules of all other apps as they were.
pub proof fn saving_touches_one_app(rules: Seq<RuleView>, rule: RuleView, name: Seq<char>)
    requires
        !text::same_name(name, mapping::process_of(rule.process)),
    ensures
        has_named(upserted(rules, rule), name) == has_named(rules, name),
        has_named(rules, name) ==> upserted(rules, rule)[first_named(upserted(rules, rule), name)]
            == rules[first_named(rules, name)],
{
    let new = cleaned(rule);
    let r = upserted(rules, rule);
    lemma_first_named_bounds(rules, new.process);
    lemma_first_named_bounds(rules, name);
    lemma_first_named_bounds(r, name);
    let i = first_named(rules, name);
    let j = first_named(r, name);
    if has_named(rules, name) {
        assert(r[i] == rules[i]);
        assert forall|k: int| 0 <= k < i implies !text::same_name(
            #[trigger] r[k].process,
            name,
        ) by {
            if r[k] == rules[k] {
                assert(!text::same_name(rules[k].process, name));
            }
        }
        lemma_first_named_is(r, name, i);
    } else if has_named(r, name) {
        if j < rules.len() && r[j] == rules[j] {
            assert(!text::same_name(rules[j].process, name));
        }
    }
}

/// A removed rule is gone, and no rule of another app goes with it.
pub proof fn a_removed_rule_is_gone(rules: Seq<RuleView>, name: Seq<char>, rule: RuleView)
    ensures
        !has_named(without(rules, name), name),
        !text::same_name(rule.process, name) && rules.contains(rule) ==> without(
            rules,
            name,
        ).contains(rule),
        !has_named(rules, name) ==> without(rules, name) == rules,
    decreases rules.len(),
{
    lemma_without(rules, name);
    lemma_first_named_bounds(without(rules, name), name);
    let w = without(rules, name);
    if has_named(w, name) {
        assert(!text::same_name(w[first_named(w, name)].process, name));
    }
    if rules.len() > 0 && !text::same_name(rule.process, name) && rules.contains(rule) {
        let front = rules.drop_last();
        a_removed_rule_is_gone(front, name, rule);
        if rules.last() == rule {
            assert(w[w.len() - 1] == rule);
        } else {
            let m = choose|m: int| 0 <= m < rules.len() && rules[m] == rule;
            assert(front[m] == rule);
            let f = without(front, name);
            let p = choose|p: int| 0 <= p < f.len() && f[p] == rule;
            assert(w[p] == rule);
        }
    }
}

/// Saving a rule for an app that had none and removing it again changes nothing.
pub proof fn removing_undoes_saving(rules: Seq<RuleView>, rule: RuleView)
    requires
        !has_named(rules, mapping::process_of(rule.process)),
    ensures
        without(upserted(rules, rule), mapping::process_of(rule.process)) == rules,
{
    let new = cleaned(rule);
    lemma_without(rules, new.process);
    if new.process.len() > 0 {
        let r = rules.push(new);
        assert(r.drop_last() =~= rules);
        assert(r.last() == new);
    }
}

/// An app has a rule exactly when some rule has its name, and its rule is the first of that name.
pub proof fn the_first_rule_of_a_name_counts(rules: Seq<RuleView>, name: Seq<char>, i: int)
    ensures
        has_named(rules, name) <==> exists|k: int|
            0 <= k < rules.len() && text::same_name(#[trigger] rules[k].process, name),
        0 <= i < rules.len() && text::same_name(rules[i].process, name) && (forall|k: int|
            0 <= k < i ==> !text::same_name(#[trigger] rules[k].process, name)) ==> first_named(
            rules,
            name,
        ) == i,
{
    lemma_first_named_bounds(rules, name);
    if exists|k: int| 0 <= k < rules.len() && text::same_name(#[trigger] rules[k].process, name) {
        let k = choose|k: int|
            0 <= k < rules.len() && text::same_name(#[trigger] rules[k].process, name);
        if !has_named(rules, name) {
            assert(!text::same_name(rules[k].process, name));
        }
    }
    if 0 <= i < rules.len() && text::same_name(rules[i].process, name) && (forall|k: int|
        0 <= k < i ==> !text::same_name(#[trigger] rules[k].process, name)) {
        lemma_first_named_is(rules, name, i);
    }
}

/// Normalizing goes rule by rule and keeps their order. Each gets the name its app goes by and
/// sliders in range, and keeps its switches; only one that names no app goes.
pub proof fn normalizing_goes_rule_by_rule(a: Seq<RuleView>, rule: RuleView, b: Seq<RuleView>)
    ensures
        normalized(a.push(rule) + b) == normalized(a) + (if mapping::process_of(rule.process).len()
            > 0 {
            seq![
                RuleView {
                    process: mapping::process_of(rule.process),
                    transparency: mapping::transparency_of(rule.transparency),
                    blur: mapping::blur_of(rule.blur),
                    enabled: rule.enabled,
                    solid_text: rule.solid_text,
                },
            ]
        } else {
            Seq::empty()
        }) + normalized(b),
        normalized(Seq::empty()).len() == 0,
    decreases b.len(),
{
    let all = a.push(rule) + b;
    if b.len() == 0 {
        assert(all =~= a.push(rule));
        assert(all.drop_last() =~= a);
        assert(normalized(b) =~= Seq::empty());
        let rest = normalized(a);
        let one = cleaned(rule);
        assert(rest.push(one) =~= rest + seq![one] + Seq::empty());
        assert(rest =~= rest + Seq::empty() + Seq::empty());
    } else {
        assert(all.drop_last() =~= a.push(rule) + b.drop_last());
        assert(all.last() == b.last());
        normalizing_goes_rule_by_rule(a, rule, b.drop_last());
        let front = normalized(all.drop_last());
        assert(normalized(all) =~= normalized(a) + (if mapping::process_of(rule.process).len() > 0 {
            seq![cleaned(rule)]
        } else {
            Seq::empty()
        }) + normalized(b));
    }
}

/// Removing an app's rules leaves the rules of all other names, in their order.
pub proof fn removing_leaves_the_others_in_order(rules: Seq<RuleView>, name: Seq<char>)
    ensures
        without(rules, name) == rules.filter(
            |rule: RuleView| !text::same_name(rule.process, name),
        ),
    decreases rules.len(),
{
    reveal(Seq::filter);
    if rules.len() > 0 {
        removing_leaves_the_others_in_order(rules.drop_last(), name);
    }
}

/// Saving a rule changes one place: where the first rule of its name stands, or the end when there
/// is none. A rule that names no app, and no rule that is there, changes nothing.
pub proof fn saving_changes_one_place(rules: Seq<RuleView>, rule: RuleView, i: int)
    requires
        0 <= i <= rules.len(),
        forall|k: int|
            0 <= k < i ==> !text::same_name(
                #[trigger] rules[k].process,
                mapping::process_of(rule.process),
            ),
        i < rules.len() ==> text::same_name(
            rules[i].process,
            mapping::process_of(rule.process),
        ),
    ensures
        ({
            let new = RuleView {
                process: mapping::process_of(rule.process),
                transparency: mapping::transparency_of(rule.transparency),
                blur: mapping::blur_of(rule.blur),
                enabled: rule.enabled,
                solid_text: rule.solid_text,
            };
            &&& i < rules.len() ==> upserted(rules, rule) == rules.update(i, new)
            &&& i == rules.len() && new.process.len() > 0 ==> upserted(rules, rule) == rules.push(
                new,
            )
            &&& i == rules.len() && new.process.len() == 0 ==> upserted(rules, rule) == rules
        }),
{
    let name = mapping::process_of(rule.process);
    lemma_first_named_bounds(rules, name);
    if i < rules.len() {
        lemma_first_named_is(rules, name, i);
    }
}

/// A saved window keeps the style it was recorded with.
pub proof fn a_record_keeps_its_style(window: PersistedWindow)
    ensures
        window.style().exstyle == window.original_exstyle,
        window.style().was_layered == window.original_layered,
        window.style().alpha == window.original_alpha,
{
}

/// Rules keep their number, order and fields as characters.
pub proof fn views_keep_every_rule(rules: Seq<Rule>)
    ensures
        views(rules).len() == rules.len(),
        forall|i: int|
            0 <= i < rules.len() ==> (#[trigger] views(rules)[i]).process == rules[i].process@
                && views(rules)[i].transparency == rules[i].transparency && views(rules)[i].blur
                == rules[i].blur && views(rules)[i].enabled == rules[i].enabled
                && views(rules)[i].solid_text == rules[i].solid_text,
{
}

} // verus!
