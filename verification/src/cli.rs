//! The command line.

use crate::mapping;
use crate::rules::{self, Rule, RuleView, Store, StoreView};
use crate::target::{self, AppGroup, GroupView};
use crate::text;
use vstd::prelude::*;
use vstd::string::*;

verus! {

/// One app in the list: its name in 28 columns, how many windows it has, and whether it runs as
/// administrator.
pub open spec fn group_line(group: GroupView) -> Seq<char> {
    text::pad_end(group.process, 28) + " "@ + text::pad_start(text::digits(group.windows), 2)
        + " window"@ + if group.windows == 1 {
        " "@
    } else {
        "s"@
    } + if group.elevated {
        "  administrator"@
    } else {
        ""@
    }
}

/// The lines for one app: itself, and the title of a window if there is one.
pub open spec fn group_lines(group: GroupView) -> Seq<Seq<char>> {
    if group.sample_title.len() == 0 {
        seq![group_line(group)]
    } else {
        seq![group_line(group), "  "@ + group.sample_title]
    }
}

pub open spec fn all_lines(groups: Seq<GroupView>) -> Seq<Seq<char>>
    decreases groups.len(),
{
    if groups.len() == 0 {
        Seq::empty()
    } else {
        all_lines(groups.drop_last()) + group_lines(groups.last())
    }
}

fn line_for(group: &AppGroup) -> (r: String)
    ensures
        r@ == group_line(group@),
{
    let mut r: String = text::padded_end(group.process.as_str(), 28);
    let number: String = text::decimal(group.windows as u64);
    let count: String = text::padded_start(number.as_str(), 2);
    r.append(" ");
    r.append(count.as_str());
    r.append(" window");
    if group.windows == 1 {
        r.append(" ");
    } else {
        r.append("s");
    }
    if group.elevated {
        r.append("  administrator");
    } else {
        r.append("");
    }
    r
}

/// The lines that list the apps Blurman can frost.
pub fn list(groups: &Vec<AppGroup>) -> (r: Vec<String>)
    ensures
        text::views(r@) == all_lines(target::group_views(groups@)),
{
    let mut r: Vec<String> = Vec::new();
    let ghost views = target::group_views(groups@);
    let mut i: usize = 0;
    assert(text::views(r@) =~= all_lines(views.take(0)));
    while i < groups.len()
        invariant
            i <= groups@.len(),
            views == target::group_views(groups@),
            text::views(r@) == all_lines(views.take(i as int)),
        decreases groups.len() - i,
    {
        let group: &AppGroup = &groups[i];
        let ghost was = r@;
        r.push(line_for(group));
        if group.sample_title.as_str().unicode_len() > 0 {
            r.push(text::joined("  ", group.sample_title.as_str()));
        }
        proof {
            assert(views.take(i + 1).drop_last() =~= views.take(i as int));
            assert(views.take(i + 1).last() == group@);
            assert(text::views(r@) =~= text::views(was) + group_lines(group@));
        }
        i += 1;
    }
    assert(views.take(i as int) =~= views);
    r
}

/// A rule for an app, with the look asked for and text left to fade.
pub open spec fn rule_for(process: Seq<char>, transparency: u8, blur: u8) -> RuleView {
    RuleView {
        process: mapping::process_of(process),
        transparency: mapping::transparency_of(transparency),
        blur: mapping::blur_of(blur),
        enabled: true,
        solid_text: false,
    }
}

/// Puts a rule for an app in the store and resumes the rules. Gives the rule as it was saved.
pub fn apply(store: &mut Store, process: &str, transparency: u8, blur: u8) -> (r: Result<
    Rule,
    String,
>)
    ensures
        r is Ok <==> mapping::process_of(process@).len() > 0,
        match r {
            Ok(rule) => rule@ == rule_for(process@, transparency, blur) && final(store)@
                == (StoreView {
                paused: false,
                rules: rules::upserted(old(store)@.rules, rule@),
            }),
            Err(text) => text@ == "Give an app name, like chrome.exe."@ && final(store)@
                == old(store)@,
        },
{
    let rule: Rule = rules::new_rule(process, transparency, blur, false);
    if rule.process.as_str().unicode_len() == 0 {
        return Err("Give an app name, like chrome.exe.".to_owned());
    }
    store.paused = false;
    let saved: Rule = rule.clone();
    store.upsert(rule);
    Ok(saved)
}

/// What to print when a rule was saved.
pub fn applied(rule: &Rule) -> (r: String)
    ensures
        r@ == "Frosting "@ + rule@.process + " at transparency "@ + text::digits(
            rule@.transparency as nat,
        ) + " and blur "@ + text::digits(rule@.blur as nat) + "."@,
{
    let transparency: String = text::decimal(rule.transparency as u64);
    let blur: String = text::decimal(rule.blur as u64);
    let mut r: String = text::joined("Frosting ", rule.process.as_str());
    r.append(" at transparency ");
    r.append(transparency.as_str());
    r.append(" and blur ");
    r.append(blur.as_str());
    r.append(".");
    r
}

/// Takes the rule of one app out of the store, or every rule. Gives what to print when the app had
/// none.
pub fn clear(store: &mut Store, process: Option<&str>, all: bool) -> (r: Option<String>)
    ensures
        process is Some && !all ==> {
            &&& final(store)@ == (StoreView {
                paused: old(store)@.paused,
                rules: rules::without(old(store)@.rules, mapping::process_of(process->0@)),
            })
            &&& r is Some <==> !rules::has_named(
                old(store)@.rules,
                mapping::process_of(process->0@),
            )
            &&& r matches Some(text) ==> text@ == mapping::process_of(process->0@)
                + " had no rule."@
        },
        !(process is Some && !all) ==> r is None && final(store)@ == (StoreView {
            paused: false,
            rules: Seq::empty(),
        }),
{
    match process {
        Some(process) => {
            if !all {
                if store.remove(process) {
                    return None;
                }
                let name: String = mapping::normalize_process(process);
                return Some(text::joined(name.as_str(), " had no rule."));
            }
        },
        None => {},
    }
    store.clear();
    None
}

/// The list goes app by app, in their order: one line for each, and one more with the title of a
/// window where there is one.
pub proof fn apps_are_listed_one_by_one(a: Seq<GroupView>, group: GroupView, b: Seq<GroupView>)
    ensures
        all_lines(a.push(group) + b) == all_lines(a) + (if group.sample_title.len() == 0 {
            seq![group_line(group)]
        } else {
            seq![group_line(group), "  "@ + group.sample_title]
        }) + all_lines(b),
        all_lines(Seq::empty()).len() == 0,
    decreases b.len(),
{
    let all = a.push(group) + b;
    if b.len() == 0 {
        assert(all =~= a.push(group));
        assert(all.drop_last() =~= a);
        assert(all_lines(b) =~= Seq::empty());
        assert(all_lines(all) =~= all_lines(a) + group_lines(group) + all_lines(b));
    } else {
        assert(all.drop_last() =~= a.push(group) + b.drop_last());
        assert(all.last() == b.last());
        apps_are_listed_one_by_one(a, group, b.drop_last());
        assert(all_lines(all) =~= all_lines(a) + group_lines(group) + all_lines(b));
    }
}

/// The line of an app holds its name in 28 columns, the number of its windows in two, the word for
/// them in seven, and a mark when one of them runs as administrator.
pub proof fn a_line_holds_the_name_and_the_count(group: GroupView)
    ensures
        group_line(group) == text::pad_end(group.process, 28) + " "@ + text::pad_start(
            text::digits(group.windows),
            2,
        ) + (if group.windows == 1 {
            " window "@
        } else {
            " windows"@
        }) + (if group.elevated {
            "  administrator"@
        } else {
            ""@
        }),
{
    reveal_strlit(" window");
    reveal_strlit(" window ");
    reveal_strlit(" windows");
    reveal_strlit(" ");
    reveal_strlit("s");
    assert(" window"@ + " "@ =~= " window "@);
    assert(" window"@ + "s"@ =~= " windows"@);
    let start = text::pad_end(group.process, 28) + " "@ + text::pad_start(
        text::digits(group.windows),
        2,
    );
    let word = if group.windows == 1 {
        " "@
    } else {
        "s"@
    };
    assert(start + " window"@ + word =~= start + (" window"@ + word));
}

/// A rule from the command line is for the app it names, with the look asked for. It is on, and
/// text fades with the app.
pub proof fn a_rule_has_the_look_asked_for(process: Seq<char>, transparency: u8, blur: u8)
    ensures
        rule_for(process, transparency, blur).process == mapping::process_of(process),
        rule_for(process, transparency, blur).transparency == mapping::transparency_of(
            transparency,
        ),
        rule_for(process, transparency, blur).blur == mapping::blur_of(blur),
        rule_for(process, transparency, blur).enabled,
        !rule_for(process, transparency, blur).solid_text,
{
}

} // verus!
