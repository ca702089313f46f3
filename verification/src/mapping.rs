//! Slider ranges, app names, and the decision of how a window is put back.

use crate::text::{self, Cut};
use vstd::prelude::*;
use vstd::string::*;

verus! {

/// See-through percent. 10 keeps the app readable, 70 is the most glass we allow.
pub const TRANSPARENCY_MIN: u8 = 10;

pub const TRANSPARENCY_MAX: u8 = 70;

pub const TRANSPARENCY_DEFAULT: u8 = 30;

/// Blur strength. Never zero: a rule that is on always blurs what shows through.
pub const BLUR_MIN: u8 = 1;

pub const BLUR_MAX: u8 = 100;

pub const BLUR_DEFAULT: u8 = 40;

/// The style of a window before it was faded.
#[derive(Debug, Clone, Copy, PartialEq, Eq, Structural)]
pub struct SavedStyle {
    pub exstyle: i64,
    pub was_layered: bool,
    pub alpha: u8,
}

#[derive(Debug, Clone, Copy, PartialEq, Eq, Structural)]
pub enum RestoreAction {
    /// The window was already layered. Put its previous alpha back and leave the style bit.
    KeepLayered { alpha: u8 },
    /// We added the layered bit. Take it off and ask the window to repaint.
    ClearLayered,
}

/// The Gaussian standard deviation of the glass in DIPs: `whole + part / parts`.
#[derive(Debug, Clone, Copy, PartialEq, Eq, Structural)]
pub struct BlurRadius {
    pub whole: u16,
    pub part: u16,
    pub parts: u16,
}

pub open spec fn clamped(value: int, low: int, high: int) -> int {
    if value < low {
        low
    } else if value > high {
        high
    } else {
        value
    }
}

pub open spec fn transparency_of(value: u8) -> u8 {
    clamped(value as int, TRANSPARENCY_MIN as int, TRANSPARENCY_MAX as int) as u8
}

pub open spec fn blur_of(value: u8) -> u8 {
    clamped(value as int, BLUR_MIN as int, BLUR_MAX as int) as u8
}

/// `num / den` to the nearest whole number, halves up.
pub open spec fn nearest(num: int, den: int) -> int {
    (2 * num + den) / (2 * den)
}

/// Full opacity is 255; `transparency` percent of it is taken away.
pub open spec fn alpha_of(transparency: u8) -> u8 {
    nearest(255 * (100 - transparency_of(transparency)), 100) as u8
}

/// The tint goes from 28 at the weakest blur to 200 at the strongest in 99 equal steps.
pub open spec fn tint_of(strength: u8) -> u8 {
    nearest(28 * 99 + 172 * (blur_of(strength) - 1), 99) as u8
}

/// The radius goes from 4 at the weakest blur to 48 at the strongest in 99 equal steps.
pub open spec fn radius_of(strength: u8) -> BlurRadius {
    BlurRadius {
        whole: 4,
        part: (44 * (blur_of(strength) - 1)) as u16,
        parts: 99,
    }
}

pub open spec fn action_for(saved: SavedStyle) -> RestoreAction {
    if saved.was_layered {
        RestoreAction::KeepLayered { alpha: saved.alpha }
    } else {
        RestoreAction::ClearLayered
    }
}

pub open spec fn is_separator(c: char) -> bool {
    c == '\\' || c == '/'
}

/// What follows the last separator of a path.
pub open spec fn file_part(path: Seq<char>) -> Seq<char>
    decreases path.len(),
{
    if path.len() == 0 || is_separator(path.last()) {
        Seq::empty()
    } else {
        file_part(path.drop_last()).push(path.last())
    }
}

pub open spec fn exe() -> Seq<char> {
    seq!['.', 'e', 'x', 'e']
}

pub open spec fn ends_with_exe(s: Seq<char>) -> bool {
    s.len() >= 4 && text::same_name(s.skip(s.len() - 4), exe())
}

/// The file name in `name` without the white space and quotes around it.
pub open spec fn bare_file(name: Seq<char>) -> Seq<char> {
    text::trim(file_part(text::trim(text::trim(name, Cut::Spaces), Cut::Quotes)), Cut::Spaces)
}

/// The executable that `name` stands for; empty when it holds no file name.
pub open spec fn process_of(name: Seq<char>) -> Seq<char> {
    let file = bare_file(name);
    if file.len() == 0 {
        Seq::empty()
    } else if ends_with_exe(file) {
        file
    } else {
        file + exe()
    }
}

pub fn clamp_transparency(value: u8) -> (r: u8)
    ensures
        r == transparency_of(value),
{
    if value < TRANSPARENCY_MIN {
        TRANSPARENCY_MIN
    } else if value > TRANSPARENCY_MAX {
        TRANSPARENCY_MAX
    } else {
        value
    }
}

pub fn clamp_blur(value: u8) -> (r: u8)
    ensures
        r == blur_of(value),
{
    if value < BLUR_MIN {
        BLUR_MIN
    } else if value > BLUR_MAX {
        BLUR_MAX
    } else {
        value
    }
}

/// Higher transparency means a lower window alpha (more of the glass shows through).
pub fn transparency_to_alpha(transparency: u8) -> (r: u8)
    ensures
        r == alpha_of(transparency),
{
    let t: u32 = clamp_transparency(transparency) as u32;
    let r: u32 = (2 * (255 * (100 - t)) + 100) / 200;
    r as u8
}

/// Maps the blur slider onto the Gaussian standard deviation in DIPs.
/// The visible radius is about three times this value, so the slider covers
/// roughly 12px to 144px of frost while the effect itself stays in a stable range.
pub fn blur_strength_to_radius(strength: u8) -> (r: BlurRadius)
    ensures
        r == radius_of(strength),
{
    let s: u16 = clamp_blur(strength) as u16;
    BlurRadius { whole: 4, part: (s - 1) * 44, parts: 99 }
}

/// Fallback acrylic has no radius. The slider instead picks how milky the tint is.
pub fn blur_strength_to_tint_alpha(strength: u8) -> (r: u8)
    ensures
        r == tint_of(strength),
{
    let s: u32 = clamp_blur(strength) as u32;
    let r: u32 = (2 * (28 * 99 + (s - 1) * 172) + 99) / 198;
    r as u8
}

pub fn restore_action(saved: &SavedStyle) -> (r: RestoreAction)
    ensures
        r == action_for(*saved),
{
    if saved.was_layered {
        RestoreAction::KeepLayered { alpha: saved.alpha }
    } else {
        RestoreAction::ClearLayered
    }
}

/// "chrome", "chrome.exe", and a full path all become "chrome.exe".
pub fn normalize_process(name: &str) -> (r: String)
    ensures
        r@ == process_of(name@),
{
    let chars: Vec<char> = text::chars_of(name);
    let n: usize = chars.len();
    assert(chars@.subrange(0, n as int) =~= name@);
    let (a, b) = text::trim_range(&chars, 0, n, Cut::Spaces);
    let (c, d) = text::trim_range(&chars, a, b, Cut::Quotes);
    let mut start: usize = d;
    assert(chars@.subrange(d as int, d as int) =~= Seq::<char>::empty());
    while start > c && chars[start - 1] != '\\' && chars[start - 1] != '/'
        invariant
            c <= start <= d <= chars.len(),
            file_part(chars@.subrange(c as int, d as int)) == file_part(
                chars@.subrange(c as int, start as int),
            ) + chars@.subrange(start as int, d as int),
        decreases start - c,
    {
        let ghost before = chars@.subrange(c as int, start as int);
        assert(before.drop_last() =~= chars@.subrange(c as int, start - 1));
        assert(file_part(before) + chars@.subrange(start as int, d as int) =~= file_part(
            before.drop_last(),
        ) + chars@.subrange(start - 1, d as int));
        start -= 1;
    }
    assert(file_part(chars@.subrange(c as int, d as int)) =~= chars@.subrange(
        start as int,
        d as int,
    ));
    let (lo, hi) = text::trim_range(&chars, start, d, Cut::Spaces);
    let ghost file = chars@.subrange(lo as int, hi as int);
    assert(file == bare_file(name@));
    if lo == hi {
        return String::new();
    }
    let text: &str = name.substring_char(lo, hi);
    let mut r: String = text.to_owned();
    let tail: usize = if hi - lo >= 4 {
        hi - 4
    } else {
        lo
    };
    let ends: bool = hi - lo >= 4 && text::eq_ignore_ascii_case(name.substring_char(tail, hi), ".exe");
    proof {
        reveal_strlit(".exe");
        assert(".exe"@ =~= exe());
        if hi - lo >= 4 {
            assert(file.skip(file.len() - 4) =~= name@.subrange(tail as int, hi as int));
        }
    }
    if !ends {
        r.append(".exe");
    }
    r
}

/// A clamped slider value is in its range, and a value in its range stays as it is.
pub proof fn sliders_stay_in_range(value: u8)
    ensures
        TRANSPARENCY_MIN <= transparency_of(value) <= TRANSPARENCY_MAX,
        BLUR_MIN <= blur_of(value) <= BLUR_MAX,
        TRANSPARENCY_MIN <= value <= TRANSPARENCY_MAX ==> transparency_of(value) == value,
        BLUR_MIN <= value <= BLUR_MAX ==> blur_of(value) == value,
        transparency_of(transparency_of(value)) == transparency_of(value),
        blur_of(blur_of(value)) == blur_of(value),
{
}

/// Every transparency leaves the app visible, none leaves it fully solid, and a higher one never
/// gives a higher alpha. Inside the slider's range a higher one always gives a lower alpha.
pub proof fn transparency_orders_alpha(a: u8, b: u8)
    ensures
        77 <= alpha_of(a) <= 230,
        a <= b ==> alpha_of(a) >= alpha_of(b),
        TRANSPARENCY_MIN <= a < b <= TRANSPARENCY_MAX ==> alpha_of(a) > alpha_of(b),
        alpha_of(a) == alpha_of(transparency_of(a)),
{
}

/// The blur is never zero, and inside the slider's range a stronger setting always gives a wider
/// radius and a milkier tint.
pub proof fn blur_orders_radius_and_tint(a: u8, b: u8)
    ensures
        radius_of(a).whole == 4,
        radius_of(a).part <= 44 * radius_of(a).parts,
        radius_of(a).parts == radius_of(b).parts,
        28 <= tint_of(a) <= 200,
        a <= b ==> radius_of(a).part <= radius_of(b).part && tint_of(a) <= tint_of(b),
        BLUR_MIN <= a < b <= BLUR_MAX ==> radius_of(a).part < radius_of(b).part && tint_of(a)
            < tint_of(b),
{
    let x = blur_of(a) - BLUR_MIN;
    let y = blur_of(b) - BLUR_MIN;
    assert(nearest(28 * 99 + x * 172, 99) == (2 * (28 * 99 + x * 172) + 99) / 198);
    assert(nearest(28 * 99 + y * 172, 99) == (2 * (28 * 99 + y * 172) + 99) / 198);
    assert(28 <= (2 * (28 * 99 + x * 172) + 99) / 198 <= 200);
    assert(28 <= (2 * (28 * 99 + y * 172) + 99) / 198 <= 200);
}

proof fn lemma_trim_keeps(s: Seq<char>, cut: Cut)
    requires
        s.len() > 0 ==> !text::takes(cut, s.first()) && !text::takes(cut, s.last()),
    ensures
        text::trim(s, cut) == s,
{
}

proof fn lemma_trim_back_part(s: Seq<char>, cut: Cut)
    ensures
        text::trim_back(s, cut).len() <= s.len(),
        text::trim_back(s, cut) == s.take(text::trim_back(s, cut).len() as int),
        text::trim_back(s, cut).len() > 0 ==> !text::takes(cut, text::trim_back(s, cut).last()),
    decreases s.len(),
{
    if s.len() > 0 && text::takes(cut, s.last()) {
        lemma_trim_back_part(s.drop_last(), cut);
    }
    assert(text::trim_back(s, cut) =~= s.take(text::trim_back(s, cut).len() as int));
}

proof fn lemma_trim_front_part(s: Seq<char>, cut: Cut)
    ensures
        text::trim_front(s, cut).len() <= s.len(),
        text::trim_front(s, cut) == s.skip(s.len() - text::trim_front(s, cut).len()),
        text::trim_front(s, cut).len() > 0 ==> !text::takes(cut, text::trim_front(s, cut).first()),
    decreases s.len(),
{
    if s.len() > 0 && text::takes(cut, s.first()) {
        lemma_trim_front_part(s.drop_first(), cut);
    }
    assert(text::trim_front(s, cut) =~= s.skip(s.len() - text::trim_front(s, cut).len()));
}

proof fn lemma_trim_ends(s: Seq<char>, cut: Cut)
    ensures
        text::trim(s, cut).len() > 0 ==> !text::takes(cut, text::trim(s, cut).first()) && !text::takes(
            cut,
            text::trim(s, cut).last(),
        ),
        forall|k: int| 0 <= k < text::trim(s, cut).len() ==> s.contains(#[trigger] text::trim(s, cut)[k]),
{
    let f = text::trim_front(s, cut);
    lemma_trim_front_part(s, cut);
    lemma_trim_back_part(f, cut);
    assert forall|k: int| 0 <= k < text::trim(s, cut).len() implies s.contains(
        #[trigger] text::trim(s, cut)[k],
    ) by {
        assert(text::trim(s, cut)[k] == f[k]);
        assert(f[k] == s[s.len() - f.len() + k]);
    }
}

proof fn lemma_file_part(s: Seq<char>)
    ensures
        forall|k: int| 0 <= k < file_part(s).len() ==> !is_separator(#[trigger] file_part(s)[k]),
    decreases s.len(),
{
    if s.len() > 0 && !is_separator(s.last()) {
        let front = file_part(s.drop_last());
        lemma_file_part(s.drop_last());
        assert forall|k: int| 0 <= k < file_part(s).len() implies !is_separator(
            #[trigger] file_part(s)[k],
        ) by {
            if k < front.len() {
                assert(file_part(s)[k] == front[k]);
            }
        }
    }
}

proof fn lemma_file_part_whole(s: Seq<char>)
    requires
        forall|k: int| 0 <= k < s.len() ==> !is_separator(#[trigger] s[k]),
    ensures
        file_part(s) == s,
    decreases s.len(),
{
    if s.len() > 0 {
        lemma_file_part_whole(s.drop_last());
        assert(file_part(s) =~= s);
    }
}

/// A normalized name is empty or a file name that ends in ".exe", with no separator in it and no
/// white space around it.
pub proof fn normalized_names_are_executables(name: Seq<char>)
    ensures
        process_of(name).len() > 0 ==> ends_with_exe(process_of(name)),
        process_of(name).len() > 0 ==> !text::is_space(process_of(name).first()) && !text::is_space(
            process_of(name).last(),
        ),
        forall|k: int|
            0 <= k < process_of(name).len() ==> !is_separator(#[trigger] process_of(name)[k]),
{
    let t = text::trim(text::trim(name, Cut::Spaces), Cut::Quotes);
    let file = bare_file(name);
    lemma_file_part(t);
    lemma_trim_ends(file_part(t), Cut::Spaces);
    assert forall|k: int| 0 <= k < file.len() implies !is_separator(#[trigger] file[k]) by {
        assert(file_part(t).contains(file[k]));
    }
    if file.len() > 0 && !ends_with_exe(file) {
        let r = file + exe();
        assert(r.skip(r.len() - 4) =~= exe());
        assert(r.first() == file.first());
    }
}

/// Normalizing a normalized name changes nothing, unless the name still starts with a quote.
pub proof fn normalizing_twice_changes_nothing(name: Seq<char>)
    requires
        process_of(name).len() > 0 ==> process_of(name).first() != '"',
    ensures
        process_of(process_of(name)) == process_of(name),
{
    let r = process_of(name);
    normalized_names_are_executables(name);
    if r.len() > 0 {
        let tail = r.skip(r.len() - 4);
        assert(text::folded(tail)[3] == text::folded(exe())[3]);
        assert(text::fold(tail[3]) == text::fold('e'));
        assert(r.last() == tail[3]);
        lemma_trim_keeps(r, Cut::Spaces);
        lemma_trim_keeps(r, Cut::Quotes);
        lemma_file_part_whole(r);
    }
}

proof fn lemma_trim_front_tail(a: Seq<char>, b: Seq<char>, cut: Cut)
    requires
        b.len() > 0,
        !text::takes(cut, b.first()),
    ensures
        exists|c: Seq<char>| text::trim_front(a + b, cut) == #[trigger] (c + b),
    decreases a.len(),
{
    if a.len() == 0 {
        assert(a + b =~= b);
        assert(text::trim_front(a + b, cut) =~= Seq::<char>::empty() + b);
    } else if text::takes(cut, a.first()) {
        assert((a + b).drop_first() =~= a.drop_first() + b);
        lemma_trim_front_tail(a.drop_first(), b, cut);
    } else {
        assert((a + b).first() == a.first());
        assert(text::trim_front(a + b, cut) == a + b);
    }
}

proof fn lemma_trim_back_tail(a: Seq<char>, b: Seq<char>, cut: Cut)
    requires
        a.len() > 0,
        !text::takes(cut, a.last()),
    ensures
        text::trim_back(a + b, cut) == a + text::trim_back(b, cut),
    decreases b.len(),
{
    if b.len() == 0 {
        assert(a + b =~= a);
        assert(a + text::trim_back(b, cut) =~= a);
    } else {
        assert((a + b).last() == b.last());
        if text::takes(cut, b.last()) {
            assert((a + b).drop_last() =~= a + b.drop_last());
            lemma_trim_back_tail(a, b.drop_last(), cut);
        }
    }
}

proof fn lemma_file_part_after(a: Seq<char>, b: Seq<char>)
    requires
        a.len() > 0,
        is_separator(a.last()),
        forall|k: int| 0 <= k < b.len() ==> !is_separator(#[trigger] b[k]),
    ensures
        file_part(a + b) == b,
    decreases b.len(),
{
    if b.len() == 0 {
        assert(a + b =~= a);
        assert(file_part(a) =~= b);
    } else {
        assert((a + b).drop_last() =~= a + b.drop_last());
        lemma_file_part_after(a, b.drop_last());
        assert(file_part(a + b) =~= b);
    }
}

/// Cutting both kinds of ends off a path: what is left ends in the separator and the trimmed tail.
proof fn lemma_trimmed_path(dir: Seq<char>, sep: char, tail: Seq<char>, cut: Cut)
    requires
        is_separator(sep),
    ensures
        exists|d: Seq<char>|
            text::trim(dir + seq![sep] + tail, cut) == #[trigger] (d.push(sep)) + text::trim_back(tail, cut),
{
    let b = seq![sep] + tail;
    assert(dir + seq![sep] + tail =~= dir + b);
    lemma_trim_front_tail(dir, b, cut);
    let c = choose|c: Seq<char>| text::trim_front(dir + b, cut) == #[trigger] (c + b);
    let head = c.push(sep);
    assert(c + b =~= head + tail);
    lemma_trim_back_tail(head, tail, cut);
    assert(text::trim(dir + seq![sep] + tail, cut) == c.push(sep) + text::trim_back(tail, cut));
}

/// A full path gives the same name as its file name alone, when the file name holds no separator
/// and starts with neither white space nor a quote.
pub proof fn the_folder_does_not_matter(dir: Seq<char>, sep: char, name: Seq<char>)
    requires
        is_separator(sep),
        forall|k: int| 0 <= k < name.len() ==> !is_separator(#[trigger] name[k]),
        name.len() > 0 ==> !text::is_space(name.first()) && name.first() != '"',
    ensures
        process_of(dir + seq![sep] + name) == process_of(name),
{
    let path = dir + seq![sep] + name;
    lemma_trimmed_path(dir, sep, name, Cut::Spaces);
    let d1 = choose|d: Seq<char>|
        text::trim(path, Cut::Spaces) == #[trigger] (d.push(sep)) + text::trim_back(name, Cut::Spaces);
    let n1 = text::trim_back(name, Cut::Spaces);
    assert(d1.push(sep) + n1 =~= d1 + seq![sep] + n1);
    lemma_trimmed_path(d1, sep, n1, Cut::Quotes);
    let n2 = text::trim_back(n1, Cut::Quotes);
    let d2 = choose|d: Seq<char>|
        text::trim(d1 + seq![sep] + n1, Cut::Quotes) == #[trigger] (d.push(sep)) + n2;
    lemma_trim_back_part(name, Cut::Spaces);
    lemma_trim_back_part(n1, Cut::Quotes);
    assert forall|k: int| 0 <= k < n2.len() implies !is_separator(#[trigger] n2[k]) by {
        assert(n2[k] == name[k]);
    }
    lemma_file_part_after(d2.push(sep), n2);
    lemma_file_part_whole(n2);
    if name.len() > 0 {
        assert(n1.len() > 0 ==> n1.first() == name.first());
        assert(text::trim(name, Cut::Spaces) == n1);
        assert(text::trim(n1, Cut::Quotes) == n2);
    }
}

/// A slider value goes to the nearest one in its range: from 10 to 70 for the transparency and
/// from 1 to 100 for the blur.
pub proof fn sliders_go_to_the_nearest_value(value: u8, other: u8)
    ensures
        10 <= transparency_of(value) <= 70,
        1 <= blur_of(value) <= 100,
        10 <= other <= 70 ==> (if transparency_of(value) < value {
            value - transparency_of(value)
        } else {
            transparency_of(value) - value
        }) <= (if other < value {
            value - other
        } else {
            other - value
        }),
        1 <= other <= 100 ==> (if blur_of(value) < value {
            value - blur_of(value)
        } else {
            blur_of(value) - value
        }) <= (if other < value {
            value - other
        } else {
            other - value
        }),
{
}

/// The alpha is what the transparency leaves of 255, to the nearest whole number, and a half goes
/// up.
pub proof fn the_alpha_is_what_is_left(transparency: u8)
    requires
        10 <= transparency <= 70,
    ensures
        -50 < 100 * alpha_of(transparency) - 255 * (100 - transparency) <= 50,
{
    let left = 255 * (100 - transparency);
    let n = (2 * left + 100) / 200;
    assert(transparency_of(transparency) == transparency);
    assert(alpha_of(transparency) == n as u8);
    assert(0 <= n <= 255);
}

/// The radius grows from 4 to 48 and the tint from 28 to 200, in equal steps from one blur to the
/// next. The tint is the nearest whole number.
pub proof fn the_blur_grows_in_equal_steps(strength: u8)
    requires
        1 <= strength <= 100,
    ensures
        ({
            let radius = radius_of(strength);
            &&& radius.parts > 0
            &&& 99 * (radius.whole * radius.parts + radius.part) == radius.parts * (4 * 99 + 44 * (
            strength - 1))
            &&& -99 <= 2 * (99 * tint_of(strength) - (28 * 99 + 172 * (strength - 1))) <= 99
        }),
{
}

/// A window that was layered keeps the bit and gets its alpha back; one that was not loses it.
pub proof fn a_window_is_put_back_as_it_was(saved: SavedStyle)
    ensures
        saved.was_layered ==> action_for(saved) == (RestoreAction::KeepLayered {
            alpha: saved.alpha,
        }),
        !saved.was_layered ==> action_for(saved) == RestoreAction::ClearLayered,
{
}

/// A plain file name stands for itself when it ends in ".exe", in capital or small letters, and
/// gets that ending when it does not.
pub proof fn a_plain_name_gets_its_ending(name: Seq<char>)
    requires
        name.len() > 0,
        forall|k: int| 0 <= k < name.len() ==> #[trigger] name[k] != '\\' && name[k] != '/',
        !text::is_space(name.first()) && !text::is_space(name.last()),
        name.first() != '"' && name.last() != '"',
    ensures
        (exists|start: Seq<char>, end: Seq<char>| #[trigger] (start + end) == name
            && text::same_name(end, seq!['.', 'e', 'x', 'e'])) ==> process_of(name) == name,
        !(exists|start: Seq<char>, end: Seq<char>| #[trigger] (start + end) == name
            && text::same_name(end, seq!['.', 'e', 'x', 'e'])) ==> process_of(name) == name + seq![
            '.',
            'e',
            'x',
            'e',
        ],
{
    let dot = seq!['.', 'e', 'x', 'e'];
    lemma_trim_keeps(name, Cut::Spaces);
    lemma_trim_keeps(name, Cut::Quotes);
    lemma_file_part_whole(name);
    assert(bare_file(name) == name);
    if exists|start: Seq<char>, end: Seq<char>| #[trigger] (start + end) == name
        && text::same_name(end, dot) {
        let (start, end) = choose|start: Seq<char>, end: Seq<char>| #[trigger] (start + end) == name
            && text::same_name(end, dot);
        assert(text::folded(end).len() == end.len());
        assert(text::folded(dot).len() == 4);
        assert(name.skip(name.len() - 4) =~= end);
    } else if ends_with_exe(name) {
        let start = name.take(name.len() - 4);
        let end = name.skip(name.len() - 4);
        assert(start + end =~= name);
    }
}

/// White space around a name does not matter, nor do quotes in front or at the end of one that has
/// no white space there.
pub proof fn what_stands_around_a_name_does_not_matter(name: Seq<char>, c: char)
    ensures
        text::is_space(c) ==> process_of(seq![c] + name) == process_of(name) && process_of(
            name.push(c),
        ) == process_of(name),
        name.len() > 0 && !text::is_space(name.first()) && !text::is_space(name.last())
            ==> process_of(seq!['"'] + name) == process_of(name) && process_of(name.push('"'))
            == process_of(name),
        process_of(Seq::empty()).len() == 0,
{
    let front = seq![c] + name;
    assert(front.drop_first() =~= name);
    assert(front.first() == c);
    if text::is_space(c) {
        lemma_trim_one_more(name, c, Cut::Spaces);
    }
    if name.len() > 0 && !text::is_space(name.first()) && !text::is_space(name.last()) {
        let quoted = seq!['"'] + name;
        let ended = name.push('"');
        assert(quoted.drop_first() =~= name);
        assert(quoted.first() == '"');
        assert(quoted.last() == name.last());
        assert(ended.first() == name.first());
        lemma_trim_keeps(name, Cut::Spaces);
        lemma_trim_keeps(quoted, Cut::Spaces);
        lemma_trim_keeps(ended, Cut::Spaces);
        lemma_trim_one_more(name, '"', Cut::Quotes);
    }
}

/// One more character at the end that is cut off anyway changes nothing.
proof fn lemma_trim_one_more(s: Seq<char>, c: char, cut: Cut)
    requires
        text::takes(cut, c),
    ensures
        text::trim(s.push(c), cut) == text::trim(s, cut),
    decreases s.len(),
{
    let more = s.push(c);
    if s.len() > 0 && text::takes(cut, s.first()) {
        assert(more.drop_first() =~= s.drop_first().push(c));
        assert(more.first() == s.first());
        lemma_trim_one_more(s.drop_first(), c, cut);
    } else if s.len() > 0 {
        assert(more.first() == s.first());
        assert(more.drop_last() =~= s);
    } else {
        assert(more.drop_first() =~= s);
        assert(more.first() == c);
    }
}

/// A path stands for the app that its last part names, with backslashes or slashes, also when the
/// path ends in one and names none.
pub proof fn a_path_stands_for_its_last_part(dir: Seq<char>, sep: char, name: Seq<char>)
    requires
        sep == '\\' || sep == '/',
        forall|k: int| 0 <= k < name.len() ==> #[trigger] name[k] != '\\' && name[k] != '/',
        name.len() > 0 ==> !text::is_space(name.first()) && name.first() != '"',
    ensures
        process_of(dir + seq![sep] + name) == process_of(name),
        forall|k: int|
            0 <= k < process_of(dir + seq![sep] + name).len() ==> #[trigger] process_of(
                dir + seq![sep] + name,
            )[k] != '\\' && process_of(dir + seq![sep] + name)[k] != '/',
{
    the_folder_does_not_matter(dir, sep, name);
    normalized_names_are_executables(name);
    let r = process_of(dir + seq![sep] + name);
    assert forall|k: int| 0 <= k < r.len() implies #[trigger] r[k] != '\\' && r[k] != '/' by {
        assert(!is_separator(process_of(name)[k]));
    }
}

/// In a path the name stands behind the last separator. Blanks in front of it do not belong to it;
/// a quote in front of it does.
pub proof fn the_name_stands_behind_the_last_separator(
    dir: Seq<char>,
    sep: char,
    blanks: Seq<char>,
    file: Seq<char>,
)
    requires
        sep == '\\' || sep == '/',
        !text::is_space(dir.push(sep).first()) && dir.push(sep).first() != '"',
        forall|k: int| 0 <= k < blanks.len() ==> text::is_space(#[trigger] blanks[k]),
        file.len() > 0,
        forall|k: int| 0 <= k < file.len() ==> #[trigger] file[k] != '\\' && file[k] != '/',
        !text::is_space(file.first()) && !text::is_space(file.last()) && file.last() != '"',
    ensures
        (exists|start: Seq<char>, end: Seq<char>| #[trigger] (start + end) == file
            && text::same_name(end, seq!['.', 'e', 'x', 'e'])) ==> process_of(
            dir.push(sep) + (blanks + file),
        ) == file,
        !(exists|start: Seq<char>, end: Seq<char>| #[trigger] (start + end) == file
            && text::same_name(end, seq!['.', 'e', 'x', 'e'])) ==> process_of(
            dir.push(sep) + (blanks + file),
        ) == file + seq!['.', 'e', 'x', 'e'],
{
    let dot = seq!['.', 'e', 'x', 'e'];
    let tail = blanks + file;
    let path = dir.push(sep) + tail;
    assert(path.first() == dir.push(sep).first());
    assert(path.last() == file.last());
    lemma_trim_keeps(path, Cut::Spaces);
    lemma_trim_keeps(path, Cut::Quotes);
    assert forall|k: int| 0 <= k < tail.len() implies !is_separator(#[trigger] tail[k]) by {
        if k < blanks.len() {
            assert(text::is_space(blanks[k]));
        } else {
            assert(file[k - blanks.len()] != '\\');
        }
    }
    lemma_file_part_after(dir.push(sep), tail);
    assert(tail =~= blanks + file + Seq::empty());
    text::trimming_takes_the_ends(blanks, file, Seq::empty());
    assert(bare_file(path) == file);
    if exists|start: Seq<char>, end: Seq<char>| #[trigger] (start + end) == file
        && text::same_name(end, dot) {
        let (start, end) = choose|start: Seq<char>, end: Seq<char>| #[trigger] (start + end) == file
            && text::same_name(end, dot);
        assert(text::folded(end).len() == end.len());
        assert(text::folded(dot).len() == 4);
        assert(file.skip(file.len() - 4) =~= end);
    } else if ends_with_exe(file) {
        let start = file.take(file.len() - 4);
        let end = file.skip(file.len() - 4);
        assert(start + end =~= file);
    }
}

} // verus!
