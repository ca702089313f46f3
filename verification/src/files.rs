//! Where Blurman keeps its files, and how it writes them.

use crate::text;
use vstd::prelude::*;
use vstd::string::*;

verus! {

/// What a path starts from.
#[derive(Debug, Clone, Copy, PartialEq, Eq, Structural)]
pub enum Base {
    /// The folder where apps of this user keep their settings.
    Config,
    /// The current folder, when there is no such folder.
    Here,
}

/// A path, as the names to follow from its base.
pub struct FilePath {
    pub base: Base,
    pub names: Vec<String>,
}

pub struct PathView {
    pub base: Base,
    pub names: Seq<Seq<char>>,
}

impl View for FilePath {
    type V = PathView;

    open spec fn view(&self) -> PathView {
        PathView { base: self.base, names: text::views(self.names@) }
    }
}

impl PathView {
    pub open spec fn join(self, name: Seq<char>) -> PathView {
        PathView { base: self.base, names: self.names.push(name) }
    }

    pub open spec fn parent(self) -> PathView {
        PathView { base: self.base, names: self.names.drop_last() }
    }

    /// The path ends in the name of a file.
    pub open spec fn names_a_file(self) -> bool {
        self.names.len() > 0 && is_file_name(self.names.last())
    }

    /// With another ending on the last name.
    pub open spec fn with_ending(self, ending: Seq<char>) -> PathView {
        self.parent().join(stem(self.names.last()) + "."@ + ending)
    }
}

/// A name is one step of a path: it holds no separator, starts with no drive, and does not stand
/// for the folder itself or the one above it.
pub open spec fn is_file_name(name: Seq<char>) -> bool {
    &&& name.len() > 0
    &&& forall|i: int| 0 <= i < name.len() ==> #[trigger] name[i] != '/' && name[i] != '\\'
    &&& name.len() > 1 ==> name[1] != ':'
    &&& name != seq!['.']
    &&& name != seq!['.', '.']
}

pub open spec fn dir_of(config: bool) -> PathView {
    PathView {
        base: if config {
            Base::Config
        } else {
            Base::Here
        },
        names: seq!["Blurman"@],
    }
}

/// The place of the last dot, or -1.
pub open spec fn last_dot(name: Seq<char>) -> int
    decreases name.len(),
{
    if name.len() == 0 {
        -1
    } else if name.last() == '.' {
        name.len() - 1
    } else {
        last_dot(name.drop_last())
    }
}

/// The name up to its last dot. A dot in front does not count.
pub open spec fn stem(name: Seq<char>) -> Seq<char> {
    if last_dot(name) > 0 {
        name.take(last_dot(name))
    } else {
        name
    }
}

/// The folder of Blurman's files. `config` says whether the user has a folder for settings.
pub fn app_dir(config: bool) -> (r: FilePath)
    ensures
        r@ == dir_of(config),
{
    let mut names: Vec<String> = Vec::new();
    names.push("Blurman".to_owned());
    let r = FilePath {
        base: if config {
            Base::Config
        } else {
            Base::Here
        },
        names,
    };
    assert(r@.names =~= dir_of(config).names);
    r
}

proof fn lemma_file_name(name: Seq<char>)
    requires
        name.len() > 2,
        forall|i: int| 0 <= i < name.len() ==> #[trigger] name[i] != '/' && name[i] != '\\',
        name[1] != ':',
    ensures
        is_file_name(name),
{
    assert(seq!['.'].len() == 1);
    assert(seq!['.', '.'].len() == 2);
}

fn in_app_dir(config: bool, name: &str) -> (r: FilePath)
    ensures
        r@ == dir_of(config).join(name@),
{
    let mut r: FilePath = app_dir(config);
    let ghost dir = r@;
    r.names.push(name.to_owned());
    assert(r@.names =~= dir.names.push(name@));
    r
}

pub fn settings_path(config: bool) -> (r: FilePath)
    ensures
        r@ == dir_of(config).join("settings.json"@),
        r@.names_a_file(),
{
    proof {
        reveal_strlit("settings.json");
        lemma_file_name("settings.json"@);
    }
    in_app_dir(config, "settings.json")
}

pub fn rules_path(config: bool) -> (r: FilePath)
    ensures
        r@ == dir_of(config).join("rules.json"@),
        r@.names_a_file(),
{
    proof {
        reveal_strlit("rules.json");
        lemma_file_name("rules.json"@);
    }
    in_app_dir(config, "rules.json")
}

pub fn state_path(config: bool) -> (r: FilePath)
    ensures
        r@ == dir_of(config).join("state.json"@),
        r@.names_a_file(),
{
    proof {
        reveal_strlit("state.json");
        lemma_file_name("state.json"@);
    }
    in_app_dir(config, "state.json")
}

fn name_stem(name: &str) -> (r: String)
    ensures
        r@ == stem(name@),
{
    let len: usize = name.unicode_len();
    let mut i: usize = len;
    assert(name@.take(len as int) =~= name@);
    while i > 0 && name.get_char(i - 1) != '.'
        invariant
            i <= len,
            len == name@.len(),
            last_dot(name@) == last_dot(name@.take(i as int)),
        decreases i,
    {
        assert(name@.take(i as int).drop_last() =~= name@.take(i - 1));
        i -= 1;
    }
    if i > 1 {
        assert(name@.take(i as int).last() == '.');
        let r: String = name.substring_char(0, i - 1).to_owned();
        assert(r@ =~= name@.take(i - 1));
        r
    } else {
        if i == 1 {
            assert(name@.take(1).last() == '.');
        }
        name.to_owned()
    }
}

/// One step of writing a file.
pub enum Step {
    CreateDir(FilePath),
    /// Write the whole text to this file.
    Write(FilePath),
    /// Give the first file the name of the second, in its place.
    Rename(FilePath, FilePath),
}

pub enum StepView {
    CreateDir(PathView),
    Write(PathView),
    Rename(PathView, PathView),
}

impl View for Step {
    type V = StepView;

    open spec fn view(&self) -> StepView {
        match self {
            Step::CreateDir(dir) => StepView::CreateDir(dir@),
            Step::Write(path) => StepView::Write(path@),
            Step::Rename(from, to) => StepView::Rename(from@, to@),
        }
    }
}

pub open spec fn step_views(steps: Seq<Step>) -> Seq<StepView> {
    steps.map_values(|s: Step| s@)
}

pub open spec fn write_steps(path: PathView) -> Seq<StepView> {
    let temp = path.with_ending("json.tmp"@);
    seq![
        StepView::CreateDir(path.parent()),
        StepView::Write(temp),
        StepView::Rename(temp, path),
    ]
}

fn copy_of(path: &FilePath, names: usize) -> (r: FilePath)
    requires
        names <= path.names@.len(),
    ensures
        r@ == (PathView { base: path@.base, names: path@.names.take(names as int) }),
{
    let mut copy: Vec<String> = Vec::new();
    let mut i: usize = 0;
    while i < names
        invariant
            i <= names <= path.names@.len(),
            copy@.len() == i,
            forall|j: int| 0 <= j < i ==> (#[trigger] copy@[j])@ == path.names@[j]@,
        decreases names - i,
    {
        copy.push(path.names[i].clone());
        i += 1;
    }
    let r = FilePath { base: path.base, names: copy };
    assert(r@.names =~= path@.names.take(names as int));
    r
}

/// Whether a path ends in the name of a file.
pub fn names_a_file(path: &FilePath) -> (r: bool)
    ensures
        r == path@.names_a_file(),
{
    if path.names.len() == 0 {
        return false;
    }
    let name: &str = path.names[path.names.len() - 1].as_str();
    assert(path@.names.last() == name@);
    let len: usize = name.unicode_len();
    if len == 0 {
        return false;
    }
    let mut i: usize = 0;
    while i < len
        invariant
            i <= len,
            len == name@.len(),
            path.names@.len() > 0,
            path@.names.last() == name@,
            forall|k: int| 0 <= k < i ==> #[trigger] name@[k] != '/' && name@[k] != '\\',
        decreases len - i,
    {
        let c: char = name.get_char(i);
        if c == '/' || c == '\\' {
            assert(name@[i as int] == c);
            return false;
        }
        i += 1;
    }
    if len > 1 && name.get_char(1) == ':' {
        return false;
    }
    let dot: bool = name.get_char(0) == '.';
    let dots: bool = dot && len == 2 && name.get_char(1) == '.';
    assert(name@ == seq!['.'] <==> dot && len == 1) by {
        if dot && len == 1 {
            assert(name@ =~= seq!['.']);
        }
    }
    assert(name@ == seq!['.', '.'] <==> dots) by {
        if dots {
            assert(name@ =~= seq!['.', '.']);
        }
    }
    !(dot && len == 1) && !dots
}

/// How to write a file: to a file next to it first, which is renamed when it is complete.
/// Readers never see a half-written file, so a reload mid-save cannot wipe the rules.
pub fn write_atomic(path: FilePath) -> (r: Vec<Step>)
    requires
        path@.names_a_file(),
    ensures
        step_views(r@) == write_steps(path@),
{
    let last: usize = path.names.len() - 1;
    let dir: FilePath = copy_of(&path, last);
    let mut temp: FilePath = copy_of(&path, last);
    let ghost parent = temp@;
    let mut name: String = name_stem(path.names[last].as_str());
    name.append(".");
    name.append("json.tmp");
    temp.names.push(name);
    let again: FilePath = copy_of(&temp, temp.names.len());
    assert(parent.names =~= path@.names.drop_last());
    assert(temp@.names =~= path@.with_ending("json.tmp"@).names);
    assert(again@.names =~= temp@.names);
    let r: Vec<Step> = vec![Step::CreateDir(dir), Step::Write(temp), Step::Rename(again, path)];
    assert(step_views(r@) =~= write_steps(path@));
    r
}

/// The texts of the files on a disk.
pub type Disk = Map<PathView, Seq<char>>;

pub open spec fn disk_after(disk: Disk, step: StepView, text: Seq<char>) -> Disk {
    match step {
        StepView::CreateDir(_) => disk,
        StepView::Write(path) => disk.insert(path, text),
        StepView::Rename(from, to) => if disk.contains_key(from) {
            disk.insert(to, disk[from]).remove(from)
        } else {
            disk
        },
    }
}

/// A disk that a step may leave behind when it is cut off in the middle. A rename happens as a
/// whole; a write may have written anything.
pub open spec fn cut_off(disk: Disk, step: StepView, part: Seq<char>) -> Disk {
    match step {
        StepView::Write(path) => disk.insert(path, part),
        _ => disk,
    }
}

proof fn lemma_last_dot(name: Seq<char>, at: int)
    requires
        0 <= at < name.len(),
        name[at] == '.',
        forall|i: int| at < i < name.len() ==> #[trigger] name[i] != '.',
    ensures
        last_dot(name) == at,
    decreases name.len(),
{
    if at < name.len() - 1 {
        assert(name[name.len() - 1] != '.');
        lemma_last_dot(name.drop_last(), at);
    }
}

/// No name stays the same with the ending of an unfinished file.
proof fn lemma_temp_is_another_file(path: PathView)
    requires
        path.names.len() > 0,
    ensures
        path.with_ending("json.tmp"@) != path,
        path.with_ending("json.tmp"@).names.last().last() == 'p',
{
    reveal_strlit("json.tmp");
    reveal_strlit(".");
    let was = path.names.last();
    let start = stem(was);
    let name = start + "."@ + "json.tmp"@;
    assert(path.with_ending("json.tmp"@).names.last() == name);
    assert(name.last() == 'p');
    if name == was {
        lemma_last_dot(name, start.len() as int + 5);
        assert(stem(was).len() == start.len() + 5);
    }
}

/// Readers never see a half-written file. However far writing a file got, also when it was cut off
/// inside a step, the file holds its old text or the whole new one, and every other file but the
/// unfinished one is as it was. When all steps are done the file holds the new text and the
/// unfinished one is gone.
pub proof fn readers_never_see_half_a_file(
    disk: Disk,
    path: PathView,
    text: Seq<char>,
    part: Seq<char>,
    other: PathView,
)
    requires
        path.names.len() > 0,
        other != path,
        other != path.with_ending("json.tmp"@),
    ensures
        ({
            let steps = write_steps(path);
            let first = disk_after(disk, steps[0], text);
            let second = disk_after(first, steps[1], text);
            let done = disk_after(second, steps[2], text);
            &&& same_on(cut_off(disk, steps[0], part), disk, path)
            &&& same_on(first, disk, path)
            &&& same_on(cut_off(first, steps[1], part), disk, path)
            &&& same_on(second, disk, path)
            &&& same_on(cut_off(second, steps[2], part), disk, path)
            &&& done.contains_key(path) && done[path] == text
            &&& same_on(cut_off(disk, steps[0], part), disk, other)
            &&& same_on(first, disk, other)
            &&& same_on(cut_off(first, steps[1], part), disk, other)
            &&& same_on(second, disk, other)
            &&& same_on(cut_off(second, steps[2], part), disk, other)
            &&& same_on(done, disk, other)
            &&& !done.contains_key(path.with_ending("json.tmp"@))
        }),
{
    lemma_temp_is_another_file(path);
}

/// The two disks hold the same text under a path, or none.
pub open spec fn same_on(a: Disk, b: Disk, path: PathView) -> bool {
    a.contains_key(path) == b.contains_key(path) && a[path] == b[path]
}

/// None of Blurman's files is the unfinished file of another, so writing one never touches the
/// others.
pub proof fn files_do_not_get_in_the_way(path: PathView, other: PathView)
    requires
        path.names.len() > 0,
        other.names.len() > 0,
        other.names.last() == "rules.json"@ || other.names.last() == "state.json"@
            || other.names.last() == "settings.json"@,
    ensures
        other != path.with_ending("json.tmp"@),
{
    reveal_strlit("rules.json");
    reveal_strlit("state.json");
    reveal_strlit("settings.json");
    lemma_temp_is_another_file(path);
    assert(other.names.last().last() == 'n');
}

/// A file is written in three steps: its folder is made, the text is written to another file in the
/// same folder, and that file takes its place. The other file has the name up to its last dot, if
/// that is not in front, and the ending "json.tmp".
pub proof fn a_file_is_written_next_to_itself(path: PathView, start: Seq<char>, end: Seq<char>)
    requires
        path.names.len() > 0,
        start.len() > 0,
        path.names.last() == start + end,
        end.len() > 0 ==> end[0] == '.',
        forall|i: int| 1 <= i < end.len() ==> #[trigger] end[i] != '.',
        end.len() == 0 ==> forall|i: int| 1 <= i < start.len() ==> #[trigger] start[i] != '.',
    ensures
        ({
            let folder = path.names.drop_last();
            let temp = PathView { base: path.base, names: folder.push(start + ".json.tmp"@) };
            &&& write_steps(path).len() == 3
            &&& write_steps(path)[0] == StepView::CreateDir(
                PathView { base: path.base, names: folder },
            )
            &&& write_steps(path)[1] == StepView::Write(temp)
            &&& write_steps(path)[2] == StepView::Rename(temp, path)
        }),
{
    reveal_strlit(".");
    reveal_strlit("json.tmp");
    reveal_strlit(".json.tmp");
    let name = path.names.last();
    if end.len() > 0 {
        assert forall|i: int| start.len() < i < name.len() implies #[trigger] name[i] != '.' by {
            assert(name[i] == end[i - start.len()]);
        }
        assert(name[start.len() as int] == '.');
        lemma_last_dot(name, start.len() as int);
        assert(name.take(start.len() as int) =~= start);
    } else {
        assert(name =~= start);
        lemma_dot_in_front(name);
    }
    assert(stem(name) == start);
    assert(start + "."@ + "json.tmp"@ =~= start + ".json.tmp"@);
}

proof fn lemma_dot_in_front(name: Seq<char>)
    requires
        forall|i: int| 1 <= i < name.len() ==> #[trigger] name[i] != '.',
    ensures
        last_dot(name) <= 0,
    decreases name.len(),
{
    if name.len() > 1 {
        assert(name[name.len() - 1] != '.');
        assert forall|i: int| 1 <= i < name.drop_last().len() implies #[trigger] name.drop_last()[i]
            != '.' by {
            assert(name[i] != '.');
        }
        lemma_dot_in_front(name.drop_last());
    } else if name.len() == 1 {
        assert(last_dot(name.drop_last()) == -1);
    }
}

/// Blurman's files lie in one folder named after it, in the user's folder for settings where there
/// is one.
pub proof fn files_lie_in_the_folder_of_blurman(config: bool, name: Seq<char>)
    ensures
        dir_of(config).join(name).names.len() == 2,
        dir_of(config).join(name).names[0] == "Blurman"@,
        dir_of(config).join(name).names[1] == name,
        dir_of(config).join(name).base == if config {
            Base::Config
        } else {
            Base::Here
        },
        dir_of(config).join(name).parent() == dir_of(config),
{
    assert(dir_of(config).join(name).names.drop_last() =~= dir_of(config).names);
}

/// A path ends in a file when its last name is one step down: not empty, without separators or a
/// drive in front, and neither the folder itself nor the one above.
pub proof fn a_file_is_one_step_down(path: PathView)
    ensures
        path.names_a_file() <==> path.names.len() > 0 && path.names.last().len() > 0
            && !path.names.last().contains('/') && !path.names.last().contains('\\') && !(
        path.names.last().len() >= 2 && path.names.last()[1] == ':') && path.names.last() != "."@
            && path.names.last() != ".."@,
{
    reveal_strlit(".");
    reveal_strlit("..");
    assert("."@ =~= seq!['.']);
    assert(".."@ =~= seq!['.', '.']);
    if path.names.len() > 0 {
        let name = path.names.last();
        if !name.contains('/') && !name.contains('\\') {
            assert forall|i: int| 0 <= i < name.len() implies #[trigger] name[i] != '/' && name[i]
                != '\\' by {
                assert(name.contains(name[i]));
            }
        }
    }
}

/// On a disk a folder is made beside the files, a write replaces one file, and a rename moves one
/// file into the place of another.
pub proof fn steps_change_one_file(disk: Disk, a: PathView, b: PathView, text: Seq<char>)
    requires
        a != b,
    ensures
        disk_after(disk, StepView::CreateDir(a), text) == disk,
        disk_after(disk, StepView::Write(a), text) == disk.insert(a, text),
        disk.contains_key(a) ==> disk_after(disk, StepView::Rename(a, b), text) == disk.insert(
            b,
            disk[a],
        ).remove(a),
        cut_off(disk, StepView::Write(a), text) == disk.insert(a, text),
        cut_off(disk, StepView::Rename(a, b), text) == disk,
{
}

/// Steps keep their number and order as paths.
pub proof fn views_keep_every_step(steps: Seq<Step>)
    ensures
        step_views(steps).len() == steps.len(),
        forall|i: int|
            0 <= i < steps.len() ==> match steps[i] {
                Step::CreateDir(dir) => #[trigger] step_views(steps)[i] == StepView::CreateDir(dir@),
                Step::Write(path) => step_views(steps)[i] == StepView::Write(path@),
                Step::Rename(from, to) => step_views(steps)[i] == StepView::Rename(from@, to@),
            },
{
}

} // verus!
