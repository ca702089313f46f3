//! Which parts of a frame are the app's own background, as opposed to patches of the same color
//! inside an image or video.

use crate::single;
use vstd::prelude::*;

verus! {

/// Matching pixels out of a block's 16 before it can join the background. Half a block lets
/// the background reach across text strokes but not across the thicker content of images.
pub const BLOCK_MIN: u8 = 8;

/// Enclosed patches smaller than this many blocks, like the inside of letters, still count as
/// background.
pub const SMALL_PATCH: usize = 16;

const NONE: usize = usize::MAX;

/// The blocks of a frame row by row: how many pixels of each match its most common background
/// color, and which color that is.
pub struct Grid {
    pub counts: Seq<u8>,
    pub colors: Seq<u8>,
    pub width: int,
}

impl Grid {
    pub open spec fn has(self, i: int) -> bool {
        0 <= i < self.counts.len()
    }

    pub open spec fn x(self, i: int) -> int {
        i % self.width
    }

    pub open spec fn y(self, i: int) -> int {
        i / self.width
    }

    /// Enough pixels match for the block to join the background.
    pub open spec fn is_open(self, i: int) -> bool {
        self.has(i) && self.counts[i] >= BLOCK_MIN
    }

    /// The blocks share a side.
    pub open spec fn beside(self, i: int, j: int) -> bool {
        ||| self.y(i) == self.y(j) && (j == i + 1 || i == j + 1)
        ||| j == i + self.width
        ||| i == j + self.width
    }

    pub open spec fn linked(self, i: int, j: int) -> bool {
        &&& self.is_open(i)
        &&& self.is_open(j)
        &&& self.colors[i] == self.colors[j]
        &&& self.beside(i, j)
    }

    /// `path` leads from `i` to `j` over linked blocks.
    pub open spec fn leads(self, path: Seq<int>, i: int, j: int) -> bool {
        &&& path.len() > 0
        &&& path.first() == i
        &&& path.last() == j
        &&& self.is_open(i)
        &&& forall|k: int| 0 <= k < path.len() - 1 ==> self.linked(#[trigger] path[k], path[k + 1])
    }

    pub open spec fn connected(self, i: int, j: int) -> bool {
        exists|path: Seq<int>| self.leads(path, i, j)
    }

    /// The blocks that belong together with the open block `i`.
    pub open spec fn patch(self, i: int) -> Set<int> {
        Set::new(|j: int| self.has(j) && self.connected(i, j))
    }

    pub open spec fn on_edge(self, i: int) -> bool {
        ||| self.x(i) == 0
        ||| self.y(i) == 0
        ||| self.x(i) + 1 == self.width
        ||| i + self.width >= self.counts.len()
    }

    pub open spec fn touches_edge(self, i: int) -> bool {
        exists|j: int| #[trigger] self.patch(i).contains(j) && self.on_edge(j)
    }

    pub open spec fn is_biggest(self, i: int) -> bool {
        forall|k: int| #[trigger] self.is_open(k) ==> self.patch(k).len() <= self.patch(i).len()
    }

    /// The patch of `i` is background: the biggest one, one that touches the edge of the window,
    /// one big enough to be a pane, or one too small to be more than the inside of a letter.
    pub open spec fn is_kept(self, i: int) -> bool {
        &&& self.is_open(i)
        &&& {
            ||| self.is_biggest(i)
            ||| self.touches_edge(i)
            ||| self.patch(i).len() >= pane_blocks(self.counts.len())
            ||| self.patch(i).len() < SMALL_PATCH
        }
    }

    /// The blocks are the same or touch, corners included.
    pub open spec fn near(self, i: int, j: int) -> bool {
        &&& -1 <= self.x(i) - self.x(j) <= 1
        &&& -1 <= self.y(i) - self.y(j) <= 1
    }

    /// Kept patches grow by one block so the text and image edges along them can blend.
    pub open spec fn is_background(self, i: int) -> bool {
        exists|j: int| #[trigger] self.is_kept(j) && self.near(i, j)
    }
}

/// How many blocks out of `n` make a pane of the app: the single-precision product of `n` and
/// 0.05, which is 13421773 / 2^28, cut to a whole number.
pub open spec fn pane_blocks(n: nat) -> nat {
    single::single(single::single(n) * 13421773) / 0x1000_0000
}

proof fn lemma_connected_self(g: Grid, i: int)
    requires
        g.is_open(i),
    ensures
        g.connected(i, i),
        g.patch(i).contains(i),
{
    assert(g.leads(seq![i], i, i));
}

proof fn lemma_connected_step(g: Grid, a: int, i: int, j: int)
    requires
        g.connected(a, i),
        g.linked(i, j),
    ensures
        g.connected(a, j),
{
    let path = choose|path: Seq<int>| g.leads(path, a, i);
    let longer = path.push(j);
    assert forall|k: int| 0 <= k < longer.len() - 1 implies g.linked(
        #[trigger] longer[k],
        longer[k + 1],
    ) by {
        if k < path.len() - 1 {
            assert(longer[k] == path[k] && longer[k + 1] == path[k + 1]);
            assert(g.linked(path[k], path[k + 1]));
        } else {
            assert(longer[k] == i && longer[k + 1] == j);
        }
    }
    assert(g.leads(longer, a, j));
}

proof fn lemma_linked_back(g: Grid, i: int, j: int)
    requires
        g.linked(i, j),
    ensures
        g.linked(j, i),
{
}

/// A property that holds of `i` and passes along links holds of everything connected to `i`.
proof fn lemma_spreads(g: Grid, inside: Set<int>, path: Seq<int>, i: int, j: int)
    requires
        g.leads(path, i, j),
        inside.contains(i),
        forall|a: int, b: int|
            inside.contains(a) && #[trigger] g.linked(a, b) ==> inside.contains(b),
    ensures
        inside.contains(j),
    decreases path.len(),
{
    if path.len() > 1 {
        let shorter = path.drop_last();
        assert(shorter.last() == path[path.len() - 2]);
        assert forall|k: int| 0 <= k < shorter.len() - 1 implies g.linked(
            #[trigger] shorter[k],
            shorter[k + 1],
        ) by {
            assert(g.linked(path[k], path[k + 1]));
        }
        lemma_spreads(g, inside, shorter, i, shorter.last());
        assert(g.linked(path[path.len() - 2], path[path.len() - 2 + 1]));
    }
}

proof fn lemma_connected_back(g: Grid, path: Seq<int>, i: int, j: int)
    requires
        g.leads(path, i, j),
    ensures
        g.connected(j, i),
    decreases path.len(),
{
    let back = path.reverse();
    assert forall|k: int| 0 <= k < back.len() - 1 implies g.linked(
        #[trigger] back[k],
        back[k + 1],
    ) by {
        let m = path.len() - 2 - k;
        assert(back[k] == path[m + 1] && back[k + 1] == path[m]);
        assert(g.linked(path[m], path[m + 1]));
        lemma_linked_back(g, path[m], path[m + 1]);
    }
    assert(back.first() == j && back.last() == i);
    if path.len() > 1 {
        let zero: int = 0;
        assert(g.linked(back[zero], back[zero + 1]));
    } else {
        assert(path.first() == path.last());
    }
    assert(g.leads(back, j, i));
}

proof fn lemma_connected_chain(g: Grid, a: int, b: int, c: int)
    requires
        g.connected(a, b),
        g.connected(b, c),
    ensures
        g.connected(a, c),
{
    let inside = Set::new(|k: int| g.connected(a, k));
    let path = choose|path: Seq<int>| g.leads(path, b, c);
    assert forall|i: int, j: int| inside.contains(i) && #[trigger] g.linked(i, j) implies inside.contains(
        j,
    ) by {
        lemma_connected_step(g, a, i, j);
    }
    lemma_spreads(g, inside, path, b, c);
}

/// Connected blocks have one patch.
proof fn lemma_one_patch(g: Grid, i: int, j: int)
    requires
        g.connected(i, j),
    ensures
        g.patch(i) == g.patch(j),
{
    let path = choose|path: Seq<int>| g.leads(path, i, j);
    lemma_connected_back(g, path, i, j);
    assert forall|k: int| g.patch(i).contains(k) <==> g.patch(j).contains(k) by {
        if g.connected(i, k) {
            lemma_connected_chain(g, j, i, k);
        }
        if g.connected(j, k) {
            lemma_connected_chain(g, i, j, k);
        }
    }
    assert(g.patch(i) =~= g.patch(j));
}

proof fn lemma_bounded(s: Set<int>, n: nat)
    requires
        forall|i: int| #[trigger] s.contains(i) ==> 0 <= i < n,
    ensures
        s.finite(),
        s.len() <= n,
{
    let all = vstd::set_lib::set_int_range(0, n as int);
    vstd::set_lib::lemma_int_range(0, n as int);
    assert(s.subset_of(all));
    vstd::set_lib::lemma_len_subset(s, all);
}

/// What a flood from `seed` keeps true: `before` are the labels it started from, `done` the blocks
/// it has left behind, `held` the one it is working on, and `stack` those still to visit.
#[verifier::opaque]
spec fn flooding(
    g: Grid,
    before: Seq<usize>,
    label: Seq<usize>,
    id: usize,
    seed: int,
    stack: Seq<usize>,
    done: Set<int>,
    held: Set<int>,
) -> bool {
    &&& label.len() == g.counts.len()
    &&& before.len() == g.counts.len()
    &&& forall|i: int| g.has(i) && before[i] != NONE ==> #[trigger] label[i] == before[i]
    &&& forall|i: int|
        g.has(i) && before[i] == NONE ==> #[trigger] label[i] == NONE || label[i] == id
    &&& forall|i: int|
        g.has(i) && before[i] == NONE && #[trigger] label[i] == id ==> g.is_open(i) && g.connected(
            seed,
            i,
        )
    &&& forall|k: int|
        0 <= k < stack.len() ==> g.has(#[trigger] stack[k] as int) && before[stack[k] as int]
            == NONE && label[stack[k] as int] == id && !done.contains(stack[k] as int)
            && !held.contains(stack[k] as int)
    &&& forall|k: int, l: int| 0 <= k < l < stack.len() ==> stack[k] != stack[l]
    &&& forall|i: int|
        g.has(i) && before[i] == NONE && #[trigger] label[i] == id ==> done.contains(i)
            || held.contains(i) || stack.contains(i as usize)
    &&& forall|i: int| #[trigger]
        done.contains(i) ==> g.has(i) && before[i] == NONE && label[i] == id && !held.contains(i)
    &&& forall|i: int| #[trigger]
        held.contains(i) ==> g.has(i) && before[i] == NONE && label[i] == id
    &&& forall|i: int, j: int|
        done.contains(i) && #[trigger] g.linked(i, j) ==> before[j] == NONE && label[j] == id
}

/// Labels of finished patches: each patch is labeled as a whole.
spec fn closed_labels(g: Grid, label: Seq<usize>, ids: nat) -> bool {
    &&& label.len() == g.counts.len()
    &&& forall|i: int| g.has(i) && #[trigger] label[i] != NONE ==> label[i] < ids && g.is_open(i)
    &&& forall|i: int, j: int|
        g.has(i) && label[i] != NONE && #[trigger] g.linked(i, j) ==> label[j] == label[i]
}

/// Taking the top block off the stack makes it the one at work.
proof fn lemma_take_up(
    g: Grid,
    before: Seq<usize>,
    label: Seq<usize>,
    id: usize,
    seed: int,
    stack: Seq<usize>,
    done: Set<int>,
)
    requires
        flooding(g, before, label, id, seed, stack, done, Set::empty()),
        stack.len() > 0,
        g.counts.len() <= usize::MAX,
    ensures
        flooding(
            g,
            before,
            label,
            id,
            seed,
            stack.drop_last(),
            done,
            set![stack.last() as int],
        ),
        g.has(stack.last() as int),
        before[stack.last() as int] == NONE,
        label[stack.last() as int] == id,
        !done.contains(stack.last() as int),
{
    reveal(flooding);
    let i = stack.last() as int;
    let rest = stack.drop_last();
    let here = set![i];
    assert(stack[stack.len() - 1] == i);
    assert forall|k: int|
        g.has(k) && before[k] == NONE && #[trigger] label[k] == id implies done.contains(k)
        || here.contains(k) || rest.contains(k as usize) by {
        if !done.contains(k) && k != i {
            assert(stack.contains(k as usize));
            let m = choose|m: int| 0 <= m < stack.len() && stack[m] == k as usize;
            assert(m < stack.len() - 1);
            assert(rest[m] == k as usize);
        }
    }
    assert forall|k: int| 0 <= k < rest.len() implies g.has(#[trigger] rest[k] as int)
        && before[rest[k] as int] == NONE && label[rest[k] as int] == id && !done.contains(
        rest[k] as int,
    ) && !here.contains(rest[k] as int) by {
        assert(rest[k] == stack[k]);
    }
}

/// The block at work is done once everything linked to it is labeled.
proof fn lemma_leave(
    g: Grid,
    before: Seq<usize>,
    label: Seq<usize>,
    id: usize,
    seed: int,
    stack: Seq<usize>,
    done: Set<int>,
    i: int,
)
    requires
        flooding(g, before, label, id, seed, stack, done, set![i]),
        forall|j: int| #[trigger] g.linked(i, j) ==> before[j] == NONE && label[j] == id,
    ensures
        flooding(g, before, label, id, seed, stack, done.insert(i), Set::empty()),
{
    reveal(flooding);
    assert(set![i].contains(i));
}

/// Labels `j` as reached from `i` when the two are linked and nothing has labeled it yet.
fn reach(
    counts: &[u8],
    colors: &[u8],
    label: &mut Vec<usize>,
    stack: &mut Vec<usize>,
    id: usize,
    i: usize,
    j: usize,
    Ghost(g): Ghost<Grid>,
    Ghost(before): Ghost<Seq<usize>>,
    Ghost(seed): Ghost<int>,
    Ghost(done): Ghost<Set<int>>,
)
    requires
        counts@ == g.counts,
        colors@.len() >= g.counts.len(),
        g.colors == colors@,
        id < NONE,
        g.beside(i as int, j as int),
        g.has(j as int),
        closed_labels(g, before, id as nat),
        flooding(g, before, old(label)@, id, seed, old(stack)@, done, set![i as int]),
    ensures
        flooding(g, before, final(label)@, id, seed, final(stack)@, done, set![i as int]),
        g.linked(i as int, j as int) ==> before[j as int] == NONE && final(label)@[j as int] == id,
        final(label)@.len() == g.counts.len(),
        forall|k: int|
            g.has(k) && before[k] == NONE && old(label)@[k] == id ==> #[trigger] final(label)@[k]
                == id,
{
    let ghost here = set![i as int];
    reveal(flooding);
    assert(here.contains(i as int));
    assert(g.has(i as int) && old(label)@[i as int] == id);
    proof {
        if g.linked(i as int, j as int) {
            lemma_linked_back(g, i as int, j as int);
            if before[j as int] != NONE {
                assert(before[i as int] == before[j as int]);
            }
        }
    }
    if counts[j] >= BLOCK_MIN && label[j] == NONE && colors[j] == colors[i] {
        proof {
            assert(g.is_open(i as int));
            assert(g.linked(i as int, j as int));
            lemma_connected_step(g, seed, i as int, j as int);
            if stack@.contains(j) {
                let k = choose|k: int| 0 <= k < stack@.len() && stack@[k] == j;
                assert(label@[stack@[k] as int] == id);
            }
            assert(!done.contains(j as int));
        }
        let ghost was = stack@;
        let ghost was_label = label@;
        label.set(j, id);
        stack.push(j);
        proof {
            assert forall|k: int, l: int| 0 <= k < l < stack@.len() implies stack@[k] != stack@[l] by {
                if l == was.len() {
                    assert(was[k] == stack@[k]);
                    assert(was.contains(was[k]));
                }
            }
            assert forall|k: int|
                g.has(k) && before[k] == NONE && #[trigger] label@[k] == id implies done.contains(k)
                || here.contains(k) || stack@.contains(k as usize) by {
                if k == j {
                    assert(stack@[was.len() as int] == j);
                } else {
                    assert(was_label[k] == id);
                    if was.contains(k as usize) {
                        let m = choose|m: int| 0 <= m < was.len() && was[m] == k as usize;
                        assert(stack@[m] == k as usize);
                    }
                }
            }
            assert forall|k: int| 0 <= k < stack@.len() implies g.has(#[trigger] stack@[k] as int)
                && before[stack@[k] as int] == NONE && label@[stack@[k] as int] == id
                && !done.contains(stack@[k] as int) && !here.contains(stack@[k] as int) by {
                if k < was.len() {
                    assert(stack@[k] == was[k]);
                }
            }
        }
    }
}

/// Labels the patch of `start` with `id`. Gives its size and whether it touches the edge.
fn flood(
    counts: &[u8],
    colors: &[u8],
    width: usize,
    label: &mut Vec<usize>,
    id: usize,
    start: usize,
    Ghost(g): Ghost<Grid>,
) -> (r: (usize, bool))
    requires
        counts@ == g.counts,
        g.colors == colors@,
        colors@.len() >= g.counts.len(),
        g.width == width,
        width > 0,
        g.counts.len() % (width as nat) == 0,
        id < NONE,
        g.is_open(start as int),
        old(label)@[start as int] == NONE,
        closed_labels(g, old(label)@, id as nat),
    ensures
        closed_labels(g, final(label)@, id as nat + 1),
        forall|i: int|
            g.has(i) && old(label)@[i] != NONE ==> #[trigger] final(label)@[i] == old(label)@[i],
        forall|i: int|
            g.has(i) && old(label)@[i] == NONE ==> #[trigger] final(label)@[i] == NONE
                || final(label)@[i] == id,
        forall|i: int|
            g.has(i) ==> (#[trigger] final(label)@[i] == id <==> g.patch(start as int).contains(i)),
        r.0 == g.patch(start as int).len(),
        r.1 == g.touches_edge(start as int),
{
    let n: usize = counts.len();
    let ghost before = label@;
    let ghost seed = start as int;
    let ghost mut done: Set<int> = Set::empty();
    let mut stack: Vec<usize> = Vec::new();
    let mut size: usize = 0;
    let mut edge: bool = false;
    label.set(start, id);
    stack.push(start);
    proof {
        reveal(flooding);
        lemma_connected_self(g, seed);
        assert(stack@[0] == start);
        assert(stack@.contains(start));
        assert(flooding(g, before, label@, id, seed, stack@, done, Set::empty()));
    }
    while stack.len() > 0
        invariant
            counts@ == g.counts,
            g.colors == colors@,
            colors@.len() >= g.counts.len(),
            g.width == width,
            width > 0,
            g.counts.len() % (width as nat) == 0,
            id < NONE,
            n == g.counts.len(),
            label@.len() == n,
            closed_labels(g, before, id as nat),
            flooding(g, before, label@, id, seed, stack@, done, Set::empty()),
            forall|i: int| #[trigger] done.contains(i) ==> g.has(i),
            g.has(seed),
            before[seed] == NONE,
            label@[seed] == id,
            done.finite(),
            size == done.len(),
            edge == exists|j: int| #[trigger] done.contains(j) && g.on_edge(j),
        decreases g.counts.len() - done.len(),
    {
        let ghost was = stack@;
        let ghost here_done = done;
        let i: usize = stack.pop().unwrap();
        let ghost here = set![i as int];
        proof {
            assert(stack@ =~= was.drop_last());
            lemma_take_up(g, before, label@, id, seed, was, done);
            lemma_bounded(done.insert(i as int), g.counts.len());
        }
        size += 1;
        let x: usize = i % width;
        let y: usize = i / width;
        proof {
            lemma_place(g.counts.len() as int, width as int, i as int);
        }
        let last_row: bool = n - i <= width;
        if x == 0 || y == 0 || x + 1 == width || last_row {
            edge = true;
        }
        if x > 0 {
            reach(
                counts,
                colors,
                label,
                &mut stack,
                id,
                i,
                i - 1,
                Ghost(g),
                Ghost(before),
                Ghost(seed),
                Ghost(done),
            );
        }
        if x + 1 < width {
            reach(
                counts,
                colors,
                label,
                &mut stack,
                id,
                i,
                i + 1,
                Ghost(g),
                Ghost(before),
                Ghost(seed),
                Ghost(done),
            );
        }
        if y > 0 {
            reach(
                counts,
                colors,
                label,
                &mut stack,
                id,
                i,
                i - width,
                Ghost(g),
                Ghost(before),
                Ghost(seed),
                Ghost(done),
            );
        }
        if !last_row {
            reach(
                counts,
                colors,
                label,
                &mut stack,
                id,
                i,
                i + width,
                Ghost(g),
                Ghost(before),
                Ghost(seed),
                Ghost(done),
            );
        }
        proof {
            assert forall|j: int| #[trigger] g.linked(i as int, j) implies before[j] == NONE
                && label@[j] == id by {
                lemma_place(g.counts.len() as int, width as int, j);
            }
            lemma_leave(g, before, label@, id, seed, stack@, done, i as int);
            done = done.insert(i as int);
            assert(edge == exists|j: int| #[trigger] done.contains(j) && g.on_edge(j)) by {
                assert(done.contains(i as int));
                if exists|j: int| #[trigger] here_done.contains(j) && g.on_edge(j) {
                    let j = choose|j: int| #[trigger] here_done.contains(j) && g.on_edge(j);
                    assert(done.contains(j));
                }
            }
        }
    }
    proof {
        reveal(flooding);
        assert forall|i: int| g.has(i) implies (#[trigger] label@[i] == id <==> done.contains(i)) by {
            if label@[i] == id && before[i] != NONE {
                assert(before[i] < id);
            }
        }
        assert forall|i: int, j: int|
            done.contains(i) && #[trigger] g.linked(i, j) implies done.contains(j) by {
            assert(label@[j] == id);
        }
        assert(g.patch(seed) =~= done) by {
            assert forall|j: int| g.patch(seed).contains(j) implies done.contains(j) by {
                let path = choose|path: Seq<int>| g.leads(path, seed, j);
                lemma_spreads(g, done, path, seed, j);
            }
        }
        assert(closed_labels(g, label@, id as nat + 1)) by {
            assert forall|i: int, j: int|
                g.has(i) && label@[i] != NONE && #[trigger] g.linked(i, j) implies label@[j]
                == label@[i] by {
                if before[i] != NONE {
                    assert(before[j] == before[i]);
                } else {
                    assert(done.contains(i));
                }
            }
        }
    }
    (size, edge)
}

/// The most blocks in one patch, or none when there is no patch.
fn biggest_of(sizes: &Vec<usize>) -> (r: usize)
    ensures
        forall|k: int| 0 <= k < sizes@.len() ==> sizes@[k] <= r,
        sizes@.len() > 0 ==> sizes@.contains(r),
{
    let mut r: usize = 0;
    let mut i: usize = 0;
    while i < sizes.len()
        invariant
            i <= sizes.len(),
            forall|k: int| 0 <= k < i ==> sizes@[k] <= r,
            i > 0 ==> sizes@.contains(r),
            i == 0 ==> r == 0,
        decreases sizes.len() - i,
    {
        if sizes[i] >= r {
            r = sizes[i];
            assert(sizes@[i as int] == r);
        }
        i += 1;
    }
    r
}

/// How many blocks out of `n` make a pane of the app.
fn pane_size(n: usize) -> (r: u128)
    ensures
        r == pane_blocks(n as nat),
{
    let a: u128 = single::to_single(n as u128);
    assert(a <= 0x2_0000_0000_0000_0000);
    let b: u128 = single::to_single(a * 13421773);
    b / 0x1000_0000
}

/// Which blocks belong to the app's background, given how many pixels in each block match its
/// most common background color and which color that is. Neighboring blocks with enough
/// matches of the same color are grouped into patches. The biggest patch is background, along
/// with patches touching the edge of the window, patches big enough to be a pane, and patches
/// too small to be more than the inside of a letter. Mid-sized patches enclosed by other
/// content, like a flat area inside an image, are not. Kept patches grow by one block so the
/// text and image edges along them can blend. Returns 255 for background blocks, 0 otherwise.
pub fn background_blocks(counts: &[u8], colors: &[u8], width: usize, height: usize) -> (r: Vec<u8>)
    requires
        counts@.len() == width * height,
        counts@.len() <= colors@.len(),
    ensures
        r@.len() == counts@.len(),
        forall|i: int|
            0 <= i < r@.len() ==> #[trigger] r@[i] == if (Grid {
                counts: counts@,
                colors: colors@,
                width: width as int,
            }).is_background(i) {
                255u8
            } else {
                0u8
            },
{
    let ghost g = Grid { counts: counts@, colors: colors@, width: width as int };
    let n: usize = counts.len();
    if n == 0 {
        return Vec::new();
    }
    assert(width > 0 && height > 0) by (nonlinear_arith)
        requires
            n == width * height,
            n > 0,
    ;
    assert(g.counts.len() % (width as nat) == 0) by (nonlinear_arith)
        requires
            g.counts.len() == width * height,
            width > 0,
    ;
    let mut label: Vec<usize> = Vec::new();
    let mut i: usize = 0;
    while i < n
        invariant
            i <= n,
            label@.len() == i,
            forall|k: int| 0 <= k < i ==> label@[k] == NONE,
        decreases n - i,
    {
        label.push(NONE);
        i += 1;
    }
    let mut sizes: Vec<usize> = Vec::new();
    let mut edges: Vec<bool> = Vec::new();
    let ghost mut seeds: Seq<int> = Seq::empty();
    let mut start: usize = 0;
    while start < n
        invariant
            n == counts@.len(),
            g.counts == counts@,
            g.colors == colors@,
            n <= colors@.len(),
            g.width == width,
            width > 0,
            g.counts.len() % (width as nat) == 0,
            start <= n,
            closed_labels(g, label@, sizes@.len()),
            patches(g, label@, sizes@, edges@, seeds),
            sizes@.len() <= start,
            forall|k: int| 0 <= k < start && g.is_open(k) ==> #[trigger] label@[k] != NONE,
        decreases n - start,
    {
        if counts[start] >= BLOCK_MIN && label[start] == NONE {
            let id: usize = sizes.len();
            let ghost was = label@;
            let (size, edge) = flood(counts, colors, width, &mut label, id, start, Ghost(g));
            sizes.push(size);
            edges.push(edge);
            proof {
                lemma_connected_self(g, start as int);
                seeds = seeds.push(start as int);
                assert(patches(g, label@, sizes@, edges@, seeds)) by {
                    assert forall|k: int, i: int|
                        0 <= k < seeds.len() && g.has(i) implies (#[trigger] label@[i] == k
                        <==> g.patch(#[trigger] seeds[k]).contains(i)) by {
                        if k < id {
                            assert(was[i] == k ==> was[i] != NONE);
                            assert(was[i] == k <==> g.patch(seeds[k]).contains(i));
                            if was[i] != NONE && label@[i] == id {
                                assert(label@[i] == was[i]);
                            }
                        }
                    }
                }
            }
        }
        start += 1;
    }
    let biggest: usize = biggest_of(&sizes);
    let pane: u128 = pane_size(n);
    let mut keep: Vec<bool> = Vec::new();
    let mut p: usize = 0;
    while p < sizes.len()
        invariant
            p <= sizes.len(),
            sizes@.len() == edges@.len(),
            keep@.len() == p,
            forall|k: int|
                0 <= k < p ==> #[trigger] keep@[k] == (sizes@[k] == biggest || edges@[k]
                    || sizes@[k] >= pane || sizes@[k] < SMALL_PATCH),
        decreases sizes.len() - p,
    {
        keep.push(
            sizes[p] == biggest || edges[p] || sizes[p] as u128 >= pane || sizes[p] < SMALL_PATCH,
        );
        p += 1;
    }
    let mut kept: Vec<bool> = Vec::new();
    let mut j: usize = 0;
    while j < n
        invariant
            n == counts@.len(),
            g.counts == counts@,
            j <= n,
            kept@.len() == j,
            closed_labels(g, label@, sizes@.len()),
            patches(g, label@, sizes@, edges@, seeds),
            keep@.len() == sizes@.len(),
            forall|k: int|
                0 <= k < keep@.len() ==> #[trigger] keep@[k] == (sizes@[k] == biggest || edges@[k]
                    || sizes@[k] >= pane || sizes@[k] < SMALL_PATCH),
            pane == pane_blocks(g.counts.len()),
            forall|k: int| 0 <= k < sizes@.len() ==> sizes@[k] <= biggest,
            sizes@.len() > 0 ==> sizes@.contains(biggest),
            forall|k: int| 0 <= k < n && g.is_open(k) ==> #[trigger] label@[k] != NONE,
            forall|k: int| 0 <= k < j ==> #[trigger] kept@[k] == g.is_kept(k),
        decreases n - j,
    {
        let b: bool = label[j] != NONE && keep[label[j]];
        proof {
            lemma_kept(g, label@, sizes@, edges@, seeds, biggest as nat, j as int);
        }
        kept.push(b);
        j += 1;
    }
    let mut mask: Vec<u8> = Vec::new();
    let mut m: usize = 0;
    while m < n
        invariant
            n == counts@.len(),
            g.counts == counts@,
            g.width == width,
            n == width * height,
            width > 0,
            g.counts.len() % (width as nat) == 0,
            m <= n,
            mask@.len() == m,
            kept@.len() == n,
            forall|k: int| 0 <= k < n ==> #[trigger] kept@[k] == g.is_kept(k),
            forall|i: int|
                0 <= i < m ==> #[trigger] mask@[i] == if g.is_background(i) {
                    255u8
                } else {
                    0u8
                },
        decreases n - m,
    {
        let near: bool = near_kept(&kept, width, m, Ghost(g));
        mask.push(
            if near {
                255
            } else {
                0
            },
        );
        m += 1;
    }
    mask
}

/// Each patch found so far with its size, its edge, and one block of it.
spec fn patches(
    g: Grid,
    label: Seq<usize>,
    sizes: Seq<usize>,
    edges: Seq<bool>,
    seeds: Seq<int>,
) -> bool {
    &&& seeds.len() == sizes.len()
    &&& edges.len() == sizes.len()
    &&& forall|k: int|
        0 <= k < seeds.len() ==> g.is_open(#[trigger] seeds[k]) && sizes[k] == g.patch(
            seeds[k],
        ).len() && edges[k] == g.touches_edge(seeds[k])
    &&& forall|k: int, i: int|
        0 <= k < seeds.len() && g.has(i) ==> (#[trigger] label[i] == k <==> g.patch(
            #[trigger] seeds[k],
        ).contains(i))
}

/// What the size, edge, and rank of a patch say about any block of it.
proof fn lemma_kept(
    g: Grid,
    label: Seq<usize>,
    sizes: Seq<usize>,
    edges: Seq<bool>,
    seeds: Seq<int>,
    biggest: nat,
    i: int,
)
    requires
        closed_labels(g, label, sizes.len()),
        patches(g, label, sizes, edges, seeds),
        g.has(i),
        forall|k: int| 0 <= k < sizes.len() ==> sizes[k] <= biggest,
        sizes.len() > 0 ==> sizes.contains(biggest as usize),
        biggest <= usize::MAX,
        forall|k: int| g.is_open(k) ==> #[trigger] label[k] != NONE,
    ensures
        g.is_kept(i) == (label[i] != NONE && (sizes[label[i] as int] == biggest
            || edges[label[i] as int] || sizes[label[i] as int] >= pane_blocks(g.counts.len())
            || sizes[label[i] as int] < SMALL_PATCH)),
{
    if label[i] != NONE {
        let id = label[i] as int;
        let seed = seeds[id];
        assert(g.patch(seed).contains(i));
        lemma_one_patch(g, seed, i);
        assert(g.is_open(i));
        assert(g.is_biggest(i) == (sizes[id] == biggest)) by {
            if sizes[id] == biggest {
                assert forall|k: int| #[trigger] g.is_open(k) implies g.patch(k).len() <= g.patch(
                    i,
                ).len() by {
                    let other = label[k] as int;
                    assert(g.patch(seeds[other]).contains(k));
                    lemma_one_patch(g, seeds[other], k);
                }
            } else {
                let other = choose|m: int| 0 <= m < sizes.len() && sizes[m] == biggest as usize;
                assert(g.is_open(seeds[other]));
                assert(g.patch(seeds[other]).len() == biggest);
            }
        }
        assert(g.touches_edge(i) == g.touches_edge(seed));
    } else {
        assert(!g.is_open(i));
    }
}

/// Whether block `i` or one that touches it is kept.
fn near_kept(kept: &Vec<bool>, width: usize, i: usize, Ghost(g): Ghost<Grid>) -> (r: bool)
    requires
        g.width == width,
        width > 0,
        g.counts.len() % (width as nat) == 0,
        kept@.len() == g.counts.len(),
        g.has(i as int),
        forall|k: int| 0 <= k < kept@.len() ==> #[trigger] kept@[k] == g.is_kept(k),
    ensures
        r == g.is_background(i as int),
{
    let n: usize = kept.len();
    let x: usize = i % width;
    let up: bool = i >= width;
    let down: bool = n - i > width;
    proof {
        lemma_place(n as int, width as int, i as int);
        lemma_rows(n as int, width as int, i as int);
    }
    let a: bool = row_kept(kept, width, i, x, Ghost(g));
    let b: bool = up && row_kept(kept, width, i - width, x, Ghost(g));
    let c: bool = down && row_kept(kept, width, i + width, x, Ghost(g));
    proof {
        if a {
            let j = choose|j: int| #[trigger] g.is_kept(j) && g.y(j) == g.y(i as int) && -1 <= x - g.x(
                j,
            ) <= 1;
            assert(g.near(i as int, j));
        }
        if b {
            let j = choose|j: int| #[trigger] g.is_kept(j) && g.y(j) == g.y(i - width) && -1 <= x
                - g.x(j) <= 1;
            assert(g.near(i as int, j));
        }
        if c {
            let j = choose|j: int| #[trigger] g.is_kept(j) && g.y(j) == g.y(i + width) && -1 <= x
                - g.x(j) <= 1;
            assert(g.near(i as int, j));
        }
        if g.is_background(i as int) {
            let j = choose|j: int| #[trigger] g.is_kept(j) && g.near(i as int, j);
            lemma_place(n as int, width as int, j);
            lemma_rows(n as int, width as int, j);
            lemma_row_above(width as int, i as int, j);
            lemma_row_above(width as int, j, i as int);
            if g.y(j) == g.y(i as int) + 1 {
                lemma_same_row(n as int, width as int, i + width, j);
            }
        }
    }
    a || b || c
}

/// Whether block `i` or one beside it in its row is kept.
fn row_kept(kept: &Vec<bool>, width: usize, i: usize, x: usize, Ghost(g): Ghost<Grid>) -> (r: bool)
    requires
        g.width == width,
        width > 0,
        g.counts.len() % (width as nat) == 0,
        kept@.len() == g.counts.len(),
        g.has(i as int),
        x == i % width,
        forall|k: int| 0 <= k < kept@.len() ==> #[trigger] kept@[k] == g.is_kept(k),
    ensures
        r == exists|j: int| #[trigger]
            g.is_kept(j) && g.y(j) == g.y(i as int) && -1 <= x - g.x(j) <= 1,
{
    let n: usize = kept.len();
    proof {
        lemma_place(n as int, width as int, i as int);
    }
    let left: bool = x > 0 && kept[i - 1];
    let right: bool = x + 1 < width && kept[i + 1];
    let r: bool = kept[i] || left || right;
    proof {
        if kept@[i as int] {
            assert(g.is_kept(i as int));
        }
        if left {
            assert(g.is_kept(i - 1));
        }
        if right {
            assert(g.is_kept(i + 1));
        }
        if exists|j: int| #[trigger]
            g.is_kept(j) && g.y(j) == g.y(i as int) && -1 <= x - g.x(j) <= 1 {
            let j = choose|j: int| #[trigger] g.is_kept(j) && g.y(j) == g.y(i as int) && -1 <= x - g.x(
                j,
            ) <= 1;
            lemma_place(kept@.len() as int, width as int, j);
            assert(j - i == g.x(j) - x);
            assert(kept@[j]);
        }
    }
    r
}

/// The blocks right above and right below `i`.
proof fn lemma_rows(n: int, width: int, i: int)
    requires
        width > 0,
        0 <= i < n,
    ensures
        (i + width) / width == i / width + 1,
        (i + width) % width == i % width,
        (i - width) / width == i / width - 1,
        (i - width) % width == i % width,
{
    let q = i / width;
    let r = i % width;
    vstd::arithmetic::div_mod::lemma_fundamental_div_mod(i, width);
    assert(i + width == (q + 1) * width + r && i - width == (q - 1) * width + r)
        by (nonlinear_arith)
        requires
            i == width * q + r,
    ;
    vstd::arithmetic::div_mod::lemma_fundamental_div_mod_converse(i + width, width, q + 1, r);
    vstd::arithmetic::div_mod::lemma_fundamental_div_mod_converse(i - width, width, q - 1, r);
}

/// A block in the row of another one is in the grid too.
proof fn lemma_same_row(n: int, width: int, a: int, b: int)
    requires
        width > 0,
        n % width == 0,
        0 <= b < n,
        a / width == b / width,
    ensures
        a < n,
{
    let q = a / width;
    let m = n / width;
    vstd::arithmetic::div_mod::lemma_fundamental_div_mod(a, width);
    vstd::arithmetic::div_mod::lemma_fundamental_div_mod(b, width);
    vstd::arithmetic::div_mod::lemma_fundamental_div_mod(n, width);
    assert(a < n) by (nonlinear_arith)
        requires
            a == width * q + a % width,
            b == width * q + b % width,
            0 <= a % width < width,
            0 <= b % width < width,
            n == width * m,
            b < n,
    ;
}

/// The row above a block's row is that of the block one width back.
proof fn lemma_row_above(width: int, i: int, j: int)
    requires
        width > 0,
        0 <= i,
        0 <= j,
    ensures
        j / width == i / width + 1 ==> j >= width && i / width == (j - width) / width,
{
    let q = i / width;
    vstd::arithmetic::div_mod::lemma_fundamental_div_mod(i, width);
    vstd::arithmetic::div_mod::lemma_fundamental_div_mod(j, width);
    if j / width == q + 1 {
        assert(width * (q + 1) == width * q + width) by (nonlinear_arith);
        assert(width * q >= 0) by (nonlinear_arith)
            requires
                width > 0,
                q == i / width,
                i >= 0,
        ;
        lemma_rows(j + 1, width, j);
    }
}

/// Where block `i` lies in a grid of `n` blocks in rows of `width`.
proof fn lemma_place(n: int, width: int, i: int)
    requires
        width > 0,
        n % width == 0,
        0 <= i < n,
    ensures
        i == (i / width) * width + i % width,
        0 <= i % width < width,
        0 <= i / width,
        i % width > 0 ==> i >= 1 && (i - 1) / width == i / width && (i - 1) % width == i % width
            - 1,
        i % width + 1 < width ==> i + 1 < n && (i + 1) / width == i / width && (i + 1) % width == i
            % width + 1,
        i % width == 0 ==> (i - 1) / width != i / width,
        i % width + 1 == width ==> (i + 1) / width != i / width,
        i / width > 0 <==> i >= width,
{
    let q = i / width;
    let r = i % width;
    vstd::arithmetic::div_mod::lemma_fundamental_div_mod(i, width);
    vstd::arithmetic::div_mod::lemma_fundamental_div_mod(n, width);
    assert(width * q == q * width) by (nonlinear_arith);
    assert(q >= 0) by (nonlinear_arith)
        requires
            q == i / width,
            width > 0,
            i >= 0,
    ;
    if r > 0 {
        vstd::arithmetic::div_mod::lemma_fundamental_div_mod_converse(i - 1, width, q, r - 1);
    } else {
        assert(i - 1 == (q - 1) * width + (width - 1)) by (nonlinear_arith)
            requires
                i == q * width,
        ;
        vstd::arithmetic::div_mod::lemma_fundamental_div_mod_converse(
            i - 1,
            width,
            q - 1,
            width - 1,
        );
    }
    if r + 1 < width {
        vstd::arithmetic::div_mod::lemma_fundamental_div_mod_converse(i + 1, width, q, r + 1);
        let m = n / width;
        assert(i + 1 < n) by (nonlinear_arith)
            requires
                i == q * width + r,
                n == width * m,
                0 <= r,
                r + 1 < width,
                i < n,
        ;
    } else {
        assert(i + 1 == (q + 1) * width + 0) by (nonlinear_arith)
            requires
                i == q * width + (width - 1),
        ;
        vstd::arithmetic::div_mod::lemma_fundamental_div_mod_converse(i + 1, width, q + 1, 0);
    }
    assert(q > 0 <==> i >= width) by (nonlinear_arith)
        requires
            i == q * width + r,
            0 <= r < width,
            q >= 0,
    ;
}

/// A pane is a twentieth of the window, in any frame of fewer than 2^24 blocks.
pub proof fn a_pane_is_a_twentieth(n: nat)
    requires
        n < 0x100_0000,
    ensures
        pane_blocks(n) == n / 20,
{
    let p = n * 13421773;
    let u = single::unit(p);
    let k = n / 20;
    single::lemma_single(n);
    assert(single::two(24) == 0x100_0000) by {
        reveal_with_fuel(single::two, 25);
    }
    single::lemma_unit_divides(p, 24);
    let j = choose|j: nat| #[trigger] (u * j) == single::two(24);
    single::lemma_unit(p);
    single::lemma_rounded(p, u);
    assert(u <= 0x100_0000) by (nonlinear_arith)
        requires
            u * j == 0x100_0000,
            u >= 1,
    ;
    let a = 16 * j * k;
    assert(u * a == 0x1000_0000 * k) by (nonlinear_arith)
        requires
            u * j == 0x100_0000,
            a == 16 * j * k,
    ;
    let q = p / u;
    assert(q >= a) by (nonlinear_arith)
        requires
            q == p / u,
            u >= 1,
            p >= u * a,
    ;
    assert(q * u >= u * a && (q + 1) * u >= u * a) by (nonlinear_arith)
        requires
            q >= a,
            u >= 1,
    ;
}

/// A block of a kept patch is background.
pub proof fn kept_blocks_are_background(g: Grid, i: int)
    requires
        g.is_kept(i),
    ensures
        g.is_background(i),
{
    assert(g.near(i, i));
}

/// Blocks connected to each other are kept together or not at all.
pub proof fn a_patch_is_kept_as_a_whole(g: Grid, i: int, j: int)
    requires
        g.connected(i, j),
    ensures
        g.is_kept(i) == g.is_kept(j),
{
    lemma_one_patch(g, i, j);
    let path = choose|path: Seq<int>| g.leads(path, i, j);
    lemma_connected_back(g, path, i, j);
    lemma_open_end(g, j, i);
}

proof fn lemma_open_end(g: Grid, i: int, j: int)
    requires
        g.connected(i, j),
    ensures
        g.is_open(i),
{
    let path = choose|path: Seq<int>| g.leads(path, i, j);
    assert(g.leads(path, i, j));
}

/// The biggest patch is background, however it lies.
pub proof fn the_biggest_patch_is_background(g: Grid, i: int)
    requires
        g.is_open(i),
        g.is_biggest(i),
    ensures
        g.is_background(i),
{
    kept_blocks_are_background(g, i);
}

/// An enclosed patch that is neither the biggest, nor as small as the inside of a letter, nor as
/// big as a pane is not background, save for blocks that touch another, kept patch.
pub proof fn enclosed_patches_stay_solid(g: Grid, i: int)
    requires
        g.is_open(i),
        !g.is_biggest(i),
        !g.touches_edge(i),
        SMALL_PATCH <= g.patch(i).len() < pane_blocks(g.counts.len()),
        forall|j: int| #[trigger] g.is_open(j) && g.near(i, j) ==> g.connected(i, j),
    ensures
        !g.is_background(i),
{
    if g.is_background(i) {
        let j = choose|j: int| #[trigger] g.is_kept(j) && g.near(i, j);
        assert(g.is_open(j));
        lemma_one_patch(g, i, j);
    }
}

/// A block that no open block touches is not background.
pub proof fn content_stays_solid(g: Grid, i: int)
    requires
        forall|j: int| #[trigger] g.is_open(j) ==> !g.near(i, j),
    ensures
        !g.is_background(i),
{
}

/// `t` is the grid `g` of `height` rows with its rows and columns swapped: block (x, y) of one is
/// block (y, x) of the other.
pub open spec fn is_transposed(g: Grid, t: Grid, height: int) -> bool {
    &&& 0 <= g.width
    &&& 0 <= height
    &&& t.width == height
    &&& g.counts.len() == g.width * height
    &&& t.counts.len() == g.width * height
    &&& forall|i: int|
        g.has(i) ==> t.counts[flipped(g, height, i)] == #[trigger] g.counts[i]
    &&& forall|i: int|
        g.has(i) ==> t.colors[flipped(g, height, i)] == #[trigger] g.colors[i]
}

/// Where block `i` of `g` stands once rows and columns are swapped.
pub open spec fn flipped(g: Grid, height: int, i: int) -> int {
    g.x(i) * height + g.y(i)
}

proof fn lemma_flipped(g: Grid, t: Grid, height: int, i: int)
    requires
        is_transposed(g, t, height),
        g.has(i),
    ensures
        g.width > 0,
        height > 0,
        0 <= g.x(i) < g.width,
        0 <= g.y(i) < height,
        i == g.y(i) * g.width + g.x(i),
        t.has(flipped(g, height, i)),
        t.x(flipped(g, height, i)) == g.y(i),
        t.y(flipped(g, height, i)) == g.x(i),
        flipped(t, g.width, flipped(g, height, i)) == i,
        t.is_open(flipped(g, height, i)) == g.is_open(i),
        t.colors[flipped(g, height, i)] == g.colors[i],
        t.on_edge(flipped(g, height, i)) == g.on_edge(i),
{
    let w = g.width;
    let n = g.counts.len() as int;
    assert(w > 0 && height > 0) by (nonlinear_arith)
        requires
            0 <= w,
            0 <= height,
            w * height == n,
            n > 0,
    ;
    vstd::arithmetic::div_mod::lemma_fundamental_div_mod(i, w);
    let x = g.x(i);
    let y = g.y(i);
    assert(0 <= y) by (nonlinear_arith)
        requires
            y == i / w,
            i >= 0,
            w > 0,
    ;
    assert(w * y == y * w) by (nonlinear_arith);
    assert(y < height) by (nonlinear_arith)
        requires
            i == y * w + x,
            0 <= x,
            i < w * height,
            w > 0,
    ;
    let f = flipped(g, height, i);
    assert(0 <= f < n) by (nonlinear_arith)
        requires
            f == x * height + y,
            0 <= x < w,
            0 <= y < height,
            n == w * height,
    ;
    vstd::arithmetic::div_mod::lemma_fundamental_div_mod_converse(f, height, x, y);
    assert(t.counts[f] == g.counts[i]);
    assert(t.colors[f] == g.colors[i]);
    assert(i + w >= n <==> y + 1 >= height) by (nonlinear_arith)
        requires
            i == y * w + x,
            0 <= x < w,
            0 <= y < height,
            n == w * height,
    ;
    assert(f + height >= n <==> x + 1 >= w) by (nonlinear_arith)
        requires
            f == x * height + y,
            0 <= x < w,
            0 <= y < height,
            n == w * height,
    ;
}

/// Swapping rows and columns twice changes nothing.
proof fn lemma_transposed_back(g: Grid, t: Grid, height: int)
    requires
        is_transposed(g, t, height),
    ensures
        is_transposed(t, g, g.width),
{
    let w = g.width;
    assert(height * w == w * height) by (nonlinear_arith);
    assert forall|j: int| t.has(j) implies g.counts[flipped(t, w, j)] == #[trigger] t.counts[j] by {
        lemma_back(g, t, height, j);
    }
    assert forall|j: int| t.has(j) implies g.colors[flipped(t, w, j)] == #[trigger] t.colors[j] by {
        lemma_back(g, t, height, j);
    }
}

/// Every block of the swapped grid comes from one of the grid.
proof fn lemma_back(g: Grid, t: Grid, height: int, j: int)
    requires
        is_transposed(g, t, height),
        t.has(j),
    ensures
        g.has(flipped(t, g.width, j)),
        flipped(g, height, flipped(t, g.width, j)) == j,
        g.counts[flipped(t, g.width, j)] == t.counts[j],
        g.colors[flipped(t, g.width, j)] == t.colors[j],
{
    let w = g.width;
    let n = g.counts.len() as int;
    assert(w > 0 && height > 0) by (nonlinear_arith)
        requires
            0 <= w,
            0 <= height,
            w * height == n,
            n > 0,
    ;
    vstd::arithmetic::div_mod::lemma_fundamental_div_mod(j, height);
    let y = t.x(j);
    let x = t.y(j);
    assert(0 <= x) by (nonlinear_arith)
        requires
            x == j / height,
            j >= 0,
            height > 0,
    ;
    assert(height * x == x * height) by (nonlinear_arith);
    assert(x < w) by (nonlinear_arith)
        requires
            j == x * height + y,
            0 <= y,
            j < w * height,
            height > 0,
    ;
    let i = flipped(t, w, j);
    assert(0 <= i < n) by (nonlinear_arith)
        requires
            i == y * w + x,
            0 <= x < w,
            0 <= y < height,
            n == w * height,
    ;
    vstd::arithmetic::div_mod::lemma_fundamental_div_mod_converse(i, w, y, x);
    assert(t.counts[flipped(g, height, i)] == g.counts[i]);
    assert(t.colors[flipped(g, height, i)] == g.colors[i]);
}

proof fn lemma_linked_flipped(g: Grid, t: Grid, height: int, i: int, j: int)
    requires
        is_transposed(g, t, height),
        g.linked(i, j),
    ensures
        t.linked(flipped(g, height, i), flipped(g, height, j)),
{
    let w = g.width;
    lemma_flipped(g, t, height, i);
    lemma_flipped(g, t, height, j);
    lemma_rows(g.counts.len() as int, w, i);
    lemma_rows(g.counts.len() as int, w, j);
    let a = g.x(i);
    assert((a + 1) * height == a * height + height) by (nonlinear_arith);
    assert((a - 1) * height == a * height - height) by (nonlinear_arith);
}

proof fn lemma_connected_flipped(g: Grid, t: Grid, height: int, i: int, j: int)
    requires
        is_transposed(g, t, height),
        g.connected(i, j),
    ensures
        t.connected(flipped(g, height, i), flipped(g, height, j)),
{
    let path = choose|path: Seq<int>| g.leads(path, i, j);
    let other = path.map_values(|k: int| flipped(g, height, k));
    assert forall|k: int| 0 <= k < other.len() - 1 implies t.linked(
        #[trigger] other[k],
        other[k + 1],
    ) by {
        assert(g.linked(path[k], path[k + 1]));
        lemma_linked_flipped(g, t, height, path[k], path[k + 1]);
    }
    lemma_flipped(g, t, height, i);
    assert(t.leads(other, flipped(g, height, i), flipped(g, height, j)));
}

/// A patch has as many blocks once rows and columns are swapped.
proof fn lemma_patch_flipped(g: Grid, t: Grid, height: int, i: int)
    requires
        is_transposed(g, t, height),
        g.is_open(i),
    ensures
        t.patch(flipped(g, height, i)).len() == g.patch(i).len(),
{
    let f = |k: int| flipped(g, height, k);
    let a = g.patch(i);
    let b = t.patch(f(i));
    lemma_bounded(a, g.counts.len());
    lemma_transposed_back(g, t, height);
    lemma_flipped(g, t, height, i);
    assert forall|k: int, l: int|
        a.contains(k) && a.contains(l) && #[trigger] f(k) == #[trigger] f(l) implies k == l by {
        lemma_flipped(g, t, height, k);
        lemma_flipped(g, t, height, l);
    }
    assert(a.map(f) =~= b) by {
        assert forall|m: int| a.map(f).contains(m) implies b.contains(m) by {
            let k = choose|k: int| a.contains(k) && f(k) == m;
            lemma_flipped(g, t, height, k);
            lemma_connected_flipped(g, t, height, i, k);
        }
        assert forall|m: int| b.contains(m) implies a.map(f).contains(m) by {
            let k = flipped(t, g.width, m);
            lemma_back(g, t, height, m);
            lemma_connected_flipped(t, g, g.width, f(i), m);
            assert(a.contains(k));
            assert(f(k) == m);
        }
    }
    vstd::set_lib::lemma_map_size(a, b, f);
}

proof fn lemma_kept_flipped(g: Grid, t: Grid, height: int, i: int)
    requires
        is_transposed(g, t, height),
        g.is_kept(i),
    ensures
        t.is_kept(flipped(g, height, i)),
{
    let f = flipped(g, height, i);
    lemma_flipped(g, t, height, i);
    lemma_patch_flipped(g, t, height, i);
    if g.is_biggest(i) {
        assert forall|m: int| #[trigger] t.is_open(m) implies t.patch(m).len() <= t.patch(
            f,
        ).len() by {
            let k = flipped(t, g.width, m);
            lemma_back(g, t, height, m);
            lemma_flipped(g, t, height, k);
            assert(g.is_open(k));
            lemma_patch_flipped(g, t, height, k);
        }
    }
    if g.touches_edge(i) {
        let j = choose|j: int| #[trigger] g.patch(i).contains(j) && g.on_edge(j);
        lemma_flipped(g, t, height, j);
        lemma_connected_flipped(g, t, height, i, j);
        assert(t.patch(f).contains(flipped(g, height, j)));
    }
}

proof fn lemma_background_flipped(g: Grid, t: Grid, height: int, i: int)
    requires
        is_transposed(g, t, height),
        g.has(i),
        g.is_background(i),
    ensures
        t.is_background(flipped(g, height, i)),
{
    let j = choose|j: int| #[trigger] g.is_kept(j) && g.near(i, j);
    lemma_flipped(g, t, height, i);
    lemma_flipped(g, t, height, j);
    lemma_kept_flipped(g, t, height, j);
    assert(t.near(flipped(g, height, i), flipped(g, height, j)));
}

/// Neither direction is special: swapping the rows and columns of a frame swaps them in what is
/// background.
pub proof fn rows_and_columns_count_alike(g: Grid, t: Grid, height: int, x: int, y: int)
    requires
        is_transposed(g, t, height),
        0 <= x < g.width,
        0 <= y < height,
    ensures
        t.is_background(x * height + y) == g.is_background(y * g.width + x),
{
    let w = g.width;
    let i = y * w + x;
    assert(0 <= i < w * height) by (nonlinear_arith)
        requires
            i == y * w + x,
            0 <= x < w,
            0 <= y < height,
    ;
    vstd::arithmetic::div_mod::lemma_fundamental_div_mod_converse(i, w, y, x);
    lemma_flipped(g, t, height, i);
    if g.is_background(i) {
        lemma_background_flipped(g, t, height, i);
    }
    if t.is_background(flipped(g, height, i)) {
        lemma_transposed_back(g, t, height);
        lemma_background_flipped(t, g, w, flipped(g, height, i));
    }
}

/// Stepping sideways without leaving the row keeps the row.
proof fn lemma_side_step(width: int, i: int)
    requires
        width > 0,
        (i + 1) % width != 0,
    ensures
        i / width == (i + 1) / width,
{
    let q = (i + 1) / width;
    let r = (i + 1) % width;
    vstd::arithmetic::div_mod::lemma_fundamental_div_mod(i + 1, width);
    assert(i == q * width + (r - 1)) by (nonlinear_arith)
        requires
            i + 1 == width * q + r,
    ;
    vstd::arithmetic::div_mod::lemma_fundamental_div_mod_converse(i, width, q, r - 1);
}

/// A way over blocks of one color, step by step to the right, left, down or up, is one that a patch
/// goes.
proof fn lemma_way_leads(g: Grid, path: Seq<int>)
    requires
        g.width > 0,
        path.len() > 0,
        forall|k: int|
            0 <= k < path.len() ==> 0 <= #[trigger] path[k] < g.counts.len() && g.counts[path[k]]
                >= 8 && g.colors[path[k]] == g.colors[path[0]],
        forall|k: int|
            0 <= k < path.len() - 1 ==> {
                ||| #[trigger] path[k] + g.width == path[k + 1]
                ||| path[k + 1] + g.width == path[k]
                ||| path[k] + 1 == path[k + 1] && path[k + 1] % g.width != 0
                ||| path[k + 1] + 1 == path[k] && path[k] % g.width != 0
            },
    ensures
        g.leads(path, path[0], path.last()),
{
    assert forall|k: int| 0 <= k < path.len() - 1 implies g.linked(
        #[trigger] path[k],
        path[k + 1],
    ) by {
        let a = path[k];
        let b = path[k + 1];
        assert(g.counts[a] >= 8 && g.counts[b] >= 8);
        if a + 1 == b && b % g.width != 0 {
            lemma_side_step(g.width, a);
        }
        if b + 1 == a && a % g.width != 0 {
            lemma_side_step(g.width, b);
        }
    }
    assert(g.counts[path[0]] >= 8);
}

/// What reaches the edge of the window is background, whatever its size. From a block in the first
/// or last row or column, every block that can be reached over blocks of its color, each half full
/// of it at least, is background, and so is what touches one of those.
pub proof fn what_reaches_the_edge_is_background(g: Grid, path: Seq<int>, i: int)
    requires
        g.width > 0,
        path.len() > 0,
        path[0] < g.width || path[0] % g.width == 0 || path[0] % g.width == g.width - 1 || path[0]
            + g.width >= g.counts.len(),
        forall|k: int|
            0 <= k < path.len() ==> 0 <= #[trigger] path[k] < g.counts.len() && g.counts[path[k]]
                >= 8 && g.colors[path[k]] == g.colors[path[0]],
        forall|k: int|
            0 <= k < path.len() - 1 ==> {
                ||| #[trigger] path[k] + g.width == path[k + 1]
                ||| path[k + 1] + g.width == path[k]
                ||| path[k] + 1 == path[k + 1] && path[k + 1] % g.width != 0
                ||| path[k + 1] + 1 == path[k] && path[k] % g.width != 0
            },
        -1 <= i % g.width - path.last() % g.width <= 1,
        -1 <= i / g.width - path.last() / g.width <= 1,
    ensures
        g.is_background(path.last()),
        g.is_background(i),
{
    let start = path[0];
    let end = path[path.len() - 1];
    lemma_way_leads(g, path);
    assert(g.connected(start, end));
    assert(g.counts[start] >= 8);
    lemma_connected_self(g, start);
    if start < g.width {
        assert(start / g.width == 0) by (nonlinear_arith)
            requires
                0 <= start < g.width,
        ;
    }
    assert(g.on_edge(start));
    assert(g.patch(start).contains(start));
    assert(g.touches_edge(start));
    a_patch_is_kept_as_a_whole(g, start, end);
    assert(g.is_kept(end));
    assert(g.near(i, end));
    assert(g.near(end, end));
}

/// Blocks belong together exactly when a way leads from one to the other over blocks of one color,
/// each half full of it at least, step by step to the right, left, down or up.
pub proof fn blocks_belong_together_along_a_way(g: Grid, i: int, j: int)
    requires
        g.width > 0,
    ensures
        g.connected(i, j) <==> exists|path: Seq<int>|
            {
                &&& path.len() > 0
                &&& #[trigger] path.first() == i
                &&& path.last() == j
                &&& forall|k: int|
                    0 <= k < path.len() ==> 0 <= #[trigger] path[k] < g.counts.len()
                        && g.counts[path[k]] >= 8 && g.colors[path[k]] == g.colors[path[0]]
                &&& forall|k: int|
                    0 <= k < path.len() - 1 ==> {
                        ||| #[trigger] path[k] + g.width == path[k + 1]
                        ||| path[k + 1] + g.width == path[k]
                        ||| path[k] + 1 == path[k + 1] && path[k + 1] % g.width != 0
                        ||| path[k + 1] + 1 == path[k] && path[k] % g.width != 0
                    }
            },
        g.patch(i).contains(j) <==> 0 <= j < g.counts.len() && g.connected(i, j),
{
    if g.connected(i, j) {
        let path = choose|path: Seq<int>| g.leads(path, i, j);
        lemma_way_of(g, path, i, j);
        assert(path.first() == i);
    }
    if exists|path: Seq<int>|
        {
            &&& path.len() > 0
            &&& #[trigger] path.first() == i
            &&& path.last() == j
            &&& forall|k: int|
                0 <= k < path.len() ==> 0 <= #[trigger] path[k] < g.counts.len()
                    && g.counts[path[k]] >= 8 && g.colors[path[k]] == g.colors[path[0]]
            &&& forall|k: int|
                0 <= k < path.len() - 1 ==> {
                    ||| #[trigger] path[k] + g.width == path[k + 1]
                    ||| path[k + 1] + g.width == path[k]
                    ||| path[k] + 1 == path[k + 1] && path[k + 1] % g.width != 0
                    ||| path[k + 1] + 1 == path[k] && path[k] % g.width != 0
                }
        } {
        let path = choose|path: Seq<int>|
            {
                &&& path.len() > 0
                &&& #[trigger] path.first() == i
                &&& path.last() == j
                &&& forall|k: int|
                    0 <= k < path.len() ==> 0 <= #[trigger] path[k] < g.counts.len()
                        && g.counts[path[k]] >= 8 && g.colors[path[k]] == g.colors[path[0]]
                &&& forall|k: int|
                    0 <= k < path.len() - 1 ==> {
                        ||| #[trigger] path[k] + g.width == path[k + 1]
                        ||| path[k + 1] + g.width == path[k]
                        ||| path[k] + 1 == path[k + 1] && path[k + 1] % g.width != 0
                        ||| path[k + 1] + 1 == path[k] && path[k] % g.width != 0
                    }
            };
        lemma_way_leads(g, path);
    }
}

/// The way that a patch goes stays on open blocks of one color and steps to a side each time.
proof fn lemma_way_of(g: Grid, path: Seq<int>, i: int, j: int)
    requires
        g.width > 0,
        g.leads(path, i, j),
    ensures
        forall|k: int|
            0 <= k < path.len() ==> 0 <= #[trigger] path[k] < g.counts.len() && g.counts[path[k]]
                >= 8 && g.colors[path[k]] == g.colors[path[0]],
        forall|k: int|
            0 <= k < path.len() - 1 ==> {
                ||| #[trigger] path[k] + g.width == path[k + 1]
                ||| path[k + 1] + g.width == path[k]
                ||| path[k] + 1 == path[k + 1] && path[k + 1] % g.width != 0
                ||| path[k + 1] + 1 == path[k] && path[k] % g.width != 0
            },
    decreases path.len(),
{
    if path.len() > 1 {
        let front = path.drop_last();
        let n = path.len();
        assert forall|k: int| 0 <= k < front.len() - 1 implies g.linked(
            #[trigger] front[k],
            front[k + 1],
        ) by {
            assert(g.linked(path[k], path[k + 1]));
        }
        lemma_way_of(g, front, i, front.last());
        assert(g.linked(path[n - 2], path[n - 2 + 1]));
        assert forall|k: int| 0 <= k < path.len() implies 0 <= #[trigger] path[k] < g.counts.len()
            && g.counts[path[k]] >= 8 && g.colors[path[k]] == g.colors[path[0]] by {
            if k < n - 1 {
                assert(front[k] == path[k]);
            } else {
                assert(front[n - 2] == path[n - 2]);
            }
        }
        assert forall|k: int| 0 <= k < path.len() - 1 implies {
            ||| #[trigger] path[k] + g.width == path[k + 1]
            ||| path[k + 1] + g.width == path[k]
            ||| path[k] + 1 == path[k + 1] && path[k + 1] % g.width != 0
            ||| path[k + 1] + 1 == path[k] && path[k] % g.width != 0
        } by {
            assert(g.linked(path[k], path[k + 1]));
            lemma_row_ends(g.width, path[k]);
            lemma_row_ends(g.width, path[k + 1]);
        }
    }
}

/// The first block of a row is in another row than the one before it.
proof fn lemma_row_ends(width: int, i: int)
    requires
        width > 0,
    ensures
        i % width == 0 ==> (i - 1) / width != i / width,
{
    if i % width == 0 {
        let q = i / width;
        vstd::arithmetic::div_mod::lemma_fundamental_div_mod(i, width);
        assert(i - 1 == (q - 1) * width + (width - 1)) by (nonlinear_arith)
            requires
                i == width * q,
        ;
        vstd::arithmetic::div_mod::lemma_fundamental_div_mod_converse(
            i - 1,
            width,
            q - 1,
            width - 1,
        );
    }
}

/// The inside of a letter is background: blocks that form a patch of fewer than 16 together,
/// wherever it lies, and what touches one of them.
pub proof fn the_inside_of_letters_is_background(g: Grid, i: int, j: int)
    requires
        g.width > 0,
        0 <= i < g.counts.len(),
        g.counts[i] >= 8,
        g.patch(i).len() < 16,
        -1 <= j % g.width - i % g.width <= 1,
        -1 <= j / g.width - i / g.width <= 1,
    ensures
        g.is_background(i),
        g.is_background(j),
{
    assert(g.is_kept(i));
    assert(g.near(i, i));
    assert(g.near(j, i));
}

/// A pane is background: a patch of a twentieth of the window or more, wherever it lies, and what
/// touches it. The biggest patch is too, however small it is.
pub proof fn panes_and_the_biggest_patch_are_background(g: Grid, i: int, j: int)
    requires
        g.width > 0,
        0 <= i < g.counts.len() < 0x100_0000,
        g.counts[i] >= 8,
        g.patch(i).len() >= g.counts.len() / 20 || forall|k: int|
            0 <= k < g.counts.len() && #[trigger] g.counts[k] >= 8 ==> g.patch(k).len() <= g.patch(
                i,
            ).len(),
        -1 <= j % g.width - i % g.width <= 1,
        -1 <= j / g.width - i / g.width <= 1,
    ensures
        g.is_background(i),
        g.is_background(j),
{
    a_pane_is_a_twentieth(g.counts.len());
    if g.patch(i).len() < g.counts.len() / 20 {
        assert forall|k: int| #[trigger] g.is_open(k) implies g.patch(k).len() <= g.patch(
            i,
        ).len() by {
            assert(g.counts[k] >= 8);
        }
        assert(g.is_biggest(i));
    }
    assert(g.is_kept(i));
    assert(g.near(i, i));
    assert(g.near(j, i));
}

/// A picture stays solid: a patch of 16 blocks or more and less than a twentieth of the window,
/// smaller than some other and away from the edges, is not background where it touches no other
/// patch.
pub proof fn flat_parts_of_pictures_stay_solid(g: Grid, i: int, bigger: int)
    requires
        g.width > 0,
        0 <= i < g.counts.len() < 0x100_0000,
        g.counts[i] >= 8,
        16 <= g.patch(i).len() < g.counts.len() / 20,
        0 <= bigger < g.counts.len(),
        g.counts[bigger] >= 8,
        g.patch(bigger).len() > g.patch(i).len(),
        forall|j: int| #[trigger]
            g.patch(i).contains(j) ==> j >= g.width && j % g.width != 0 && j % g.width != g.width
                - 1 && j + g.width < g.counts.len(),
        forall|j: int|
            0 <= j < g.counts.len() && #[trigger] g.counts[j] >= 8 && -1 <= i % g.width - j
                % g.width <= 1 && -1 <= i / g.width - j / g.width <= 1 ==> g.connected(i, j),
    ensures
        !g.is_background(i),
{
    a_pane_is_a_twentieth(g.counts.len());
    assert(g.is_open(bigger));
    assert(!g.is_biggest(i));
    assert(!g.touches_edge(i)) by {
        assert forall|j: int| #[trigger] g.patch(i).contains(j) implies !g.on_edge(j) by {
            assert(j / g.width > 0) by (nonlinear_arith)
                requires
                    j >= g.width,
                    g.width > 0,
            ;
        }
    }
    assert forall|j: int| #[trigger] g.is_open(j) && g.near(i, j) implies g.connected(i, j) by {
        assert(g.counts[j] >= 8);
    }
    enclosed_patches_stay_solid(g, i);
}

/// What nothing open touches stays solid.
pub proof fn what_nothing_open_touches_stays_solid(g: Grid, i: int)
    requires
        forall|j: int|
            0 <= j < g.counts.len() && #[trigger] g.counts[j] >= 8 ==> !(-1 <= i % g.width - j
                % g.width <= 1 && -1 <= i / g.width - j / g.width <= 1),
    ensures
        !g.is_background(i),
{
    assert forall|j: int| #[trigger] g.is_open(j) implies !g.near(i, j) by {
        assert(g.counts[j] >= 8);
    }
}

/// Nothing else is background: a background block is, or touches, one of a patch that lies at the
/// edge, has fewer than 16 blocks, makes up a twentieth of the window, or is the biggest.
pub proof fn only_such_patches_are_background(g: Grid, i: int)
    requires
        g.width > 0,
        g.counts.len() < 0x100_0000,
        g.is_background(i),
    ensures
        exists|j: int|
            {
                &&& 0 <= j < g.counts.len()
                &&& #[trigger] g.counts[j] >= 8
                &&& -1 <= i % g.width - j % g.width <= 1
                &&& -1 <= i / g.width - j / g.width <= 1
                &&& {
                    ||| g.patch(j).len() < 16
                    ||| g.patch(j).len() >= g.counts.len() / 20
                    ||| forall|k: int|
                        0 <= k < g.counts.len() && #[trigger] g.counts[k] >= 8 ==> g.patch(k).len()
                            <= g.patch(j).len()
                    ||| exists|k: int| #[trigger]
                        g.patch(j).contains(k) && (k < g.width || k % g.width == 0 || k % g.width
                            == g.width - 1 || k + g.width >= g.counts.len())
                }
            },
{
    a_pane_is_a_twentieth(g.counts.len());
    let j = choose|j: int| #[trigger] g.is_kept(j) && g.near(i, j);
    assert(g.counts[j] >= 8);
    if g.is_biggest(j) {
        assert forall|k: int|
            0 <= k < g.counts.len() && #[trigger] g.counts[k] >= 8 implies g.patch(k).len()
            <= g.patch(j).len() by {
            assert(g.is_open(k));
        }
    }
    if g.touches_edge(j) {
        let k = choose|k: int| #[trigger] g.patch(j).contains(k) && g.on_edge(k);
        if k / g.width == 0 {
            assert(k < g.width) by (nonlinear_arith)
                requires
                    k / g.width == 0,
                    g.width > 0,
                    k >= 0,
            ;
        }
        assert(g.patch(j).contains(k) && (k < g.width || k % g.width == 0 || k % g.width == g.width
            - 1 || k + g.width >= g.counts.len()));
    }
}

} // verus!
