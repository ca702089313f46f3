//! The flat background colors of an app, read from a few rows of its picture.

use crate::single;
use std::collections::HashMap;
use vstd::prelude::*;

verus! {

/// A run of one color must be at least this long to count as a pane. Text is never this long.
pub const RUN_MIN: usize = 16;

/// Background colors keyed out at once.
pub const MAX_KEYS: usize = 4;

/// A color as one number, ordered as its red, green, and blue are.
pub open spec fn rgb(color: [u8; 3]) -> u32 {
    (color@[0] * 0x10000 + color@[1] * 0x100 + color@[2]) as u32
}

/// Rows of BGRA pixels, `width` pixels each.
pub struct Pixels {
    pub bytes: Seq<u8>,
    pub width: int,
}

impl Pixels {
    /// The pixels in complete rows.
    pub open spec fn len(self) -> nat {
        (self.bytes.len() as int / (4 * self.width) * self.width) as nat
    }

    pub open spec fn is_opaque(self, p: int) -> bool {
        self.bytes[4 * p + 3] == 255
    }

    pub open spec fn color(self, p: int) -> u32 {
        (self.bytes[4 * p + 2] * 0x10000 + self.bytes[4 * p + 1] * 0x100 + self.bytes[4 * p]) as u32
    }

    pub open spec fn same(self, p: int, q: int) -> bool {
        &&& self.bytes[4 * p] == self.bytes[4 * q]
        &&& self.bytes[4 * p + 1] == self.bytes[4 * q + 1]
        &&& self.bytes[4 * p + 2] == self.bytes[4 * q + 2]
        &&& self.bytes[4 * p + 3] == self.bytes[4 * q + 3]
    }

    /// The stretch of `RUN_MIN` pixels from `l` on lies in one row and is all like `p`.
    pub open spec fn is_stretch(self, l: int, p: int) -> bool {
        &&& 0 <= l
        &&& l % self.width + RUN_MIN <= self.width
        &&& forall|q: int| l <= q < l + RUN_MIN ==> #[trigger] self.same(q, p)
    }

    /// The pixel is part of a run of at least `RUN_MIN` equal ones in its row.
    pub open spec fn in_run(self, p: int) -> bool {
        exists|l: int| l <= p < l + RUN_MIN && #[trigger] self.is_stretch(l, p)
    }

    pub open spec fn counts_as(self, p: int, c: u32) -> bool {
        self.is_opaque(p) && self.color(p) == c
    }

    /// How many of the first `n` pixels are opaque.
    pub open spec fn opaque(self, n: nat) -> nat
        decreases n,
    {
        if n == 0 {
            0
        } else {
            self.opaque((n - 1) as nat) + if self.is_opaque(n - 1) {
                1nat
            } else {
                0
            }
        }
    }

    /// How many of the first `n` pixels are opaque and of color `c`.
    pub open spec fn total(self, c: u32, n: nat) -> nat
        decreases n,
    {
        if n == 0 {
            0
        } else {
            self.total(c, (n - 1) as nat) + if self.counts_as(n - 1, c) {
                1nat
            } else {
                0
            }
        }
    }

    /// How many of the first `n` pixels are opaque, of color `c`, and part of a long run.
    pub open spec fn in_runs(self, c: u32, n: nat) -> nat
        decreases n,
    {
        if n == 0 {
            0
        } else {
            self.in_runs(c, (n - 1) as nat) + if self.counts_as(n - 1, c) && self.in_run(n - 1) {
                1nat
            } else {
                0
            }
        }
    }

    /// The share of color `c` in the opaque pixels is at least `m / scale`.
    pub open spec fn covers(self, c: u32, m: nat, scale: nat) -> bool {
        single::share_reaches(self.total(c, self.len()), self.opaque(self.len()), m, scale)
    }

    /// The share of long runs of color `c` in the opaque pixels is at least `m / scale`.
    pub open spec fn fills(self, c: u32, m: nat, scale: nat) -> bool {
        single::share_reaches(self.in_runs(c, self.len()), self.opaque(self.len()), m, scale)
    }

    /// Color `c` is common enough to be taken for the main background: a fifth of the pixels, as a
    /// single precision number.
    pub open spec fn is_common(self, c: u32) -> bool {
        self.covers(c, 13421773, 0x400_0000)
    }

    /// Color `c` is common enough to stay the main background: a tenth of the pixels.
    pub open spec fn is_still_common(self, c: u32) -> bool {
        self.covers(c, 13421773, 0x800_0000)
    }

    /// Color `c` comes before `d`: it is more frequent, or as frequent and lower.
    pub open spec fn more_common(self, c: u32, d: u32) -> bool {
        let a = self.total(c, self.len());
        let b = self.total(d, self.len());
        a > b || (a == b && c < d)
    }

    /// Color `c` comes before `d` by the long runs of each.
    pub open spec fn fills_more(self, c: u32, d: u32) -> bool {
        let a = self.in_runs(c, self.len());
        let b = self.in_runs(d, self.len());
        a > b || (a == b && c < d)
    }

    /// No color of an opaque pixel comes before `c`, which is one itself.
    pub open spec fn is_most_common(self, c: u32) -> bool {
        &&& self.total(c, self.len()) > 0
        &&& forall|d: u32|
            d != c && #[trigger] self.total(d, self.len()) > 0 ==> self.more_common(c, d)
    }

    /// The main background: the current one while it stays common, else the most common color
    /// when it is common enough.
    pub open spec fn is_main(self, current: Seq<[u8; 3]>, c: u32) -> bool {
        if current.len() > 0 && self.is_still_common(rgb(current[0])) {
            c == rgb(current[0])
        } else {
            self.is_most_common(c) && self.is_common(c)
        }
    }

    pub open spec fn holds(current: Seq<[u8; 3]>, c: u32) -> bool {
        exists|k: int| 0 <= k < current.len() && rgb(#[trigger] current[k]) == c
    }

    /// Color `c` fills enough long runs to be a pane beside the main background: three hundredths
    /// of the pixels for a new one, and half of that for one in `current`.
    pub open spec fn is_pane(self, current: Seq<[u8; 3]>, main: u32, c: u32) -> bool {
        &&& c != main
        &&& if Self::holds(current, c) {
            self.fills(c, 16106127, 0x4000_0000)
        } else {
            self.fills(c, 16106127, 0x2000_0000)
        }
    }

    /// `keys` are the main background and the panes that come first by their long runs, in that
    /// order, as many as fit; nothing when there is no main background.
    pub open spec fn are_keys(self, current: Seq<[u8; 3]>, keys: Seq<[u8; 3]>) -> bool {
        &&& keys.len() == 0 <==> !(exists|c: u32| self.is_main(current, c))
        &&& keys.len() > 0 ==> {
            &&& keys.len() <= MAX_KEYS
            &&& self.is_main(current, rgb(keys[0]))
            &&& forall|k: int|
                1 <= k < keys.len() ==> self.is_pane(current, rgb(keys[0]), rgb(#[trigger] keys[k]))
            &&& forall|k: int, l: int|
                1 <= k < l < keys.len() ==> self.fills_more(
                    rgb(#[trigger] keys[k]),
                    rgb(#[trigger] keys[l]),
                )
            &&& forall|c: u32| #[trigger]
                self.is_pane(current, rgb(keys[0]), c) ==> Self::holds(keys, c) || (keys.len()
                    == MAX_KEYS && self.fills_more(rgb(keys[MAX_KEYS - 1]), c))
        }
    }
}

/// How often each color was seen.
struct Tally {
    index: HashMap<u32, usize>,
    colors: Vec<u32>,
    counts: Vec<usize>,
}

impl Tally {
    spec fn ok(self) -> bool {
        &&& self.colors@.len() == self.counts@.len()
        &&& forall|k: int|
            0 <= k < self.colors@.len() ==> self.index@.contains_key(#[trigger] self.colors@[k])
                && self.index@[self.colors@[k]] == k
        &&& forall|c: u32| #[trigger]
            self.index@.contains_key(c) ==> self.index@[c] < self.colors@.len()
                && self.colors@[self.index@[c] as int] == c
    }

    spec fn of(self, c: u32) -> nat {
        if self.index@.contains_key(c) {
            self.counts@[self.index@[c] as int] as nat
        } else {
            0
        }
    }

    fn new() -> (r: Tally)
        ensures
            r.ok(),
            r.colors@.len() == 0,
            forall|c: u32| r.of(c) == 0,
    {
        Tally { index: HashMap::new(), colors: Vec::new(), counts: Vec::new() }
    }

    fn count(&self, c: u32) -> (r: usize)
        requires
            self.ok(),
        ensures
            r == self.of(c),
    {
        broadcast use vstd::std_specs::hash::group_hash_axioms;

        match self.index.get(&c) {
            Some(k) => self.counts[*k],
            None => 0,
        }
    }

    fn add_to(&mut self, c: u32, n: usize)
        requires
            old(self).ok(),
            old(self).of(c) + n <= usize::MAX,
        ensures
            final(self).ok(),
            forall|d: u32|
                #[trigger] final(self).of(d) == old(self).of(d) + if d == c {
                    n as nat
                } else {
                    0
                },
            forall|k: int|
                0 <= k < final(self).colors@.len() ==> #[trigger] final(self).colors@[k] == c
                    || old(self).colors@.contains(final(self).colors@[k]),
    {
        broadcast use vstd::std_specs::hash::group_hash_axioms;

        let found: Option<usize> = match self.index.get(&c) {
            Some(k) => Some(*k),
            None => None,
        };
        match found {
            Some(k) => {
                let v: usize = self.counts[k];
                self.counts.set(k, v + n);
                assert forall|d: u32|
                    #[trigger] self.of(d) == old(self).of(d) + if d == c {
                        n as nat
                    } else {
                        0
                    } by {
                    if old(self).index@.contains_key(d) && d != c {
                        assert(old(self).colors@[old(self).index@[d] as int] == d);
                        assert(old(self).colors@[k as int] == c);
                    }
                }
            },
            None => {
                let k: usize = self.colors.len();
                self.index.insert(c, k);
                self.colors.push(c);
                self.counts.push(n);
                assert forall|i: int| 0 <= i < self.colors@.len() implies self.index@.contains_key(
                    #[trigger] self.colors@[i],
                ) && self.index@[self.colors@[i]] == i by {
                    if i < k {
                        assert(old(self).colors@[i] == self.colors@[i]);
                        assert(old(self).index@.contains_key(old(self).colors@[i]));
                    }
                }
            },
        }
    }
}

fn packed(r: u8, g: u8, b: u8) -> (n: u32)
    ensures
        n == r * 0x10000 + g * 0x100 + b,
        n < 0x100_0000,
{
    r as u32 * 0x10000 + g as u32 * 0x100 + b as u32
}

fn unpacked(c: u32) -> (r: [u8; 3])
    requires
        c < 0x100_0000,
    ensures
        rgb(r) == c,
{
    let r: [u8; 3] = [(c / 0x10000) as u8, (c / 0x100 % 0x100) as u8, (c % 0x100) as u8];
    r
}

fn key_of(color: &[u8; 3]) -> (r: u32)
    ensures
        r == rgb(*color),
        r < 0x100_0000,
{
    packed(color[0], color[1], color[2])
}

proof fn lemma_totals(f: Pixels, c: u32, n: nat)
    ensures
        f.total(c, n) <= f.opaque(n) <= n,
        f.in_runs(c, n) <= f.total(c, n),
    decreases n,
{
    if n > 0 {
        lemma_totals(f, c, (n - 1) as nat);
    }
}

proof fn lemma_within_row(width: int, l: int, d: int)
    requires
        width > 0,
        0 <= l,
        0 <= d,
        l % width + d < width,
    ensures
        (l + d) % width == l % width + d,
{
    vstd::arithmetic::div_mod::lemma_fundamental_div_mod(l, width);
    let q = l / width;
    assert(q * width == width * q) by (nonlinear_arith);
    vstd::arithmetic::div_mod::lemma_fundamental_div_mod_converse(l + d, width, q, l % width + d);
}

/// The pixels from `s` to `e` are one run: all equal, in one row, and the pixel on each side is
/// different or in another row.
spec fn is_run(f: Pixels, s: int, e: int) -> bool {
    &&& 0 <= s < e <= f.len()
    &&& s % f.width + (e - s) <= f.width
    &&& forall|q: int| s <= q < e ==> #[trigger] f.same(q, s)
    &&& starts_run(f, s)
    &&& starts_run(f, e)
}

spec fn starts_run(f: Pixels, p: int) -> bool {
    p % f.width == 0 || p >= f.len() || !f.same(p - 1, p)
}

/// In a run, a pixel is part of a long run when the run is long.
proof fn lemma_run_length(f: Pixels, s: int, e: int, p: int)
    requires
        f.width > 0,
        is_run(f, s, e),
        s <= p < e,
    ensures
        f.in_run(p) == (e - s >= RUN_MIN),
{
    if e - s >= RUN_MIN {
        let l = if p + RUN_MIN <= e { p } else { e - RUN_MIN };
        lemma_within_row(f.width, s, l - s);
        assert forall|q: int| l <= q < l + RUN_MIN implies #[trigger] f.same(q, p) by {
            assert(f.same(q, s) && f.same(p, s));
        }
        assert(f.is_stretch(l, p));
    } else if f.in_run(p) {
        let l = choose|l: int| l <= p < l + RUN_MIN && #[trigger] f.is_stretch(l, p);
        if l < s {
            lemma_within_row(f.width, l, s - l);
            assert(f.same(s - 1, p) && f.same(s, p));
            assert(f.same(s - 1, s));
        } else {
            lemma_within_row(f.width, l, e - l);
            assert(f.same(e - 1, p) && f.same(e, p));
            assert(f.same(e - 1, e));
            lemma_row_fits(f, s, e);
        }
    }
}

/// Past the last pixel a new row starts.
proof fn lemma_row_fits(f: Pixels, s: int, e: int)
    requires
        f.width > 0,
        0 <= s < e <= f.len(),
    ensures
        e == f.len() ==> e % f.width == 0,
{
    let q = f.bytes.len() as int / (4 * f.width);
    assert(q >= 0) by (nonlinear_arith)
        requires
            q == f.bytes.len() as int / (4 * f.width),
            f.width > 0,
    ;
    assert(q * f.width >= 0) by (nonlinear_arith)
        requires
            q >= 0,
            f.width > 0,
    ;
    if e == f.len() {
        assert(e == q * f.width);
        assert(e % f.width == 0) by (nonlinear_arith)
            requires
                e == q * f.width,
                f.width > 0,
        ;
    }
}

/// What one run adds to the counts.
proof fn lemma_run_counts(f: Pixels, c: u32, s: int, e: int, p: int)
    requires
        f.width > 0,
        is_run(f, s, e),
        s <= p <= e,
    ensures
        f.opaque(p as nat) == f.opaque(s as nat) + if f.is_opaque(s) {
            p - s
        } else {
            0
        },
        f.total(c, p as nat) == f.total(c, s as nat) + if f.counts_as(s, c) {
            p - s
        } else {
            0
        },
        f.in_runs(c, p as nat) == f.in_runs(c, s as nat) + if f.counts_as(s, c) && e - s >= RUN_MIN {
            p - s
        } else {
            0
        },
    decreases p - s,
{
    if p > s {
        lemma_run_counts(f, c, s, e, p - 1);
        assert(f.same(p - 1, s));
        lemma_run_length(f, s, e, p - 1);
    }
}

/// The end of the run that starts at pixel `s`, whose row ends at pixel `row_end`.
fn run_end(bgra: &[u8], s: usize, row_end: usize, Ghost(f): Ghost<Pixels>) -> (e: usize)
    requires
        f.bytes == bgra@,
        f.width > 0,
        s < row_end <= f.len(),
        4 * f.len() <= bgra@.len(),
        row_end as int % f.width == 0,
        s as int % f.width + (row_end - s) == f.width,
        starts_run(f, s as int),
    ensures
        e <= row_end,
        is_run(f, s as int, e as int),
{
    let size: usize = bgra.len();
    let mut e: usize = s + 1;
    while e < row_end && bgra[4 * e] == bgra[4 * s] && bgra[4 * e + 1] == bgra[4 * s + 1] && bgra[4
        * e + 2] == bgra[4 * s + 2] && bgra[4 * e + 3] == bgra[4 * s + 3]
        invariant
            f.bytes == bgra@,
            s < e <= row_end <= f.len(),
            4 * f.len() <= bgra@.len(),
            bgra@.len() == size,
            forall|q: int| s <= q < e ==> #[trigger] f.same(q, s as int),
        decreases row_end - e,
    {
        e += 1;
    }
    assert(f.same(e - 1, s as int));
    e
}

/// Counts the colors of the complete rows of `bgra`, all of them and those in long runs, and the
/// opaque pixels.
fn count_colors(bgra: &[u8], width: usize, Ghost(f): Ghost<Pixels>) -> (r: (Tally, Tally, usize))
    requires
        f.bytes == bgra@,
        f.width == width,
        0 < width,
        4 * width <= usize::MAX,
    ensures
        r.0.ok(),
        r.1.ok(),
        forall|c: u32| #[trigger] r.0.of(c) == f.total(c, f.len()),
        forall|c: u32| #[trigger] r.1.of(c) == f.in_runs(c, f.len()),
        r.2 == f.opaque(f.len()),
        forall|k: int| 0 <= k < r.0.colors@.len() ==> r.0.colors@[k] < 0x100_0000,
        forall|k: int| 0 <= k < r.1.colors@.len() ==> r.1.colors@[k] < 0x100_0000,
{
    let mut all: Tally = Tally::new();
    let mut runs: Tally = Tally::new();
    let mut opaque: usize = 0;
    let size: usize = bgra.len();
    let rows: usize = size / (4 * width);
    assert(rows * width * 4 <= bgra.len()) by (nonlinear_arith)
        requires
            rows == bgra.len() as int / (4 * width as int),
            width > 0,
    ;
    assert(f.len() == rows * width) by {
        assert(rows * width >= 0) by (nonlinear_arith)
            requires
                rows >= 0,
                width >= 0,
        ;
    }
    let mut row: usize = 0;
    let mut start: usize = 0;
    while row < rows
        invariant
            f.bytes == bgra@,
            f.width == width,
            0 < width,
            4 * width <= usize::MAX,
            f.len() == rows * width,
            4 * f.len() <= bgra@.len(),
            bgra@.len() == size,
            row <= rows,
            start == row * width,
            all.ok(),
            runs.ok(),
            forall|c: u32| #[trigger] all.of(c) == f.total(c, start as nat),
            forall|c: u32| #[trigger] runs.of(c) == f.in_runs(c, start as nat),
            opaque == f.opaque(start as nat),
            forall|k: int| 0 <= k < all.colors@.len() ==> all.colors@[k] < 0x100_0000,
            forall|k: int| 0 <= k < runs.colors@.len() ==> runs.colors@[k] < 0x100_0000,
        decreases rows - row,
    {
        assert((row + 1) * width <= rows * width && (row + 1) * width == row * width + width)
            by (nonlinear_arith)
            requires
                row < rows,
                width > 0,
        ;
        let row_start: usize = start;
        let row_end: usize = start + width;
        proof {
            lemma_multiple(row as int, width as int);
            lemma_multiple(row + 1, width as int);
        }
        while start < row_end
            invariant
                f.bytes == bgra@,
                f.width == width,
                0 < width,
                4 * width <= usize::MAX,
                4 * f.len() <= bgra@.len(),
                bgra@.len() == size,
                row_start <= start <= row_end <= f.len(),
                row_end == row_start + width,
                row_start % width == 0,
                row_end % width == 0,
                starts_run(f, start as int),
                all.ok(),
                runs.ok(),
                forall|c: u32| #[trigger] all.of(c) == f.total(c, start as nat),
                forall|c: u32| #[trigger] runs.of(c) == f.in_runs(c, start as nat),
                opaque == f.opaque(start as nat),
                forall|k: int| 0 <= k < all.colors@.len() ==> all.colors@[k] < 0x100_0000,
                forall|k: int| 0 <= k < runs.colors@.len() ==> runs.colors@[k] < 0x100_0000,
            decreases row_end - start,
        {
            proof {
                lemma_within_row(width as int, row_start as int, start - row_start);
            }
            let end: usize = run_end(bgra, start, row_end, Ghost(f));
            let length: usize = end - start;
            proof {
                lemma_run_counts(f, 0, start as int, end as int, end as int);
                lemma_totals(f, 0, end as nat);
            }
            if bgra[4 * start + 3] == 255 {
                let color: u32 = packed(
                    bgra[4 * start + 2],
                    bgra[4 * start + 1],
                    bgra[4 * start],
                );
                proof {
                    lemma_run_counts(f, color, start as int, end as int, end as int);
                    lemma_totals(f, color, end as nat);
                }
                opaque += length;
                assert(all.of(color) == f.total(color, start as nat));
                assert(runs.of(color) == f.in_runs(color, start as nat));
                all.add_to(color, length);
                if length >= RUN_MIN {
                    runs.add_to(color, length);
                }
            }
            proof {
                assert forall|c: u32| #[trigger] all.of(c) == f.total(c, end as nat) by {
                    lemma_run_counts(f, c, start as int, end as int, end as int);
                }
                assert forall|c: u32| #[trigger] runs.of(c) == f.in_runs(c, end as nat) by {
                    lemma_run_counts(f, c, start as int, end as int, end as int);
                }
            }
            start = end;
        }
        row += 1;
    }
    (all, runs, opaque)
}

/// The color that most opaque pixels have, the lowest of several.
fn most_common(all: &Tally, Ghost(f): Ghost<Pixels>) -> (r: Option<u32>)
    requires
        all.ok(),
        forall|c: u32| #[trigger] all.of(c) == f.total(c, f.len()),
    ensures
        match r {
            Some(c) => f.is_most_common(c) && all.colors@.contains(c),
            None => forall|c: u32| #[trigger] f.total(c, f.len()) == 0,
        },
{
    let mut best: Option<u32> = None;
    let mut count: usize = 0;
    let mut i: usize = 0;
    while i < all.colors.len()
        invariant
            all.ok(),
            forall|c: u32| #[trigger] all.of(c) == f.total(c, f.len()),
            i <= all.colors@.len(),
            match best {
                Some(c) => count > 0 && count == f.total(c, f.len()) && all.colors@.contains(c)
                    && forall|k: int|
                    0 <= k < i && #[trigger] all.colors@[k] != c ==> f.more_common(
                        c,
                        all.colors@[k],
                    ) || f.total(all.colors@[k], f.len()) == 0,
                None => count == 0 && forall|k: int|
                    0 <= k < i ==> f.total(#[trigger] all.colors@[k], f.len()) == 0,
            },
        decreases all.colors.len() - i,
    {
        let c: u32 = all.colors[i];
        let n: usize = all.counts[i];
        assert(all.index@.contains_key(all.colors@[i as int]));
        assert(all.of(c) == n);
        let better: bool = match best {
            Some(b) => n > count || (n == count && c < b),
            None => n > 0,
        };
        if better {
            best = Some(c);
            count = n;
        }
        i += 1;
    }
    proof {
        assert forall|d: u32| #[trigger] f.total(d, f.len()) > 0 implies exists|k: int|
            0 <= k < all.colors@.len() && #[trigger] all.colors@[k] == d by {
            assert(all.of(d) > 0);
            assert(all.colors@[all.index@[d] as int] == d);
        }
    }
    best
}

fn is_held(current: &[[u8; 3]], c: u32) -> (r: bool)
    ensures
        r == Pixels::holds(current@, c),
{
    let mut i: usize = 0;
    while i < current.len()
        invariant
            i <= current@.len(),
            forall|k: int| 0 <= k < i ==> rgb(#[trigger] current@[k]) != c,
        decreases current.len() - i,
    {
        if key_of(&current[i]) == c {
            assert(rgb(current@[i as int]) == c);
            return true;
        }
        i += 1;
    }
    false
}

proof fn lemma_no_share(total: nat, m: nat, scale: nat)
    requires
        m >= 1,
    ensures
        !single::share_reaches(0, total, m, scale),
{
    let whole = if total == 0 { 1 } else { total };
    single::lemma_single(0);
    single::lemma_single(whole);
    let b = single::single(whole);
    assert((2 * m - 1) * b >= 0) by (nonlinear_arith)
        requires
            m >= 1,
            b >= 0,
    ;
    assert(2 * 0 * scale == 0) by (nonlinear_arith);
}

/// Color `c` comes after the one picked last.
spec fn after(f: Pixels, last: Option<u32>, c: u32) -> bool {
    match last {
        Some(l) => f.fills_more(l, c),
        None => true,
    }
}

/// The first pane in the order of long runs that comes after the one picked last.
fn next_pane(
    runs: &Tally,
    opaque: usize,
    current: &[[u8; 3]],
    main: u32,
    last: Option<u32>,
    Ghost(f): Ghost<Pixels>,
) -> (r: Option<u32>)
    requires
        runs.ok(),
        forall|c: u32| #[trigger] runs.of(c) == f.in_runs(c, f.len()),
        opaque == f.opaque(f.len()),
    ensures
        match r {
            Some(c) => f.is_pane(current@, main, c) && after(f, last, c) && runs.colors@.contains(c)
                && forall|d: u32|
                d != c && #[trigger] f.is_pane(current@, main, d) && after(f, last, d)
                    ==> f.fills_more(c, d),
            None => forall|d: u32| #[trigger]
                f.is_pane(current@, main, d) ==> !after(f, last, d),
        },
{
    let mut best: Option<u32> = None;
    let mut count: usize = 0;
    let last_count: usize = match last {
        Some(l) => runs.count(l),
        None => 0,
    };
    let mut i: usize = 0;
    while i < runs.colors.len()
        invariant
            runs.ok(),
            forall|c: u32| #[trigger] runs.of(c) == f.in_runs(c, f.len()),
            opaque == f.opaque(f.len()),
            last matches Some(l) ==> last_count == f.in_runs(l, f.len()),
            i <= runs.colors@.len(),
            match best {
                Some(c) => count == f.in_runs(c, f.len()) && f.is_pane(current@, main, c) && after(
                    f,
                    last,
                    c,
                ) && runs.colors@.contains(c) && forall|k: int|
                    0 <= k < i && #[trigger] runs.colors@[k] != c && f.is_pane(
                        current@,
                        main,
                        runs.colors@[k],
                    ) && after(f, last, runs.colors@[k]) ==> f.fills_more(c, runs.colors@[k]),
                None => forall|k: int|
                    0 <= k < i && f.is_pane(current@, main, #[trigger] runs.colors@[k]) ==> !after(
                        f,
                        last,
                        runs.colors@[k],
                    ),
            },
        decreases runs.colors.len() - i,
    {
        let c: u32 = runs.colors[i];
        let n: usize = runs.counts[i];
        assert(runs.index@.contains_key(runs.colors@[i as int]));
        assert(runs.of(c) == n);
        let pane: bool = c != main && if is_held(current, c) {
            single::reaches(n, opaque, 16106127, 0x4000_0000)
        } else {
            single::reaches(n, opaque, 16106127, 0x2000_0000)
        };
        let later: bool = match last {
            Some(l) => last_count > n || (last_count == n && l < c),
            None => true,
        };
        let better: bool = match best {
            Some(b) => n > count || (n == count && c < b),
            None => true,
        };
        if pane && later && better {
            best = Some(c);
            count = n;
        }
        i += 1;
    }
    proof {
        assert forall|d: u32| #[trigger] f.is_pane(current@, main, d) implies exists|k: int|
            0 <= k < runs.colors@.len() && #[trigger] runs.colors@[k] == d by {
            if runs.of(d) == 0 {
                lemma_no_share(f.opaque(f.len()), 16106127, 0x4000_0000);
                lemma_no_share(f.opaque(f.len()), 16106127, 0x2000_0000);
            }
            assert(runs.colors@[runs.index@[d] as int] == d);
        }
    }
    best
}

/// The main background of the pixels, if they have one.
fn main_color(
    all: &Tally,
    opaque: usize,
    current: &[[u8; 3]],
    Ghost(f): Ghost<Pixels>,
) -> (r: Option<u32>)
    requires
        all.ok(),
        forall|c: u32| #[trigger] all.of(c) == f.total(c, f.len()),
        opaque == f.opaque(f.len()),
        forall|k: int| 0 <= k < all.colors@.len() ==> all.colors@[k] < 0x100_0000,
    ensures
        match r {
            Some(c) => f.is_main(current@, c) && c < 0x100_0000,
            None => forall|c: u32| !f.is_main(current@, c),
        },
{
    if current.len() > 0 {
        let c: u32 = key_of(&current[0]);
        assert(all.of(c) == f.total(c, f.len()));
        if single::reaches(all.count(c), opaque, 13421773, 0x800_0000) {
            return Some(c);
        }
    }
    match most_common(all, Ghost(f)) {
        Some(c) => {
            assert(all.of(c) == f.total(c, f.len()));
            let k: Ghost<int> = Ghost(choose|k: int| 0 <= k < all.colors@.len() && all.colors@[k] == c);
            assert(all.colors@[k@] < 0x100_0000);
            proof {
                assert forall|d: u32| d != c implies !f.is_main(current@, d) by {
                    if f.is_most_common(d) {
                        assert(f.total(d, f.len()) > 0);
                        assert(f.total(c, f.len()) > 0);
                        assert(f.more_common(c, d) && f.more_common(d, c));
                    }
                }
            }
            if single::reaches(all.count(c), opaque, 13421773, 0x400_0000) {
                Some(c)
            } else {
                None
            }
        },
        None => None,
    }
}

/// The app's flat background colors in rows of BGRA pixels `width` wide, as RGB, main one
/// first. The main one is the most common color overall. The others, like a sidebar in its own
/// shade, are colors that fill long runs, which text never does. Colors in `current` are kept
/// at a lower share than new ones need, so the result stays steady while the app scrolls.
pub fn background_colors(bgra: &[u8], width: usize, current: &[[u8; 3]]) -> (r: Vec<[u8; 3]>)
    requires
        0 < width,
        4 * width <= usize::MAX,
    ensures
        (Pixels { bytes: bgra@, width: width as int }).are_keys(current@, r@),
{
    let ghost f = Pixels { bytes: bgra@, width: width as int };
    let (all, runs, opaque) = count_colors(bgra, width, Ghost(f));
    let mut keys: Vec<[u8; 3]> = Vec::new();
    let main: u32 = match main_color(&all, opaque, current, Ghost(f)) {
        Some(c) => c,
        None => {
            return keys;
        },
    };
    keys.push(unpacked(main));
    let mut last: Option<u32> = None;
    let mut more: bool = true;
    while more && keys.len() < MAX_KEYS
        invariant
            runs.ok(),
            forall|c: u32| #[trigger] runs.of(c) == f.in_runs(c, f.len()),
            forall|k: int| 0 <= k < runs.colors@.len() ==> runs.colors@[k] < 0x100_0000,
            opaque == f.opaque(f.len()),
            1 <= keys@.len() <= MAX_KEYS,
            rgb(keys@[0]) == main,
            last == if keys@.len() == 1 {
                None
            } else {
                Some(rgb(keys@[keys@.len() - 1]))
            },
            forall|k: int|
                1 <= k < keys@.len() ==> f.is_pane(current@, main, rgb(#[trigger] keys@[k])),
            forall|k: int, l: int|
                1 <= k < l < keys@.len() ==> f.fills_more(
                    rgb(#[trigger] keys@[k]),
                    rgb(#[trigger] keys@[l]),
                ),
            forall|c: u32| #[trigger]
                f.is_pane(current@, main, c) ==> Pixels::holds(keys@, c) || after(f, last, c),
            !more ==> forall|c: u32| #[trigger]
                f.is_pane(current@, main, c) ==> Pixels::holds(keys@, c),
        decreases
            MAX_KEYS - keys.len() + if more {
                1int
            } else {
                0
            },
    {
        let ghost was = keys@;
        match next_pane(&runs, opaque, current, main, last, Ghost(f)) {
            Some(c) => {
                let k: Ghost<int> = Ghost(
                    choose|k: int| 0 <= k < runs.colors@.len() && runs.colors@[k] == c,
                );
                assert(runs.colors@[k@] < 0x100_0000);
                keys.push(unpacked(c));
                proof {
                    assert forall|d: u32| #[trigger] f.is_pane(current@, main, d) implies Pixels::holds(
                        keys@,
                        d,
                    ) || after(f, Some(c), d) by {
                        if Pixels::holds(was, d) {
                            let k = choose|k: int| 0 <= k < was.len() && rgb(#[trigger] was[k]) == d;
                            assert(keys@[k] == was[k]);
                        } else if d == c {
                            assert(rgb(keys@[was.len() as int]) == c);
                        }
                    }
                    assert forall|k: int, l: int| 1 <= k < l < keys@.len() implies f.fills_more(
                        rgb(#[trigger] keys@[k]),
                        rgb(#[trigger] keys@[l]),
                    ) by {
                        if l == was.len() && k < was.len() - 1 {
                            assert(f.fills_more(rgb(was[k]), rgb(was[was.len() - 1])));
                        }
                    }
                }
                last = Some(c);
            },
            None => {
                more = false;
            },
        }
    }
    assert(f.is_main(current@, rgb(keys@[0])));
    keys
}

proof fn lemma_multiple(k: int, width: int)
    requires
        width > 0,
        k >= 0,
    ensures
        (k * width) % width == 0,
{
    assert((k * width) % width == 0) by (nonlinear_arith)
        requires
            width > 0,
    ;
}

/// The share of the main background: a fifth of the opaque pixels to be taken for it, and a tenth
/// to stay it, in any sample of fewer than 2^24 opaque pixels.
pub proof fn the_main_shares_are_a_fifth_and_a_tenth(count: nat, total: nat)
    requires
        count <= total,
        0 < total < 0x100_0000,
    ensures
        single::share_reaches(count, total, 13421773, 0x400_0000) <==> 5 * count >= total,
        single::share_reaches(count, total, 13421773, 0x800_0000) <==> 10 * count >= total,
{
    single::lemma_single(count);
    single::lemma_single(total);
    assert(0x800_0000 * count > 26843545 * total <==> 5 * count >= total) by (nonlinear_arith)
        requires
            0 < total < 0x100_0000,
    ;
    assert(0x1000_0000 * count > 26843545 * total <==> 10 * count >= total) by (nonlinear_arith)
        requires
            0 < total < 0x100_0000,
    ;
}

/// The share of a pane: 3% of the opaque pixels to be taken for one, and 1.5% to stay one, in any
/// sample of fewer than 6242767 opaque pixels.
pub proof fn the_pane_shares_are_percentages(count: nat, total: nat)
    requires
        count <= total,
        0 < total < 6_242_767,
    ensures
        single::share_reaches(count, total, 16106127, 0x2000_0000) <==> 100 * count >= 3 * total,
        single::share_reaches(count, total, 16106127, 0x4000_0000) <==> 200 * count >= 3 * total,
{
    single::lemma_single(count);
    single::lemma_single(total);
    assert(0x4000_0000 * count > 32212253 * total <==> 100 * count >= 3 * total)
        by (nonlinear_arith)
        requires
            0 < total < 6_242_767,
    ;
    assert(0x8000_0000 * count > 32212253 * total <==> 200 * count >= 3 * total)
        by (nonlinear_arith)
        requires
            0 < total < 6_242_767,
    ;
}

/// What is enough for a new color is enough for one found before.
pub proof fn found_colors_need_less(f: Pixels, c: u32)
    ensures
        f.is_common(c) ==> f.is_still_common(c),
        f.fills(c, 16106127, 0x2000_0000) ==> f.fills(c, 16106127, 0x4000_0000),
{
}

/// A color that fills no long run is never a pane.
pub proof fn text_colors_are_never_panes(f: Pixels, current: Seq<[u8; 3]>, main: u32, c: u32)
    requires
        forall|p: int| 0 <= p < f.len() && f.counts_as(p, c) ==> !#[trigger] f.in_run(p),
    ensures
        !f.is_pane(current, main, c),
{
    lemma_no_runs(f, c, f.len());
    lemma_no_share(f.opaque(f.len()), 16106127, 0x4000_0000);
    lemma_no_share(f.opaque(f.len()), 16106127, 0x2000_0000);
}

proof fn lemma_no_runs(f: Pixels, c: u32, n: nat)
    requires
        n <= f.len(),
        forall|p: int| 0 <= p < f.len() && f.counts_as(p, c) ==> !#[trigger] f.in_run(p),
    ensures
        f.in_runs(c, n) == 0,
    decreases n,
{
    if n > 0 {
        lemma_no_runs(f, c, (n - 1) as nat);
        if f.counts_as(n - 1, c) {
            assert(!f.in_run(n - 1));
        }
    }
}

/// There is one main background at most.
proof fn lemma_one_main(f: Pixels, current: Seq<[u8; 3]>, c: u32, d: u32)
    requires
        f.is_main(current, c),
        f.is_main(current, d),
    ensures
        c == d,
{
    if f.is_most_common(c) && f.is_most_common(d) && c != d {
        assert(f.total(c, f.len()) > 0 && f.total(d, f.len()) > 0);
        assert(f.more_common(c, d) && f.more_common(d, c));
    }
}

/// Where `a` has a pane at place `k`, `b` has none that comes after it.
proof fn lemma_not_later(
    f: Pixels,
    current: Seq<[u8; 3]>,
    a: Seq<[u8; 3]>,
    b: Seq<[u8; 3]>,
    k: int,
)
    requires
        f.are_keys(current, a),
        f.are_keys(current, b),
        1 <= k < a.len(),
        forall|i: int| 0 <= i < k && i < b.len() ==> rgb(#[trigger] a[i]) == rgb(b[i]),
        b.len() > 0,
    ensures
        k < b.len(),
        rgb(b[k]) == rgb(a[k]) || f.fills_more(rgb(b[k]), rgb(a[k])),
{
    let c = rgb(a[k]);
    lemma_one_main(f, current, rgb(a[0]), rgb(b[0]));
    assert(f.is_pane(current, rgb(a[0]), c));
    if Pixels::holds(b, c) {
        let l = choose|l: int| 0 <= l < b.len() && rgb(#[trigger] b[l]) == c;
        if l < k {
            assert(rgb(a[l]) == rgb(b[l]));
            if l == 0 {
                assert(c == rgb(a[0]));
            } else {
                assert(f.fills_more(rgb(a[l]), rgb(a[k])));
            }
        } else if l > k {
            assert(f.fills_more(rgb(b[k]), rgb(b[l])));
        }
    } else if k < MAX_KEYS - 1 {
        assert(f.fills_more(rgb(b[k]), rgb(b[MAX_KEYS - 1])));
    }
}

proof fn lemma_same_keys(
    f: Pixels,
    current: Seq<[u8; 3]>,
    a: Seq<[u8; 3]>,
    b: Seq<[u8; 3]>,
    k: int,
)
    requires
        f.are_keys(current, a),
        f.are_keys(current, b),
        0 <= k < a.len(),
    ensures
        k < b.len(),
        forall|i: int| 0 <= i <= k ==> rgb(#[trigger] a[i]) == rgb(b[i]),
    decreases k,
{
    assert(f.is_main(current, rgb(a[0])));
    assert(b.len() > 0);
    if k == 0 {
        lemma_one_main(f, current, rgb(a[0]), rgb(b[0]));
    } else {
        lemma_same_keys(f, current, a, b, k - 1);
        lemma_not_later(f, current, a, b, k);
        assert forall|i: int| 0 <= i < k && i < a.len() implies rgb(#[trigger] b[i]) == rgb(a[i]) by {
            assert(rgb(a[i]) == rgb(b[i]));
        }
        lemma_not_later(f, current, b, a, k);
    }
}

/// The pixels and the current colors settle the result.
pub proof fn the_keys_are_settled(
    f: Pixels,
    current: Seq<[u8; 3]>,
    a: Seq<[u8; 3]>,
    b: Seq<[u8; 3]>,
)
    requires
        f.are_keys(current, a),
        f.are_keys(current, b),
    ensures
        a.len() == b.len(),
        forall|k: int| 0 <= k < a.len() ==> rgb(#[trigger] a[k]) == rgb(b[k]),
{
    if a.len() > 0 {
        lemma_same_keys(f, current, a, b, a.len() - 1);
    }
    if b.len() > 0 {
        lemma_same_keys(f, current, b, a, b.len() - 1);
    }
}

/// Looking at the same pixels again changes nothing: the colors found stay.
pub proof fn found_colors_stay(f: Pixels, current: Seq<[u8; 3]>, keys: Seq<[u8; 3]>)
    requires
        f.are_keys(current, keys),
    ensures
        f.are_keys(keys, keys),
{
    if keys.len() == 0 {
        assert forall|c: u32| !f.is_main(keys, c) by {
            if f.is_main(keys, c) {
                if current.len() > 0 && f.is_still_common(rgb(current[0])) {
                    assert(f.is_main(current, rgb(current[0])));
                } else {
                    assert(f.is_main(current, c));
                }
            }
        }
    } else {
        let main = rgb(keys[0]);
        found_colors_need_less(f, main);
        assert(f.is_main(keys, main));
        assert forall|k: int| 1 <= k < keys.len() implies f.is_pane(
            keys,
            main,
            rgb(#[trigger] keys[k]),
        ) by {
            assert(f.is_pane(current, main, rgb(keys[k])));
            found_colors_need_less(f, rgb(keys[k]));
            assert(Pixels::holds(keys, rgb(keys[k])));
        }
        assert forall|c: u32| #[trigger] f.is_pane(keys, main, c) implies Pixels::holds(keys, c) || (
        keys.len() == MAX_KEYS && f.fills_more(rgb(keys[MAX_KEYS - 1]), c)) by {
            if !Pixels::holds(keys, c) {
                found_colors_need_less(f, c);
                assert(f.is_pane(current, main, c));
            }
        }
    }
}

/// A color is its red, green and blue, one byte each, so two colors are one number only when they
/// are the same.
pub proof fn colors_are_told_apart(a: [u8; 3], b: [u8; 3])
    ensures
        rgb(a) / 0x1_0000 == a@[0],
        rgb(a) / 0x100 % 0x100 == a@[1],
        rgb(a) % 0x100 == a@[2],
        rgb(a) == rgb(b) <==> a@[0] == b@[0] && a@[1] == b@[1] && a@[2] == b@[2],
{
    let x = a@[0] * 0x10000 + a@[1] * 0x100 + a@[2];
    let y = b@[0] * 0x10000 + b@[1] * 0x100 + b@[2];
    assert(0 <= x < 0x100_0000 && 0 <= y < 0x100_0000);
}

/// A pixel is four bytes: blue, green, red and opacity. It has a color where it is fully opaque.
pub proof fn pixels_are_blue_green_red(f: Pixels, p: int, color: [u8; 3])
    ensures
        f.is_opaque(p) <==> f.bytes[4 * p + 3] == 255,
        f.counts_as(p, rgb(color)) <==> f.bytes[4 * p + 3] == 255 && f.bytes[4 * p + 2] == color@[0]
            && f.bytes[4 * p + 1] == color@[1] && f.bytes[4 * p] == color@[2],
        f.width > 0 ==> f.len() == f.bytes.len() as int / (4 * f.width) * f.width,
{
    let x = f.bytes[4 * p + 2] * 0x10000 + f.bytes[4 * p + 1] * 0x100 + f.bytes[4 * p];
    let y = color@[0] * 0x10000 + color@[1] * 0x100 + color@[2];
    assert(0 <= x < 0x100_0000 && 0 <= y < 0x100_0000);
    if f.width > 0 {
        let w = f.width;
        let n = f.bytes.len() as int / (4 * w);
        assert(n >= 0) by (nonlinear_arith)
            requires
                n == f.bytes.len() as int / (4 * w),
                w > 0,
        ;
        assert(n * w >= 0) by (nonlinear_arith)
            requires
                n >= 0,
                w > 0,
        ;
    }
}

/// Pixels are the same when all four bytes are.
pub proof fn pixels_are_compared_byte_by_byte(f: Pixels, p: int, q: int)
    ensures
        f.same(p, q) <==> forall|k: int|
            0 <= k < 4 ==> f.bytes[4 * p + k] == #[trigger] f.bytes[4 * q + k],
{
    if forall|k: int| 0 <= k < 4 ==> f.bytes[4 * p + k] == #[trigger] f.bytes[4 * q + k] {
        let zero: int = 0;
        let one: int = 1;
        let two: int = 2;
        let three: int = 3;
        assert(f.bytes[4 * p + zero] == f.bytes[4 * q + zero]);
        assert(f.bytes[4 * p + one] == f.bytes[4 * q + one]);
        assert(f.bytes[4 * p + two] == f.bytes[4 * q + two]);
        assert(f.bytes[4 * p + three] == f.bytes[4 * q + three]);
    }
}

/// A pixel is in a run when 16 pixels side by side in its row, itself among them, are the same.
pub proof fn a_run_is_sixteen_pixels_in_a_row(f: Pixels, p: int, l: int)
    ensures
        0 <= l <= p < l + 16 && l % f.width + 16 <= f.width && (forall|q: int|
            l <= q < l + 16 ==> #[trigger] f.same(q, p)) ==> f.in_run(p),
        (forall|from: int|
            0 <= from <= p < from + 16 && #[trigger] (from % f.width) + 16 <= f.width ==> exists|q: int|
                from <= q < from + 16 && !#[trigger] f.same(q, p)) ==> !f.in_run(p),
{
    if 0 <= l <= p < l + 16 && l % f.width + 16 <= f.width && (forall|q: int|
        l <= q < l + 16 ==> #[trigger] f.same(q, p)) {
        assert(f.is_stretch(l, p));
    }
    if f.in_run(p) {
        let from = choose|from: int| from <= p < from + RUN_MIN && #[trigger] f.is_stretch(from, p);
        assert(from % f.width + 16 <= f.width);
    }
}

/// Pixels are counted one by one: the opaque ones, those of a color, and those of a color in a run.
pub proof fn pixels_are_counted_one_by_one(f: Pixels, c: u32, n: nat)
    ensures
        f.opaque(n) == Seq::new(n, |p: int| p).filter(|p: int| f.bytes[4 * p + 3] == 255).len(),
        f.total(c, n) == Seq::new(n, |p: int| p).filter(|p: int| f.counts_as(p, c)).len(),
        f.in_runs(c, n) == Seq::new(n, |p: int| p).filter(
            |p: int| f.counts_as(p, c) && f.in_run(p),
        ).len(),
    decreases n,
{
    reveal(Seq::filter);
    let all = Seq::new(n, |p: int| p);
    if n > 0 {
        pixels_are_counted_one_by_one(f, c, (n - 1) as nat);
        assert(all.drop_last() =~= Seq::new((n - 1) as nat, |p: int| p));
        assert(all.last() == n - 1);
    }
}

/// The main background is the most frequent color when a fifth of the opaque pixels have it, and of
/// equally frequent ones the lowest. The one found before stays while a tenth of them have it. A
/// picture without an opaque pixel has none.
pub proof fn the_main_background_is_a_fifth_of_the_picture(
    f: Pixels,
    current: Seq<[u8; 3]>,
    c: u32,
)
    requires
        f.opaque(f.len()) < 0x100_0000,
    ensures
        ({
            let n = f.len();
            let whole = f.opaque(n);
            let kept = current.len() > 0 && 10 * f.total(rgb(current[0]), n) >= whole;
            &&& whole == 0 ==> !f.is_main(current, c)
            &&& whole > 0 && kept ==> (f.is_main(current, c) <==> c == rgb(current[0]))
            &&& whole > 0 && !kept ==> (f.is_main(current, c) <==> 5 * f.total(c, n) >= whole
                && forall|d: u32|
                d != c ==> #[trigger] f.total(d, n) < f.total(c, n) || (f.total(d, n) == f.total(
                    c,
                    n,
                ) && c < d))
        }),
{
    let n = f.len();
    let whole = f.opaque(n);
    lemma_totals(f, c, n);
    if current.len() > 0 {
        lemma_totals(f, rgb(current[0]), n);
    }
    if whole == 0 {
        lemma_no_share(whole, 13421773, 0x400_0000);
        lemma_no_share(whole, 13421773, 0x800_0000);
    } else {
        the_main_shares_are_a_fifth_and_a_tenth(f.total(c, n), whole);
        if current.len() > 0 {
            the_main_shares_are_a_fifth_and_a_tenth(f.total(rgb(current[0]), n), whole);
        }
        let kept = current.len() > 0 && 10 * f.total(rgb(current[0]), n) >= whole;
        if !kept && f.is_main(current, c) {
            assert forall|d: u32| d != c implies #[trigger] f.total(d, n) < f.total(c, n) || (f.total(
                d,
                n,
            ) == f.total(c, n) && c < d) by {
                if f.total(d, n) > 0 {
                    assert(f.more_common(c, d));
                }
            }
        }
        if !kept && 5 * f.total(c, n) >= whole && forall|d: u32|
            d != c ==> #[trigger] f.total(d, n) < f.total(c, n) || (f.total(d, n) == f.total(c, n)
                && c < d) {
            assert(f.total(c, n) > 0);
            assert forall|d: u32| d != c && #[trigger] f.total(d, n) > 0 implies f.more_common(
                c,
                d,
            ) by {}
            assert(f.is_most_common(c));
        }
    }
}

/// A pane is another color than the main one, with three hundredths of the opaque pixels in runs of
/// it, or half of that when it was found before.
pub proof fn a_pane_is_three_hundredths_of_the_picture(
    f: Pixels,
    current: Seq<[u8; 3]>,
    main: u32,
    c: u32,
)
    requires
        0 < f.opaque(f.len()) < 6_242_767,
    ensures
        ({
            let n = f.len();
            let found = exists|k: int| 0 <= k < current.len() && rgb(#[trigger] current[k]) == c;
            f.is_pane(current, main, c) <==> c != main && if found {
                200 * f.in_runs(c, n) >= 3 * f.opaque(n)
            } else {
                100 * f.in_runs(c, n) >= 3 * f.opaque(n)
            }
        }),
{
    let n = f.len();
    lemma_totals(f, c, n);
    the_pane_shares_are_percentages(f.in_runs(c, n), f.opaque(n));
}

/// The colors that are keyed out: the main background first, and after it up to three panes, those
/// with the most pixels in runs, the most first and the lower of two with as many. There are none
/// exactly when there is no main background.
pub proof fn the_main_background_and_three_panes_are_keyed(
    f: Pixels,
    current: Seq<[u8; 3]>,
    keys: Seq<[u8; 3]>,
    c: u32,
)
    requires
        f.are_keys(current, keys),
    ensures
        keys.len() <= 4,
        keys.len() == 0 ==> !f.is_main(current, c),
        keys.len() > 0 ==> (f.is_main(current, c) <==> c == rgb(keys[0])),
        forall|k: int|
            1 <= k < keys.len() ==> f.is_pane(current, rgb(keys[0]), rgb(#[trigger] keys[k])),
        forall|k: int, l: int|
            1 <= k < l < keys.len() ==> {
                let a = f.in_runs(rgb(#[trigger] keys[k]), f.len());
                let b = f.in_runs(rgb(#[trigger] keys[l]), f.len());
                a > b || (a == b && rgb(keys[k]) < rgb(keys[l]))
            },
        keys.len() > 0 && f.is_pane(current, rgb(keys[0]), c) && !(exists|k: int|
            1 <= k < keys.len() && rgb(#[trigger] keys[k]) == c) ==> keys.len() == 4 && {
            let a = f.in_runs(rgb(keys[3]), f.len());
            let b = f.in_runs(c, f.len());
            a > b || (a == b && rgb(keys[3]) < c)
        },
{
    if keys.len() > 0 && f.is_main(current, c) {
        lemma_one_main(f, current, c, rgb(keys[0]));
    }
    assert forall|k: int, l: int| 1 <= k < l < keys.len() implies {
        let a = f.in_runs(rgb(#[trigger] keys[k]), f.len());
        let b = f.in_runs(rgb(#[trigger] keys[l]), f.len());
        a > b || (a == b && rgb(keys[k]) < rgb(keys[l]))
    } by {
        assert(f.fills_more(rgb(keys[k]), rgb(keys[l])));
    }
    if keys.len() > 0 && f.is_pane(current, rgb(keys[0]), c) && Pixels::holds(keys, c) {
        let k = choose|k: int| 0 <= k < keys.len() && rgb(#[trigger] keys[k]) == c;
        assert(k >= 1);
    }
}

} // verus!
