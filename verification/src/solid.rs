//! Solid text. The app is captured, its background color is keyed out on the GPU, and the
//! result is drawn on the glass. Here it is decided what each frame asks for.

use crate::blocks::{self, Grid};
use crate::colors::{self, Pixels, MAX_KEYS};
use vstd::prelude::*;

verus! {

/// Apps change theme or scroll to a new page, so the background color is re-read this often, in
/// nanoseconds.
pub const KEY_EVERY: u64 = 1_000_000_000;

/// Rows sampled across the window to find the background colors.
pub const KEY_ROWS: u32 = 9;

/// Pixels are grouped into square blocks this wide to find which patches of background color
/// are connected to each other.
pub const BLOCK: u32 = 4;

#[derive(Debug, Clone, Copy, PartialEq, Eq, Structural)]
pub struct Size {
    pub width: i32,
    pub height: i32,
}

/// The copy of the newest frame: how big its buffer is, and the part of it that shows the app.
#[derive(Debug, Clone, Copy, PartialEq, Eq, Structural)]
pub struct LastFrame {
    pub texture: Size,
    pub content: Size,
}

/// What a new frame asks for.
#[derive(Debug, Clone, Copy, PartialEq, Eq, Structural)]
pub struct FramePlan {
    /// The part of the frame that shows the app.
    pub content: Size,
    /// A new buffer is needed for the copy of the frame.
    pub new_copy: bool,
    /// The background colors are to be read again.
    pub read_key: bool,
    /// The buffers are to follow the window's new size.
    pub resize: bool,
}

/// Which rows to sample for the background colors.
pub struct KeyPlan {
    pub width: u32,
    /// A new buffer is needed for the rows.
    pub new_staging: bool,
    pub rows: Vec<u32>,
}

/// How to draw the last frame.
#[derive(Debug, Clone, Copy, PartialEq, Eq, Structural)]
pub struct DrawPlan {
    pub content: Size,
    /// The size of the surface to draw on.
    pub size: Size,
    /// The surface is to be opened for drawing first.
    pub new_target: bool,
    /// The blocks are to be laid out for this content first.
    pub new_regions: bool,
    /// The blocks are to be counted again.
    pub update: bool,
}

pub open spec fn smaller(a: i32, b: i32) -> i32 {
    if b < a {
        b
    } else {
        a
    }
}

/// The row at `row + 1` tenths of the height.
pub open spec fn sample_row(height: int, row: int) -> int {
    height * (row + 1) / (KEY_ROWS + 1)
}

/// Live capture of one app window, drawn into a surface the glass shows.
pub struct SolidView {
    /// Size of the buffers and the surface, which follows the window.
    pub size: Size,
    /// The surface is open for drawing.
    pub target: bool,
    /// Copy of the newest frame, so a slider change can redraw an app that is not repainting.
    pub last: Option<LastFrame>,
    /// The width of the buffer for sampled rows.
    pub staging: Option<u32>,
    /// The app's flat background colors, main one first. Empty draws the app unchanged.
    pub keys: Vec<[u8; 3]>,
    pub keyed_at: Option<u64>,
    /// The content the blocks were laid out for.
    pub regions: Option<Size>,
}

impl SolidView {
    pub open spec fn is_key_due(self, now: u64) -> bool {
        self.keyed_at matches Some(at) ==> now - at >= KEY_EVERY
    }

    pub open spec fn frame(self, window: Size, texture: Size, now: u64) -> Option<FramePlan> {
        if window.width <= 0 || window.height <= 0 {
            None
        } else {
            Some(
                FramePlan {
                    content: Size {
                        width: smaller(window.width, texture.width),
                        height: smaller(window.height, texture.height),
                    },
                    new_copy: !(self.last matches Some(last) && last.texture == texture),
                    read_key: self.is_key_due(now),
                    resize: window != self.size,
                },
            )
        }
    }

    pub open spec fn drawing(self, fresh: bool, force: bool) -> Option<DrawPlan> {
        match self.last {
            Some(last) => if fresh || force {
                let keyed = self.keys@.len() > 0;
                let stale = self.regions != Some(last.content);
                Some(
                    DrawPlan {
                        content: last.content,
                        size: self.size,
                        new_target: !self.target,
                        new_regions: keyed && stale,
                        update: keyed && (fresh || stale),
                    },
                )
            } else {
                None
            },
            None => None,
        }
    }

    pub fn start(size: Size) -> (r: SolidView)
        ensures
            r.size == size,
            !r.target,
            r.last is None,
            r.staging is None,
            r.keys@.len() == 0,
            r.keyed_at is None,
            r.regions is None,
    {
        SolidView {
            size,
            target: false,
            last: None,
            staging: None,
            keys: Vec::new(),
            keyed_at: None,
            regions: None,
        }
    }

    /// Decides what the newest captured frame asks for. `window` is the window's real size. When
    /// it grows, frames keep arriving in the old, smaller buffers until those are made anew, so
    /// only the part that fits is drawn meanwhile. A frame without a size is passed over.
    pub fn take_frame(&self, window: Size, texture: Size, now: u64) -> (r: Option<FramePlan>)
        ensures
            r == self.frame(window, texture, now),
    {
        if window.width <= 0 || window.height <= 0 {
            return None;
        }
        let content = Size {
            width: if texture.width < window.width {
                texture.width
            } else {
                window.width
            },
            height: if texture.height < window.height {
                texture.height
            } else {
                window.height
            },
        };
        let reusable: bool = match self.last {
            Some(last) => last.texture == texture,
            None => false,
        };
        let read_key: bool = match self.keyed_at {
            Some(at) => now >= at && now - at >= KEY_EVERY,
            None => true,
        };
        Some(FramePlan { content, new_copy: !reusable, read_key, resize: window != self.size })
    }

    /// Records the copy of a frame.
    pub fn copied(&mut self, texture: Size, content: Size)
        ensures
            *final(self) == (SolidView {
                last: Some(LastFrame { texture, content }),
                ..*old(self)
            }),
    {
        self.last = Some(LastFrame { texture, content });
    }

    /// Records that the buffers follow the window.
    pub fn resized(&mut self, window: Size)
        ensures
            *final(self) == (SolidView { size: window, target: false, ..*old(self) }),
    {
        self.size = window;
        self.target = false;
    }

    /// Decides which rows of a frame to sample for the background colors. A frame that is too
    /// small for that keeps the colors it has.
    pub fn read_key(&mut self, content: Size, now: u64) -> (r: Option<KeyPlan>)
        ensures
            *final(self) == (SolidView { keyed_at: Some(now), ..*old(self) }),
            r is Some <==> content.width > 0 && content.height > KEY_ROWS,
            r matches Some(plan) ==> plan.rows@.len() == 9,
            r matches Some(plan) ==> plan.width == content.width && plan.new_staging == (
            old(self).staging != Some(plan.width)) && plan.rows@.len() == KEY_ROWS && forall|i: int|
                0 <= i < KEY_ROWS ==> #[trigger] plan.rows@[i] == sample_row(
                    content.height as int,
                    i,
                ),
    {
        self.keyed_at = Some(now);
        if content.width <= 0 || content.height <= KEY_ROWS as i32 {
            return None;
        }
        let width: u32 = content.width as u32;
        let new_staging: bool = match self.staging {
            Some(have) => have != width,
            None => true,
        };
        let mut rows: Vec<u32> = Vec::new();
        let mut row: u32 = 0;
        while row < KEY_ROWS
            invariant
                row <= KEY_ROWS,
                content.height > 0,
                rows@.len() == row,
                forall|i: int|
                    0 <= i < row ==> #[trigger] rows@[i] == sample_row(content.height as int, i),
            decreases KEY_ROWS - row,
        {
            let height: u64 = content.height as u64;
            let ghost tenths = height * (row + 1);
            assert(0 <= tenths <= height * 9) by (nonlinear_arith)
                requires
                    tenths == height * (row + 1),
                    row < 9,
            ;
            let y: u64 = height * (row as u64 + 1) / (KEY_ROWS as u64 + 1);
            assert(y == tenths / 10);
            rows.push(y as u32);
            row += 1;
        }
        Some(KeyPlan { width, new_staging, rows })
    }

    /// Records the buffer for sampled rows.
    pub fn staged(&mut self, width: u32)
        ensures
            *final(self) == (SolidView { staging: Some(width), ..*old(self) }),
    {
        self.staging = Some(width);
    }

    /// Takes the background colors from the sampled rows, which stand one after the other.
    pub fn sampled(&mut self, pixels: &Vec<u8>, width: u32)
        requires
            0 < width,
            4 * width <= usize::MAX,
        ensures
            *final(self) == (SolidView { keys: final(self).keys, ..*old(self) }),
            (Pixels { bytes: pixels@, width: width as int }).are_keys(
                old(self).keys@,
                final(self).keys@,
            ),
    {
        self.keys = colors::background_colors(
            pixels.as_slice(),
            width as usize,
            self.keys.as_slice(),
        );
    }

    /// Decides how to draw the newest frame. With `force`, the last one is drawn again even if
    /// nothing new arrived.
    pub fn draw(&self, fresh: bool, force: bool) -> (r: Option<DrawPlan>)
        ensures
            r == self.drawing(fresh, force),
    {
        if !fresh && !force {
            return None;
        }
        match self.last {
            Some(last) => {
                let keyed: bool = self.keys.len() > 0;
                let stale: bool = match self.regions {
                    Some(content) => content != last.content,
                    None => true,
                };
                Some(
                    DrawPlan {
                        content: last.content,
                        size: self.size,
                        new_target: !self.target,
                        new_regions: keyed && stale,
                        update: keyed && (fresh || stale),
                    },
                )
            },
            None => None,
        }
    }

    /// Records that the surface is open for drawing.
    pub fn opened(&mut self)
        ensures
            *final(self) == (SolidView { target: true, ..*old(self) }),
    {
        self.target = true;
    }

    /// Records the content the blocks were laid out for.
    pub fn laid_out(&mut self, content: Size)
        ensures
            *final(self) == (SolidView { regions: Some(content), ..*old(self) }),
    {
        self.regions = Some(content);
    }
}

/// The size of a surface for a window. It is never empty.
pub fn surface_size(size: Size) -> (r: (u32, u32))
    ensures
        r.0 == if size.width < 1 {
            1
        } else {
            size.width as int
        },
        r.1 == if size.height < 1 {
            1
        } else {
            size.height as int
        },
{
    (
        if size.width < 1 {
            1
        } else {
            size.width as u32
        },
        if size.height < 1 {
            1
        } else {
            size.height as u32
        },
    )
}

/// How many blocks cover `pixels` pixels in a row: at least one.
pub open spec fn blocks_for(pixels: int) -> int {
    if pixels <= 0 {
        1
    } else {
        (pixels + BLOCK - 1) / BLOCK as int
    }
}

/// The grid of blocks for a frame.
pub fn block_grid(content: Size) -> (r: (u32, u32))
    requires
        0 <= content.width,
        0 <= content.height,
    ensures
        r.0 == blocks_for(content.width as int),
        r.1 == blocks_for(content.height as int),
{
    (
        if content.width == 0 {
            1
        } else {
            (content.width as u32 + 3) / BLOCK
        },
        if content.height == 0 {
            1
        } else {
            (content.height as u32 + 3) / BLOCK
        },
    )
}

/// Rows of `len` bytes that start `pitch` bytes apart fit in `total` bytes.
pub open spec fn rows_fit(rows: int, len: int, pitch: int, total: int) -> bool {
    rows > 0 ==> (rows - 1) * pitch + len <= total
}

/// The place of item `i` among rows of `per_row` items, each `size` bytes, that start `pitch`
/// bytes apart.
pub open spec fn place(i: int, per_row: int, size: int, pitch: int) -> int {
    (i / per_row) * pitch + size * (i % per_row)
}

proof fn lemma_place(y: int, x: int, rows: int, per_row: int, size: int, pitch: int, total: int)
    requires
        0 <= y < rows,
        0 <= x < per_row,
        0 <= pitch,
        0 < size,
        rows_fit(rows, size * per_row, pitch, total),
    ensures
        place(y * per_row + x, per_row, size, pitch) == y * pitch + size * x,
        0 <= y * pitch,
        y * pitch + size * per_row <= total,
        size * x + size <= size * per_row,
        y * per_row + x < rows * per_row,
{
    vstd::arithmetic::div_mod::lemma_fundamental_div_mod_converse(
        y * per_row + x,
        per_row,
        y,
        x,
    );
    assert(y * pitch <= (rows - 1) * pitch) by (nonlinear_arith)
        requires
            0 <= y <= rows - 1,
            0 <= pitch,
    ;
    assert(0 <= y * pitch) by (nonlinear_arith)
        requires
            0 <= y,
            0 <= pitch,
    ;
    assert(size * x + size <= size * per_row) by (nonlinear_arith)
        requires
            x + 1 <= per_row,
            0 < size,
    ;
    assert(y * per_row + x < rows * per_row) by (nonlinear_arith)
        requires
            y + 1 <= rows,
            0 <= x < per_row,
    ;
}

/// Takes apart what the GPU counted: rows of `width` blocks, each a count and a color, that start
/// `pitch` bytes apart.
pub fn block_rows(data: &[u8], pitch: usize, width: usize, height: usize) -> (r: (Vec<u8>, Vec<u8>))
    requires
        width * height <= usize::MAX,
        rows_fit(height as int, 2 * width, pitch as int, data@.len() as int),
    ensures
        is_counted(
            (Grid { counts: r.0@, colors: r.1@, width: width as int }),
            data@,
            pitch as int,
            height as int,
        ),
{
    let mut counts: Vec<u8> = Vec::new();
    let mut colors: Vec<u8> = Vec::new();
    let total: usize = data.len();
    let mut y: usize = 0;
    while y < height
        invariant
            y <= height,
            total == data@.len(),
            rows_fit(height as int, 2 * width, pitch as int, data@.len() as int),
            counts@.len() == y * width,
            colors@.len() == y * width,
            forall|i: int|
                0 <= i < counts@.len() ==> #[trigger] counts@[i] == data@[place(
                    i,
                    width as int,
                    2,
                    pitch as int,
                )],
            forall|i: int|
                0 <= i < colors@.len() ==> #[trigger] colors@[i] == data@[place(
                    i,
                    width as int,
                    2,
                    pitch as int,
                ) + 1],
        decreases height - y,
    {
        let mut x: usize = 0;
        while x < width
            invariant
                y < height,
                x <= width,
                total == data@.len(),
                rows_fit(height as int, 2 * width, pitch as int, data@.len() as int),
                counts@.len() == y * width + x,
                colors@.len() == y * width + x,
                forall|i: int|
                    0 <= i < counts@.len() ==> #[trigger] counts@[i] == data@[place(
                        i,
                        width as int,
                        2,
                        pitch as int,
                    )],
                forall|i: int|
                    0 <= i < colors@.len() ==> #[trigger] colors@[i] == data@[place(
                        i,
                        width as int,
                        2,
                        pitch as int,
                    ) + 1],
            decreases width - x,
        {
            proof {
                lemma_place(
                    y as int,
                    x as int,
                    height as int,
                    width as int,
                    2,
                    pitch as int,
                    data@.len() as int,
                );
            }
            let start: usize = y * pitch;
            counts.push(data[start + 2 * x]);
            colors.push(data[start + 2 * x + 1]);
            x += 1;
        }
        proof {
            assert((y + 1) * width == y * width + width) by (nonlinear_arith);
        }
        y += 1;
    }
    proof {
        assert(height * width == width * height) by (nonlinear_arith);
    }
    (counts, colors)
}

/// The grid holds the counts and colors of `height` rows in `data`.
pub open spec fn is_counted(g: Grid, data: Seq<u8>, pitch: int, height: int) -> bool {
    &&& g.counts.len() == g.width * height
    &&& g.colors.len() == g.width * height
    &&& forall|i: int|
        0 <= i < g.counts.len() ==> #[trigger] g.counts[i] == data[place(i, g.width, 2, pitch)]
    &&& forall|i: int|
        0 <= i < g.colors.len() ==> #[trigger] g.colors[i] == data[place(i, g.width, 2, pitch) + 1]
}

/// Which blocks of a frame turn to glass, from what the GPU counted.
pub fn mask(data: &[u8], pitch: usize, width: usize, height: usize) -> (r: Vec<u8>)
    requires
        width * height <= usize::MAX,
        rows_fit(height as int, 2 * width, pitch as int, data@.len() as int),
    ensures
        r@.len() == width * height,
        exists|g: Grid| #[trigger]
            is_counted(g, data@, pitch as int, height as int) && g.width == width && forall|i: int|
                0 <= i < r@.len() ==> #[trigger] r@[i] == if g.is_background(i) {
                    255u8
                } else {
                    0u8
                },
{
    let (counts, colors) = block_rows(data, pitch, width, height);
    let ghost g = Grid { counts: counts@, colors: colors@, width: width as int };
    assert(is_counted(g, data@, pitch as int, height as int));
    blocks::background_blocks(counts.as_slice(), colors.as_slice(), width, height)
}

/// Takes the pixels out of sampled rows that start `pitch` bytes apart.
pub fn sample_rows(data: &[u8], pitch: usize, width: u32) -> (r: Vec<u8>)
    requires
        rows_fit(KEY_ROWS as int, 4 * width, pitch as int, data@.len() as int),
    ensures
        r@.len() == KEY_ROWS * (4 * width),
        forall|i: int|
            0 <= i < r@.len() ==> #[trigger] r@[i] == data@[place(
                i,
                4 * width,
                1,
                pitch as int,
            )],
{
    let mut pixels: Vec<u8> = Vec::new();
    let total: usize = data.len();
    let mut y: usize = 0;
    let ghost len: int = 4 * width;
    assert(0 <= (KEY_ROWS - 1) * pitch);
    let line: usize = 4 * width as usize;
    while y < KEY_ROWS as usize
        invariant
            y <= KEY_ROWS,
            line == len,
            total == data@.len(),
            rows_fit(KEY_ROWS as int, len, pitch as int, data@.len() as int),
            pixels@.len() == y * len,
            forall|i: int|
                0 <= i < pixels@.len() ==> #[trigger] pixels@[i] == data@[place(
                    i,
                    len,
                    1,
                    pitch as int,
                )],
        decreases KEY_ROWS - y,
    {
        let mut x: usize = 0;
        while x < line
            invariant
                y < KEY_ROWS,
                x <= line,
                line == len,
                total == data@.len(),
                rows_fit(KEY_ROWS as int, len, pitch as int, data@.len() as int),
                pixels@.len() == y * len + x,
                forall|i: int|
                    0 <= i < pixels@.len() ==> #[trigger] pixels@[i] == data@[place(
                        i,
                        len,
                        1,
                        pitch as int,
                    )],
            decreases line - x,
        {
            proof {
                lemma_place(
                    y as int,
                    x as int,
                    KEY_ROWS as int,
                    len,
                    1,
                    pitch as int,
                    data@.len() as int,
                );
            }
            let start: usize = y * pitch;
            pixels.push(data[start + x]);
            x += 1;
        }
        proof {
            assert((y + 1) * len == y * len + len) by (nonlinear_arith);
        }
        y += 1;
    }
    pixels
}

/// The background colors as the shader takes them, with how many there are: red, green, blue and
/// opacity, each a share of 255, and zeros where there is none.
pub fn params(keys: &Vec<[u8; 3]>) -> (r: (Vec<[u8; 4]>, usize))
    ensures
        r.1 == if keys@.len() < MAX_KEYS {
            keys@.len() as int
        } else {
            MAX_KEYS as int
        },
        r.0@.len() == MAX_KEYS,
        r.0@.len() == 4,
        forall|i: int|
            0 <= i < MAX_KEYS ==> (#[trigger] r.0@[i])@ == if i < r.1 {
                seq![keys@[i][0], keys@[i][1], keys@[i][2], 255u8]
            } else {
                seq![0u8, 0u8, 0u8, 0u8]
            },
{
    let count: usize = if keys.len() < MAX_KEYS {
        keys.len()
    } else {
        MAX_KEYS
    };
    let mut colors: Vec<[u8; 4]> = Vec::new();
    let mut i: usize = 0;
    while i < MAX_KEYS
        invariant
            i <= MAX_KEYS,
            count <= keys@.len(),
            count <= MAX_KEYS,
            colors@.len() == i,
            forall|j: int|
                0 <= j < i ==> (#[trigger] colors@[j])@ == if j < count {
                    seq![keys@[j][0], keys@[j][1], keys@[j][2], 255u8]
                } else {
                    seq![0u8, 0u8, 0u8, 0u8]
                },
        decreases MAX_KEYS - i,
    {
        let color: [u8; 4] = if i < count {
            [keys[i][0], keys[i][1], keys[i][2], 255]
        } else {
            [0, 0, 0, 0]
        };
        assert(color@ =~= if i < count {
            seq![keys@[i as int][0], keys@[i as int][1], keys@[i as int][2], 255u8]
        } else {
            seq![0u8, 0u8, 0u8, 0u8]
        });
        colors.push(color);
        i += 1;
    }
    (colors, count)
}

/// The sampled rows lie inside the frame, one below the other, and none is the first row.
pub proof fn sampled_rows_spread_over_the_frame(height: int, row: int)
    requires
        height > KEY_ROWS,
        0 <= row < KEY_ROWS,
    ensures
        0 < sample_row(height, row) < height,
        row + 1 < KEY_ROWS ==> sample_row(height, row) < sample_row(height, row + 1),
{
    assert(height * (row + 1) <= height * 9) by (nonlinear_arith)
        requires
            0 <= row < 9,
            height > 0,
    ;
    assert(height * (row + 1) >= height) by (nonlinear_arith)
        requires
            0 <= row,
            height > 0,
    ;
    assert(height * (row + 2) == height * (row + 1) + height) by (nonlinear_arith);
}

/// Every pixel of a frame belongs to a block of its grid, and every block holds a pixel.
pub proof fn the_blocks_cover_the_frame(pixels: int, x: int)
    requires
        0 < pixels,
    ensures
        0 <= x < pixels ==> 0 <= x / BLOCK as int && x / (BLOCK as int) < blocks_for(pixels),
        0 <= x < blocks_for(pixels) ==> x * BLOCK < pixels,
{
}

/// A frame is drawn once: until something new arrives there is nothing to draw, and drawing needs
/// no new layout while the content keeps its size.
pub proof fn drawing_settles(view: SolidView, fresh: bool, force: bool)
    requires
        view.drawing(fresh, force) is Some,
    ensures
        ({
            let plan = view.drawing(fresh, force)->0;
            let after = SolidView {
                target: true,
                regions: if plan.new_regions {
                    Some(plan.content)
                } else {
                    view.regions
                },
                ..view
            };
            &&& after.drawing(false, false) is None
            &&& after.drawing(false, true) == Some(
                DrawPlan { new_target: false, new_regions: false, update: false, ..plan },
            )
        }),
{
}

/// The buffers follow the window: after a resize the same frame asks for no other.
pub proof fn resizing_settles(view: SolidView, window: Size, texture: Size, now: u64)
    requires
        view.frame(window, texture, now) is Some,
    ensures
        ({
            let plan = view.frame(window, texture, now)->0;
            let after = SolidView {
                size: window,
                last: Some(LastFrame { texture, content: plan.content }),
                keyed_at: Some(now),
                ..view
            };
            after.frame(window, texture, now) == Some(
                FramePlan { new_copy: false, read_key: false, resize: false, ..plan },
            )
        }),
{
}

/// A frame shows no more than the window and no more than was captured, and all of what both hold.
/// It is passed over when the window has no size. A new copy is made unless the last is as big, the
/// colors are read again after a second, and the buffers follow a window of another size.
pub proof fn a_frame_shows_what_both_hold(view: SolidView, window: Size, texture: Size, now: u64)
    ensures
        view.frame(window, texture, now) is None <==> window.width <= 0 || window.height <= 0,
        view.frame(window, texture, now) matches Some(plan) ==> {
            &&& plan.content.width <= window.width && plan.content.width <= texture.width
            &&& plan.content.width == window.width || plan.content.width == texture.width
            &&& plan.content.height <= window.height && plan.content.height <= texture.height
            &&& plan.content.height == window.height || plan.content.height == texture.height
            &&& plan.new_copy <==> view.last is None || view.last->0.texture != texture
            &&& plan.read_key <==> view.keyed_at is None || now - view.keyed_at->0 >= 1_000_000_000
            &&& plan.resize <==> window.width != view.size.width || window.height
                != view.size.height
        },
{
}

/// A frame is drawn when it is new or asked for, and there is one. It is drawn whole on a surface
/// of the view's size. With colors to key out, the blocks are counted again for a new frame and for
/// a new layout, which another size of the content needs.
pub proof fn a_frame_is_drawn_when_new_or_asked_for(view: SolidView, fresh: bool, force: bool)
    ensures
        view.drawing(fresh, force) is Some <==> view.last is Some && (fresh || force),
        view.drawing(fresh, force) matches Some(plan) ==> {
            let moved = view.regions is None || view.regions->0 != view.last->0.content;
            &&& plan.content == view.last->0.content
            &&& plan.size == view.size
            &&& plan.new_target <==> !view.target
            &&& plan.new_regions <==> view.keys@.len() > 0 && moved
            &&& plan.update <==> view.keys@.len() > 0 && (fresh || moved)
        },
{
}

/// Blocks of four pixels cover a row with none to spare, and an empty row gets one.
pub proof fn blocks_are_four_pixels_wide(pixels: int)
    ensures
        pixels > 0 ==> 4 * (blocks_for(pixels) - 1) < pixels <= 4 * blocks_for(pixels),
        pixels <= 0 ==> blocks_for(pixels) == 1,
{
}

/// Nine rows are sampled, at each tenth of the height.
pub proof fn rows_are_sampled_at_each_tenth(height: int, row: int)
    requires
        0 <= height,
        0 <= row < 9,
    ensures
        10 * sample_row(height, row) <= height * (row + 1) < 10 * sample_row(height, row) + 10,
{
    let tenths = height * (row + 1);
    assert(sample_row(height, row) == tenths / 10);
}

/// What the GPU counted is read where it stands: block x of row y has its count at twice x in that
/// row, and its color right behind.
pub proof fn counts_are_read_where_they_stand(
    g: Grid,
    data: Seq<u8>,
    pitch: int,
    height: int,
    x: int,
    y: int,
)
    requires
        is_counted(g, data, pitch, height),
        0 <= x < g.width,
        0 <= y < height,
    ensures
        g.counts.len() == g.width * height,
        g.colors.len() == g.width * height,
        g.counts[y * g.width + x] == data[y * pitch + 2 * x],
        g.colors[y * g.width + x] == data[y * pitch + 2 * x + 1],
{
    let w = g.width;
    let i = y * w + x;
    vstd::arithmetic::div_mod::lemma_fundamental_div_mod_converse(i, w, y, x);
    assert(0 <= i < w * height) by (nonlinear_arith)
        requires
            i == y * w + x,
            0 <= x < w,
            0 <= y < height,
    ;
    assert(place(i, w, 2, pitch) == y * pitch + 2 * x);
    assert(g.counts[i] == data[place(i, w, 2, pitch)]);
    assert(g.colors[i] == data[place(i, w, 2, pitch) + 1]);
}

/// Items stand one after the other in their row, and each row starts at its own pitch.
pub proof fn items_stand_row_by_row(x: int, y: int, per_row: int, size: int, pitch: int)
    requires
        0 <= x < per_row,
        0 <= y,
    ensures
        place(y * per_row + x, per_row, size, pitch) == y * pitch + size * x,
{
    vstd::arithmetic::div_mod::lemma_fundamental_div_mod_converse(
        y * per_row + x,
        per_row,
        y,
        x,
    );
}

/// Rows fit exactly when the last of them ends inside.
pub proof fn rows_fit_when_the_last_one_ends_inside(rows: int, len: int, pitch: int, total: int)
    requires
        rows > 0,
    ensures
        rows_fit(rows, len, pitch, total) <==> (rows - 1) * pitch + len <= total,
        rows_fit(0, len, pitch, total),
{
}

} // verus!
