use blurman::blocks::background_blocks;
use blurman::colors::background_colors;
use blurman::solid::{
    block_grid, block_rows, mask, params, sample_rows, surface_size, DrawPlan, FramePlan, Size,
    SolidView, BLOCK, KEY_EVERY, KEY_ROWS,
};

fn bgra(rgb: [u8; 3]) -> [u8; 4] {
    [rgb[2], rgb[1], rgb[0], 255]
}

fn row(runs: &[([u8; 3], usize)]) -> Vec<u8> {
    runs.iter()
        .flat_map(|&(color, length)| std::iter::repeat_n(bgra(color), length).flatten())
        .collect()
}

const DARK: [u8; 3] = [20, 20, 20];
const SIDEBAR: [u8; 3] = [14, 14, 16];
const INK: [u8; 3] = [230, 230, 230];

#[test]
fn main_background_and_panes_are_found() {
    let pixels = row(&[(SIDEBAR, 40), (DARK, 150), ([0, 0, 0], 10)]);
    assert_eq!(background_colors(&pixels, 200, &[]), vec![DARK, SIDEBAR]);
}

#[test]
fn text_color_is_never_a_background() {
    // Lots of text: the ink is common, but only ever in short runs.
    let text: Vec<_> = (0..40).flat_map(|_| [(DARK, 3), (INK, 2)]).collect();
    let pixels = row(&text);
    assert_eq!(background_colors(&pixels, 200, &[]), vec![DARK]);
}

#[test]
fn busy_content_has_no_background() {
    let pixels: Vec<u8> = (0..200u32)
        .flat_map(|i| bgra([(i % 256) as u8, (i * 7 % 256) as u8, 40]))
        .collect();
    assert_eq!(background_colors(&pixels, 200, &[]), Vec::<[u8; 3]>::new());
}

#[test]
fn found_colors_stay_while_they_dip() {
    // The main color at 15% and the sidebar at 2%: too little to be picked fresh, enough
    // to be kept once found.
    let mut pixels = row(&[(DARK, 150), (SIDEBAR, 20)]);
    pixels.extend((0..830u32).flat_map(|i| bgra([(i % 200) as u8 + 40, (i * 7 % 200) as u8 + 40, 90])));
    assert_eq!(background_colors(&pixels, 1000, &[]), Vec::<[u8; 3]>::new());
    assert_eq!(background_colors(&pixels, 1000, &[DARK, SIDEBAR]), vec![DARK, SIDEBAR]);
}

/// Block counts for a grid where every block matches, with `holes` cleared.
fn blocks(width: usize, height: usize, holes: impl Fn(usize, usize) -> bool) -> Vec<u8> {
    (0..width * height)
        .map(|i| if holes(i % width, i / width) { 0 } else { BLOCK as u8 * BLOCK as u8 })
        .collect()
}

#[test]
fn enclosed_patches_are_not_background() {
    // A 48-block patch inside a 1200-block window: too small to be a pane.
    let ring = |x: usize, y: usize| {
        (2..=11).contains(&x) && (2..=9).contains(&y) && (x == 2 || x == 11 || y == 2 || y == 9)
    };
    let mask = background_blocks(&blocks(40, 30, ring), &[0; 1200], 40, 30);
    let at = |x: usize, y: usize| mask[y * 40 + x];
    assert_eq!(at(0, 0), 255, "outside is background");
    assert_eq!(at(2, 5), 255, "the ring's outer edge can blend");
    assert_eq!(at(3, 3), 0, "inside the ring is not");
    assert_eq!(at(6, 6), 0);
}

#[test]
fn letter_holes_and_edge_panes_are_background() {
    let letter = |x: usize, y: usize| (5..=7).contains(&x) && (5..=7).contains(&y) && (x, y) != (6, 6);
    let mask = background_blocks(&blocks(14, 12, letter), &[0; 168], 14, 12);
    assert_eq!(mask[6 * 14 + 6], 255, "inside of a letter");

    let divider = |x: usize, _: usize| x == 4 || x == 5;
    let mask = background_blocks(&blocks(14, 12, divider), &[0; 168], 14, 12);
    assert_eq!(mask[6 * 14 + 1], 255, "the smaller pane touching the edge");
    assert_eq!(mask[6 * 14 + 10], 255);
}

#[test]
fn big_enclosed_panes_are_background() {
    let ring = |x: usize, y: usize| {
        (5..=30).contains(&x) && (5..=24).contains(&y) && (x == 5 || x == 30 || y == 5 || y == 24)
    };
    let mask = background_blocks(&blocks(40, 30, ring), &[0; 1200], 40, 30);
    assert_eq!(mask[15 * 40 + 18], 255);
}

#[test]
fn a_frame_on_its_side_gives_the_mask_on_its_side() {
    // A ring whose inside is too small to be a pane, a letter with a hole, and a strip in another
    // color along one edge.
    let (width, height) = (40, 30);
    let holes = |x: usize, y: usize| {
        let ring = (2..=11).contains(&x)
            && (2..=9).contains(&y)
            && (x == 2 || x == 11 || y == 2 || y == 9);
        let letter = (20..=22).contains(&x) && (5..=7).contains(&y) && (x, y) != (21, 6);
        ring || letter
    };
    let color = |x: usize| if x >= 35 { 1u8 } else { 0 };
    let colors: Vec<u8> = (0..width * height).map(|i| color(i % width)).collect();
    let turned: Vec<u8> = (0..width * height).map(|i| color(i / height)).collect();
    let mask = background_blocks(&blocks(width, height, holes), &colors, width, height);
    let other =
        background_blocks(&blocks(height, width, |x, y| holes(y, x)), &turned, height, width);
    assert_eq!(mask[6 * width + 6], 0, "inside the ring");
    assert_eq!(mask[6 * width + 21], 255, "inside the letter");
    for y in 0..height {
        for x in 0..width {
            assert_eq!(other[x * height + y], mask[y * width + x], "block {x}, {y}");
        }
    }
}

#[test]
fn a_flat_image_area_in_another_background_color_stays_solid() {
    // A small patch of the sidebar's color right against the main background, like a
    // picture with a flat backdrop: it does not join the main background.
    let colors: Vec<u8> = (0..1200)
        .map(|i| u8::from((10..16).contains(&(i % 40)) && (10..16).contains(&(i / 40))))
        .collect();
    let mask = background_blocks(&blocks(40, 30, |_, _| false), &colors, 40, 30);
    assert_eq!(mask[13 * 40 + 13], 0);
    assert_eq!(mask[0], 255);
}

#[test]
fn half_a_block_is_enough_to_join() {
    let mut counts = vec![8u8; 100];
    counts[55] = 7;
    let mask = background_blocks(&counts, &[0; 100], 10, 10);
    assert_eq!(mask, vec![255u8; 100], "one gap is near kept blocks");
    let mask = background_blocks(&[7u8; 100], &[0; 100], 10, 10);
    assert_eq!(mask, vec![0u8; 100]);
    assert!(background_blocks(&[], &[], 0, 0).is_empty());
}

/// An enclosed patch is a pane from a twentieth of the blocks on, computed in single precision.
#[test]
fn a_pane_starts_at_a_twentieth() {
    for side in [40usize, 60, 77] {
        let n = side * side;
        let pane = (n as f32 * 0.05) as usize;
        for size in [pane - 1, pane] {
            // A patch of its own color: `size` blocks from a corner at (2, 2), ten in each row.
            let inside = |i: usize| {
                let (x, y) = (i % side, i / side);
                (2..12).contains(&x) && y >= 2 && (y - 2) * 10 + (x - 2) < size
            };
            let colors: Vec<u8> = (0..n).map(|i| u8::from(inside(i))).collect();
            let mask = background_blocks(&vec![16u8; n], &colors, side, side);
            let middle = 5 * side + 6;
            assert_eq!(mask[middle] == 255, size >= pane, "{side} {size}");
        }
    }
}

/// Shares are compared as single-precision numbers.
#[test]
fn shares_agree_with_floating_point() {
    for total in [7usize, 10, 100, 333, 1000, 4095] {
        for count in 1..total {
            let mut pixels = row(&[(DARK, count)]);
            for i in 0..total - count {
                pixels.extend(bgra([100 + (i / 200 % 100) as u8, 50 + (i % 200) as u8, 9]));
            }
            let share = count as f32 / total as f32;
            let found = background_colors(&pixels, total, &[]);
            let alone = count > 1;
            if alone {
                assert_eq!(found.first() == Some(&DARK), share >= 0.2, "{count} of {total}");
            }
            let kept = background_colors(&pixels, total, &[DARK]);
            if share >= 0.1 {
                assert_eq!(kept.first(), Some(&DARK), "{count} of {total}");
            }
        }
    }
}

#[test]
fn see_through_pixels_do_not_count() {
    let mut pixels = row(&[(DARK, 20)]);
    pixels.extend(std::iter::repeat_n([9u8, 9, 9, 254], 80).flatten());
    assert_eq!(background_colors(&pixels, 100, &[]), vec![DARK]);
    // A row that is not complete is left out.
    assert_eq!(background_colors(&pixels, 101, &[]), Vec::<[u8; 3]>::new());
}

#[test]
fn at_most_four_colors_are_keyed() {
    let shades: Vec<([u8; 3], usize)> = (0..8u8).map(|i| ([i, 0, 0], 30 + i as usize)).collect();
    let mut runs = shades.clone();
    runs.push((DARK, 200));
    let found = background_colors(&row(&runs), 468, &[]);
    assert_eq!(found, vec![DARK, [7, 0, 0], [6, 0, 0], [5, 0, 0]]);
    // Colors with the same count come in the order of their channels.
    let found = background_colors(&row(&[(SIDEBAR, 100), (DARK, 100)]), 200, &[]);
    assert_eq!(found, vec![SIDEBAR, DARK]);
    let found = background_colors(&row(&[(SIDEBAR, 100), (DARK, 100)]), 200, &[DARK]);
    assert_eq!(found, vec![DARK, SIDEBAR]);
}

fn size(width: i32, height: i32) -> Size {
    Size { width, height }
}

#[test]
fn frames_follow_the_window() {
    let mut view = SolidView::start(size(100, 80));
    assert!(view.take_frame(size(0, 80), size(100, 80), 5).is_none());
    let plan = view.take_frame(size(120, 60), size(100, 80), 5).unwrap();
    assert_eq!(
        plan,
        FramePlan { content: size(100, 60), new_copy: true, read_key: true, resize: true }
    );
    view.copied(size(100, 80), plan.content);
    assert!(view.read_key(plan.content, 5).is_some());
    view.resized(size(120, 60));
    let plan = view.take_frame(size(120, 60), size(100, 80), 6).unwrap();
    assert_eq!(
        plan,
        FramePlan { content: size(100, 60), new_copy: false, read_key: false, resize: false }
    );
    let plan = view.take_frame(size(120, 60), size(120, 60), 5 + KEY_EVERY).unwrap();
    assert_eq!(
        plan,
        FramePlan { content: size(120, 60), new_copy: true, read_key: true, resize: false }
    );
}

#[test]
fn a_frame_is_drawn_once() {
    let mut view = SolidView::start(size(100, 80));
    assert!(view.draw(true, true).is_none(), "nothing was captured yet");
    view.copied(size(100, 80), size(100, 80));
    assert!(view.draw(false, false).is_none());
    let plain = DrawPlan {
        content: size(100, 80),
        size: size(100, 80),
        new_target: true,
        new_regions: false,
        update: false,
    };
    assert_eq!(view.draw(true, false), Some(plain));
    view.opened();
    view.keys = vec![DARK];
    let keyed = DrawPlan { new_target: false, new_regions: true, update: true, ..plain };
    assert_eq!(view.draw(false, true), Some(keyed));
    view.laid_out(size(100, 80));
    assert_eq!(view.draw(false, true), Some(DrawPlan { new_regions: false, update: false, ..keyed }));
    assert_eq!(view.draw(true, false), Some(DrawPlan { new_regions: false, ..keyed }));
}

#[test]
fn nine_rows_are_sampled() {
    let mut view = SolidView::start(size(100, 80));
    assert!(view.read_key(size(100, 9), 1).is_none());
    assert_eq!(view.keyed_at, Some(1));
    assert!(view.read_key(size(0, 90), 1).is_none());
    let plan = view.read_key(size(100, 95), 2).unwrap();
    assert_eq!(plan.rows, vec![9, 19, 28, 38, 47, 57, 66, 76, 85]);
    assert_eq!(plan.rows.len(), KEY_ROWS as usize);
    assert!(plan.new_staging);
    assert_eq!(plan.width, 100);
    view.staged(100);
    assert!(!view.read_key(size(100, 95), 3).unwrap().new_staging);
    assert!(view.read_key(size(101, 95), 3).unwrap().new_staging);
}

#[test]
fn sampled_rows_give_the_keys() {
    let mut view = SolidView::start(size(200, 80));
    let line = row(&[(SIDEBAR, 40), (DARK, 160)]);
    let pitch = line.len() + 12;
    let mut data = Vec::new();
    for _ in 0..KEY_ROWS {
        data.extend_from_slice(&line);
        data.extend([1u8; 12]);
    }
    let pixels = sample_rows(&data, pitch, 200);
    assert_eq!(pixels.len(), 9 * line.len());
    assert_eq!(&pixels[line.len()..2 * line.len()], &line[..]);
    view.sampled(&pixels, 200);
    assert_eq!(view.keys, vec![DARK, SIDEBAR]);
}

#[test]
fn counted_blocks_are_taken_apart() {
    // Two rows of three blocks, eight bytes apart.
    let data = [16u8, 0, 9, 1, 3, 0, 77, 77, 16, 2, 8, 0, 7, 3];
    let (counts, colors) = block_rows(&data, 8, 3, 2);
    assert_eq!(counts, vec![16, 9, 3, 16, 8, 7]);
    assert_eq!(colors, vec![0, 1, 0, 2, 0, 3]);
    assert_eq!(mask(&data, 8, 3, 2), background_blocks(&counts, &colors, 3, 2));
    assert!(mask(&[], 0, 0, 0).is_empty());
}

#[test]
fn blocks_cover_the_frame() {
    assert_eq!(block_grid(size(256, 192)), (64, 48));
    assert_eq!(block_grid(size(257, 1)), (65, 1));
    assert_eq!(block_grid(size(0, 5)), (1, 2));
    assert_eq!(surface_size(size(0, -3)), (1, 1));
    assert_eq!(surface_size(size(7, 9)), (7, 9));
}

#[test]
fn keys_are_handed_to_the_shader() {
    let (colors, count) = params(&vec![DARK, SIDEBAR]);
    assert_eq!(count, 2);
    assert_eq!(colors, vec![[20, 20, 20, 255], [14, 14, 16, 255], [0; 4], [0; 4]]);
    let (colors, count) = params(&vec![DARK; 6]);
    assert_eq!(count, 4);
    assert_eq!(colors.len(), 4);
    assert_eq!(params(&Vec::new()).1, 0);
}
