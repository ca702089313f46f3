use blurman::mapping::{
    blur_strength_to_radius, blur_strength_to_tint_alpha, clamp_blur, clamp_transparency,
    normalize_process, restore_action, transparency_to_alpha, BlurRadius, RestoreAction,
    SavedStyle, BLUR_MAX, BLUR_MIN, TRANSPARENCY_MAX, TRANSPARENCY_MIN,
};

fn radius(strength: u8) -> f32 {
    let r: BlurRadius = blur_strength_to_radius(strength);
    r.whole as f32 + r.part as f32 / r.parts as f32
}

#[test]
fn transparency_stays_visible_and_orders_correctly() {
    let solid = transparency_to_alpha(TRANSPARENCY_MIN);
    let glassy = transparency_to_alpha(TRANSPARENCY_MAX);
    assert!(solid > glassy);
    assert!(glassy >= 76);
    assert!(solid < 255);
    assert_eq!(transparency_to_alpha(0), solid);
    assert_eq!(transparency_to_alpha(100), glassy);
}

#[test]
fn blur_slider_never_reaches_a_sharp_backdrop() {
    let low = radius(BLUR_MIN);
    let high = radius(BLUR_MAX);
    assert!((low - 4.0).abs() < 0.01);
    assert!((high - 48.0).abs() < 0.01);
    assert!(low > 0.0);
    assert!(high > low);
    assert!(blur_strength_to_tint_alpha(BLUR_MIN) < blur_strength_to_tint_alpha(BLUR_MAX));
}

#[test]
fn restore_respects_windows_that_were_already_layered() {
    let layered = SavedStyle {
        exstyle: 0x0008_0000,
        was_layered: true,
        alpha: 200,
    };
    assert_eq!(
        restore_action(&layered),
        RestoreAction::KeepLayered { alpha: 200 }
    );
    let plain = SavedStyle {
        exstyle: 0x0000_0100,
        was_layered: false,
        alpha: 255,
    };
    assert_eq!(restore_action(&plain), RestoreAction::ClearLayered);
}

#[test]
fn process_names_normalize() {
    assert_eq!(normalize_process("chrome"), "chrome.exe");
    assert_eq!(normalize_process("C:\\Program Files\\Google\\Chrome\\Application\\chrome.exe"), "chrome.exe");
    assert_eq!(normalize_process("notepad.EXE"), "notepad.EXE");
}

#[test]
fn sliders_stop_at_their_ends() {
    assert_eq!(clamp_transparency(0), 10);
    assert_eq!(clamp_transparency(10), 10);
    assert_eq!(clamp_transparency(55), 55);
    assert_eq!(clamp_transparency(71), 70);
    assert_eq!(clamp_transparency(255), 70);
    assert_eq!(clamp_blur(0), 1);
    assert_eq!(clamp_blur(77), 77);
    assert_eq!(clamp_blur(101), 100);
}

#[test]
fn looks_have_exact_values() {
    assert_eq!(transparency_to_alpha(10), 230);
    assert_eq!(transparency_to_alpha(30), 179);
    assert_eq!(transparency_to_alpha(70), 77);
    assert_eq!(blur_strength_to_tint_alpha(1), 28);
    assert_eq!(blur_strength_to_tint_alpha(40), 96);
    assert_eq!(blur_strength_to_tint_alpha(100), 200);
    assert_eq!(blur_strength_to_radius(1), BlurRadius { whole: 4, part: 0, parts: 99 });
    assert_eq!(blur_strength_to_radius(40), BlurRadius { whole: 4, part: 39 * 44, parts: 99 });
}

/// The look of every setting is the one that floating point gives.
#[test]
fn looks_agree_with_floating_point() {
    for value in 0..=255u8 {
        let transparency = value.clamp(TRANSPARENCY_MIN, TRANSPARENCY_MAX) as f32 / 100.0;
        let alpha = (255.0 * (1.0 - transparency)).round() as u8;
        assert_eq!(transparency_to_alpha(value), alpha, "transparency {value}");
        let strength = value.clamp(BLUR_MIN, BLUR_MAX) as f32 - BLUR_MIN as f32;
        let span = (BLUR_MAX - BLUR_MIN) as f32;
        let tint = (28.0 + strength * (200.0 - 28.0) / span).round() as u8;
        assert_eq!(blur_strength_to_tint_alpha(value), tint, "blur {value}");
        assert_eq!(radius(value), 4.0 + strength * (48.0 - 4.0) / span, "blur {value}");
    }
}

#[test]
fn odd_process_names_normalize() {
    assert_eq!(normalize_process("  \"C:/Tools/edit\"  "), "edit.exe");
    assert_eq!(normalize_process("a\\b/c.ExE"), "c.ExE");
    assert_eq!(normalize_process("exe"), "exe.exe");
    assert_eq!(normalize_process(".exe"), ".exe");
    assert_eq!(normalize_process("   "), "");
    assert_eq!(normalize_process("C:\\Windows\\"), "");
    assert_eq!(normalize_process("\u{3000}editor\u{a0}"), "editor.exe");
}

#[test]
fn normalizing_again_changes_nothing() {
    for name in ["chrome", "C:\\x\\Y.exe", " \"notepad\" ", "a b/c d"] {
        let once = normalize_process(name);
        assert_eq!(normalize_process(&once), once);
    }
    // A quote inside a path is only at the edge once the folder is gone.
    let quoted = normalize_process("dir/\"foo");
    assert_eq!(quoted, "\"foo.exe");
    assert_eq!(normalize_process(&quoted), "foo.exe");
}
