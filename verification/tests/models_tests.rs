use game_time_tracker::icon::{icon_ico, icon_png, icon_rgba};
use game_time_tracker::models::{Game, State};

#[test]
fn test_icon_rgba_has_correct_length() {
    let rgba = icon_rgba();
    assert_eq!(rgba.len(), 32 * 32 * 4, "expected 32×32×4 = 4096 bytes");
}

#[test]
fn test_icon_rgba_alpha_values_are_opaque_or_transparent() {
    for (i, chunk) in icon_rgba().chunks_exact(4).enumerate() {
        assert!(
            chunk[3] == 0 || chunk[3] == 255,
            "pixel {i} has unexpected alpha {}",
            chunk[3]
        );
    }
}

#[test]
fn test_icon_png_has_valid_magic_header() {
    let png = icon_png();
    assert!(!png.is_empty(), "PNG output must not be empty");
    assert_eq!(
        &png[..8],
        &[137u8, 80, 78, 71, 13, 10, 26, 10],
        "output does not start with the PNG magic header"
    );
}

#[test]
fn icon_pixels_match_the_drawing() {
    let rgba = icon_rgba();
    let px = |x: usize, y: usize| -> [u8; 4] {
        let i = (y * 32 + x) * 4;
        [rgba[i], rgba[i + 1], rgba[i + 2], rgba[i + 3]]
    };
    // Corner: outside the disc.
    assert_eq!(px(0, 0), [0, 0, 0, 0]);
    // Centre bar.
    assert_eq!(px(16, 16), [97, 175, 239, 255]);
    // Left analog stick (cx = -5, cy = -3).
    assert_eq!(px(11, 13), [152, 195, 121, 255]);
    // Plain background inside the disc (cx = 0, cy = -10).
    assert_eq!(px(16, 6), [40, 44, 52, 255]);
    // Distance exactly 14 (cx = 14, cy = 0) is outside.
    assert_eq!(px(30, 16), [0, 0, 0, 0]);
    // Squared distance 194 (cx = 13, cy = -5) is inside.
    assert_eq!(px(29, 11)[3], 255);
}

#[test]
fn test_state_default() {
    let state = State::default();
    assert!(state.active_sessions.is_empty());
    assert!(state.last_seen.is_none());
}

#[test]
fn test_generate_id_normal() {
    let id = Game::generate_id("Minecraft");
    assert_eq!(id, "minecraft");
}

#[test]
fn test_generate_id_with_spaces() {
    let id = Game::generate_id("Grand Theft Auto");
    assert_eq!(id, "grand-theft-auto");
}

#[test]
fn test_generate_id_with_special_chars() {
    let id = Game::generate_id("Game! @#$%");
    assert_eq!(id, "game------");
}

#[test]
fn test_generate_id_all_non_alphanumeric() {
    let id = Game::generate_id("!@#$%");
    assert_eq!(id, "-----");
}

#[test]
fn test_generate_id_mixed() {
    let id = Game::generate_id("Elden Ring (2022)");
    assert_eq!(id, "elden-ring--2022-");
}

#[test]
fn generate_id_trims_and_keeps_unicode_letters() {
    assert_eq!(Game::generate_id("  Ökö Spiel \t"), "ökö-spiel");
}

#[test]
fn ico_file_layout() {
    let ico = icon_ico();
    let rgba = icon_rgba();
    assert_eq!(ico.len(), 6 + 16 + 40 + 32 * 32 * 4 + 32 * 4);
    assert_eq!(&ico[..6], &[0, 0, 1, 0, 1, 0]);
    assert_eq!(u32::from_le_bytes([ico[14], ico[15], ico[16], ico[17]]), 4264);
    assert_eq!(u32::from_le_bytes([ico[18], ico[19], ico[20], ico[21]]), 22);
    assert_eq!(i32::from_le_bytes([ico[30], ico[31], ico[32], ico[33]]), 64);
    let mut pos = 62;
    for y in (0..32).rev() {
        for x in 0..32 {
            let idx = (y * 32 + x) * 4;
            assert_eq!(&ico[pos..pos + 4], &[rgba[idx + 2], rgba[idx + 1], rgba[idx], rgba[idx + 3]]);
            pos += 4;
        }
    }
    assert!(ico[pos..].iter().all(|b| *b == 0));
}

#[test]
fn generated_ids_keep_at_most_64_characters() {
    let long = "A".repeat(70) + " Game";
    let id = Game::generate_id(&long);
    assert_eq!(id.chars().count(), 64);
    assert_eq!(id, "a".repeat(64));
    let exact = "b".repeat(64);
    assert_eq!(Game::generate_id(&exact), exact);
    assert_eq!(Game::generate_id("  Short Name  "), "short-name");
    let mixed = format!("{}!xyz", "c".repeat(63));
    assert_eq!(Game::generate_id(&mixed), format!("{}-", "c".repeat(63)));
}

#[test]
fn ids_trim_unicode_white_space_only() {
    assert_eq!(Game::generate_id("\u{3000}\tGame\u{A0}\u{2029}"), "game");
    assert_eq!(Game::generate_id("\u{85}X\u{205F}Y\u{1680}"), "x-y");
    // A zero-width space is no white space: it stays, as a dash.
    assert_eq!(Game::generate_id("\u{200B}x"), "-x");
}

#[test]
fn an_id_is_its_own_id() {
    let long = "Long Name ".repeat(10);
    for name in ["Minecraft", "  Elden Ring (2022) ", "!@#$%", "", long.as_str()] {
        let id = Game::generate_id(name);
        assert_eq!(Game::generate_id(&id), id);
    }
}
