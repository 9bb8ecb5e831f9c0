use game_time_tracker::config::{config_source, data_dir_name, ConfigSource};
use game_time_tracker::hash::Md5Hasher;
use game_time_tracker::store::temp_file_name;
use game_time_tracker::winpath::{
    add_dir_to_path, current_path_value, decode_registry_path_bytes, encode_registry_path,
    install_check, kind_to_write, normalize_windows_path, remove_dir_from_path, run_command,
    InstallCheck, PathValueKind,
};

fn utf16le(s: &str) -> Vec<u8> {
    s.encode_utf16().flat_map(|u| u.to_le_bytes()).collect()
}

#[test]
fn registry_strings_decode_and_encode() {
    assert_eq!(decode_registry_path_bytes(&[]), "");
    let mut raw = utf16le("C:\\a;C:\\b");
    raw.extend_from_slice(&[0, 0, 0, 0, 7]);
    assert_eq!(decode_registry_path_bytes(&raw), "C:\\a;C:\\b");
    let with_nul = utf16le("x\0y\0");
    assert_eq!(decode_registry_path_bytes(&with_nul), "xy");

    let enc = encode_registry_path("Ab😀");
    let mut expected = utf16le("Ab😀");
    expected.extend_from_slice(&[0, 0]);
    assert_eq!(enc, expected);
    assert_eq!(decode_registry_path_bytes(&enc), "Ab😀");
}

#[test]
fn path_gets_the_directory_once() {
    let dir = "C:\\Users\\me\\AppData\\Roaming\\game-time-tracker\\";
    assert_eq!(
        add_dir_to_path(" C:\\bin ;;c:\\users\\ME\\appdata\\roaming\\game-time-tracker\\\\;D:\\x", dir),
        "C:\\bin;D:\\x;C:\\Users\\me\\AppData\\Roaming\\game-time-tracker"
    );
    assert_eq!(add_dir_to_path("", "C:\\t"), "C:\\t");
}

#[test]
fn path_loses_the_directory() {
    assert_eq!(remove_dir_from_path("C:\\bin;C:\\T\\;D:\\x", "c:\\t"), Some("C:\\bin;D:\\x".to_string()));
    assert_eq!(remove_dir_from_path("C:\\bin; D:\\x ", "C:\\t"), None);
    // An entry with a trailing backslash counts as a change and is rewritten as it is.
    assert_eq!(remove_dir_from_path("C:\\bin\\", "C:\\t"), Some("C:\\bin\\".to_string()));
}

#[test]
fn registry_value_kinds_and_install_decisions() {
    assert_eq!(kind_to_write(PathValueKind::Sz), PathValueKind::Sz);
    assert_eq!(kind_to_write(PathValueKind::Other), PathValueKind::ExpandSz);
    let (text, kind) = current_path_value(None);
    assert_eq!(text, "");
    assert_eq!(kind, PathValueKind::ExpandSz);
    let raw = utf16le("C:\\a");
    let (text, kind) = current_path_value(Some((&raw, PathValueKind::Sz)));
    assert_eq!(text, "C:\\a");
    assert_eq!(kind, PathValueKind::Sz);

    assert_eq!(normalize_windows_path("\\\\?\\C:\\x\\gtt.exe"), "C:\\x\\gtt.exe");
    assert_eq!(install_check(false, "a", "a"), InstallCheck::Copy);
    assert_eq!(install_check(true, "\\\\?\\C:\\X\\GTT.EXE", "c:\\x\\gtt.exe"), InstallCheck::Keep);
    assert_eq!(install_check(true, "C:\\dl\\gtt.exe", "c:\\x\\gtt.exe"), InstallCheck::CompareHashes);
    assert_eq!(run_command("\\\\?\\C:\\Program Files\\gtt.exe"), "\"C:\\Program Files\\gtt.exe\"");
}

#[test]
fn md5_hex_of_streamed_pieces() {
    let mut h = Md5Hasher::new();
    h.update(b"a");
    h.update(b"bc");
    assert_eq!(h.finish_hex(), "900150983cd24fb0d6963f7d28e17f72");
    assert_eq!(Md5Hasher::new().finish_hex(), "d41d8cd98f00b204e9800998ecf8427e");
}

fn le(units: &[u16]) -> Vec<u8> {
    units.iter().flat_map(|u| u.to_le_bytes()).collect()
}

#[test]
fn registry_text_replaces_unpaired_surrogates() {
    // The standard library's own example: a lone high surrogate before a
    // plain unit, and one at the very end.
    let units = [0xD834u16, 0xDD1E, 0x006d, 0x0075, 0xD800, 0x0069, 0x0063, 0xD834];
    assert_eq!(decode_registry_path_bytes(&le(&units)), "𝄞mu\u{FFFD}ic\u{FFFD}");
    // A lone low surrogate, and a high one followed by another high one.
    assert_eq!(decode_registry_path_bytes(&le(&[0xDC00, 0x41])), "\u{FFFD}A");
    assert_eq!(decode_registry_path_bytes(&le(&[0xD800, 0xD800, 0xDC00])), "\u{FFFD}𐀀");
}

#[test]
fn registry_values_read_back_as_written() {
    for text in ["", "C:\\Windows;C:\\Tools", "é😀 ü;D:\\Spiele", "a\u{FFFF}b"] {
        assert_eq!(decode_registry_path_bytes(&encode_registry_path(text)), text);
    }
    assert_eq!(decode_registry_path_bytes(&encode_registry_path("a\0b\0\0")), "ab");
}

#[test]
fn md5_hex_is_32_lowercase_hex_digits() {
    let mut h = Md5Hasher::new();
    let block = [0x5au8; 8192];
    for _ in 0..3 {
        h.update(&block);
    }
    h.update(b"tail");
    let hex = h.finish_hex();
    assert_eq!(hex.chars().count(), 32);
    assert!(hex.chars().all(|c| c.is_ascii_digit() || ('a'..='f').contains(&c)));
}

#[test]
fn temporary_file_names() {
    assert_eq!(temp_file_name(Some("sessions.json"), 42, 1234567890123, 0), "sessions.json.tmp.42-1234567890123-0");
    assert_eq!(temp_file_name(None, 7, 0, 18446744073709551615), "data.tmp.7-0-18446744073709551615");
}

#[test]
fn config_directory_choice() {
    assert_eq!(config_source(true, true, true, true, true, true), ConfigSource::PlatformConfig);
    assert_eq!(config_source(false, true, false, true, true, true), ConfigSource::LocalAppData);
    assert_eq!(config_source(false, false, true, true, true, true), ConfigSource::HomeConfig);
    assert_eq!(config_source(false, false, true, true, false, true), ConfigSource::CurrentDir);
    assert_eq!(config_source(false, true, false, false, true, false), ConfigSource::Dot);
    assert_eq!(data_dir_name(), "game-time-tracker");
}
