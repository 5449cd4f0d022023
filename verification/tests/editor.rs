use needle::keys::{validate_settings_file, KeyBindingConfig, ProjectSettingsFile, resolve_settings};
use needle::encoding::{decode_text_bytes, TextFileEncoding};
use needle::text_edit::compute_minimal_text_edit;

#[test]
fn computes_minimal_text_edit_for_insertion() {
    let (range, replacement) =
        compute_minimal_text_edit("hello world", "hello brave world").unwrap();
    assert_eq!(range, 6..6);
    assert_eq!(replacement, "brave ");
}

#[test]
fn computes_minimal_text_edit_for_deletion() {
    let (range, replacement) =
        compute_minimal_text_edit("hello brave world", "hello world").unwrap();
    assert_eq!(range, 6..12);
    assert_eq!(replacement, "");
}

#[test]
fn computes_minimal_text_edit_for_replacement_with_utf8() {
    let (range, replacement) = compute_minimal_text_edit("你好，世界", "你好，Rust").unwrap();
    assert_eq!(range, "你好，".len().."你好，世界".len());
    assert_eq!(replacement, "Rust");
}

#[test]
fn returns_none_when_text_is_unchanged() {
    assert!(compute_minimal_text_edit("same", "same").is_none());
}

#[test]
fn resolves_settings_with_project_overrides() {
    let user = ProjectSettingsFile {
        show_hidden_files: Some(true),
        sidebar_width_bits: Some(300.0f32.to_bits()),
        keybindings: vec![KeyBindingConfig {
            command: "show_find".to_string(),
            key: "F".to_string(),
            modifiers: vec!["command".to_string()],
        }],
    };
    let project = ProjectSettingsFile {
        show_hidden_files: Some(false),
        sidebar_width_bits: Some(260.0f32.to_bits()),
        keybindings: vec![KeyBindingConfig {
            command: "show_project_search".to_string(),
            key: "F".to_string(),
            modifiers: vec!["command".to_string(), "shift".to_string()],
        }],
    };

    let resolved = resolve_settings(&user, &project);
    assert!(!resolved.show_hidden_files);
    assert_eq!(f32::from_bits(resolved.sidebar_width_bits), 260.0);
    assert_eq!(resolved.keybindings.len(), 2);
}

#[test]
fn rejects_invalid_keybinding_modifier() {
    let settings = ProjectSettingsFile {
        show_hidden_files: None,
        sidebar_width_bits: None,
        keybindings: vec![KeyBindingConfig {
            command: "show_find".to_string(),
            key: "F".to_string(),
            modifiers: vec!["hyper".to_string()],
        }],
    };

    let err = validate_settings_file(&settings).unwrap_err();
    assert!(err.contains("unsupported keybinding modifier"));
}

#[test]
fn decodes_utf8_text() {
    let decoded = decode_text_bytes("中文 UTF-8".as_bytes());
    assert_eq!(decoded.text, "中文 UTF-8");
    assert!(matches!(decoded.encoding, TextFileEncoding::Utf8));
}

#[test]
fn decodes_gbk_text() {
    let (encoded, _, _) = encoding_rs::GBK.encode("中文内容");
    let decoded = decode_text_bytes(encoded.as_ref());
    assert_eq!(decoded.text, "中文内容");
    assert!(
        matches!(decoded.encoding, TextFileEncoding::Legacy(enc) if enc == encoding_rs::GBK)
    );
}

#[test]
fn decodes_by_byte_order_mark() {
    let decoded = decode_text_bytes(&[0xEF, 0xBB, 0xBF, b'h', b'i']);
    assert_eq!(decoded.text, "hi");
    assert!(matches!(decoded.encoding, TextFileEncoding::Utf8Bom));

    let decoded = decode_text_bytes(&[0xFF, 0xFE, b'h', 0, b'i', 0]);
    assert_eq!(decoded.text, "hi");
    assert!(matches!(decoded.encoding, TextFileEncoding::Utf16Le));

    let decoded = decode_text_bytes(&[0xFE, 0xFF, 0, b'h', 0, b'i']);
    assert_eq!(decoded.text, "hi");
    assert!(matches!(decoded.encoding, TextFileEncoding::Utf16Be));
}

#[test]
fn encodes_in_the_encoding_read() {
    assert_eq!(TextFileEncoding::Utf8.encode("hé"), "hé".as_bytes().to_vec());
    assert_eq!(TextFileEncoding::Utf8Bom.encode("hi"), vec![0xEF, 0xBB, 0xBF, b'h', b'i']);
    assert_eq!(
        TextFileEncoding::Utf16Le.encode("h😀"),
        vec![0xFF, 0xFE, 0x68, 0x00, 0x3D, 0xD8, 0x00, 0xDE]
    );
    assert_eq!(
        TextFileEncoding::Utf16Be.encode("h😀"),
        vec![0xFE, 0xFF, 0x00, 0x68, 0xD8, 0x3D, 0xDE, 0x00]
    );
    let gbk = TextFileEncoding::Legacy(encoding_rs::GBK).encode("中文内容");
    let (expected, _, _) = encoding_rs::GBK.encode("中文内容");
    assert_eq!(gbk, expected.into_owned());
}

#[test]
fn encoding_round_trips_through_decoding() {
    for encoding in [TextFileEncoding::Utf8Bom, TextFileEncoding::Utf16Le, TextFileEncoding::Utf16Be] {
        let bytes = encoding.encode("round trip ✓ 😀");
        let decoded = decode_text_bytes(&bytes);
        assert_eq!(decoded.text, "round trip ✓ 😀");
        assert_eq!(decoded.encoding.label(), encoding.label());
    }
}

#[test]
fn encoding_labels() {
    assert_eq!(TextFileEncoding::Utf8.label(), "UTF-8");
    assert_eq!(TextFileEncoding::Utf8Bom.label(), "UTF-8 with BOM");
    assert_eq!(TextFileEncoding::Utf16Le.label(), "UTF-16 LE");
    assert_eq!(TextFileEncoding::Utf16Be.label(), "UTF-16 BE");
    assert_eq!(TextFileEncoding::Legacy(encoding_rs::GBK).label(), "GBK");
}

#[test]
fn utf8_text_reads_back_as_written() {
    let bytes = TextFileEncoding::Utf8.encode("héllo ✓");
    let decoded = decode_text_bytes(&bytes);
    assert_eq!(decoded.text, "héllo ✓");
    assert!(matches!(decoded.encoding, TextFileEncoding::Utf8));

    let bytes = TextFileEncoding::Utf8.encode("\u{feff}x");
    let decoded = decode_text_bytes(&bytes);
    assert_eq!(decoded.text, "x");
    assert!(matches!(decoded.encoding, TextFileEncoding::Utf8Bom));
}
