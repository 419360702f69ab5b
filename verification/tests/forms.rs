use speedyf::forms::{decode_pdfium_utf16, form_field_kind};

#[test]
fn form_field_types_have_stable_ui_kinds() {
    assert_eq!(form_field_kind(1), "button");
    assert_eq!(form_field_kind(2), "checkbox");
    assert_eq!(form_field_kind(3), "radio");
    assert_eq!(form_field_kind(4), "combo");
    assert_eq!(form_field_kind(5), "list");
    assert_eq!(form_field_kind(6), "text");
    assert_eq!(form_field_kind(7), "signature");
    assert_eq!(form_field_kind(-1), "other");
}

#[test]
fn pdfium_utf16_decoder_removes_the_terminal_nul() {
    assert_eq!(
        decode_pdfium_utf16(&['S' as u16, 'p' as u16, 'e' as u16, 'e' as u16, 'd' as u16, 0]),
        "Speed"
    );
}

#[test]
fn utf16_text_without_a_nul_and_with_a_lone_surrogate() {
    assert_eq!(decode_pdfium_utf16(&['o' as u16, 'k' as u16]), "ok");
    assert_eq!(decode_pdfium_utf16(&[0, 'x' as u16]), "");
    assert_eq!(decode_pdfium_utf16(&[0xD800, 'a' as u16, 0]), "\u{FFFD}a");
}
