use gimmisn_cron::i18n::{get_language, set_language, translate, Translations};

/// A binary MO catalog with one message.
fn mo_catalog(original: &str, translated: &str) -> Vec<u8> {
    let mut out = Vec::new();
    let strings_at = 28 + 8 + 8;
    let translated_at = strings_at + original.len() + 1;
    for word in [
        0x950412de_u32,
        0,
        1,
        28,
        36,
        0,
        0,
        original.len() as u32,
        strings_at as u32,
        translated.len() as u32,
        translated_at as u32,
    ] {
        out.extend_from_slice(&word.to_le_bytes());
    }
    out.extend_from_slice(original.as_bytes());
    out.push(0);
    out.extend_from_slice(translated.as_bytes());
    out.push(0);
    out
}

#[test]
fn test_translate() {
    let mut tr = Translations::new();
    let catalog = gettext::Catalog::parse(&mo_catalog("Area", "Terület")[..]).unwrap();
    set_language(&mut tr, "hu", Some(catalog));
    assert_eq!(translate(&tr, "Area"), "Terület");
    assert_eq!(translate(&tr, "Street"), "Street");
    assert_eq!(get_language(&tr), "hu");
    set_language(&mut tr, "en", None);
    assert_eq!(translate(&tr, "Area"), "Area");
}

#[test]
fn test_default_language() {
    let tr = Translations::new();
    assert_eq!(get_language(&tr), "en");
    assert_eq!(translate(&tr, "Area"), "Area");
}

#[test]
fn test_language_without_catalog() {
    let mut tr = Translations::new();
    set_language(&mut tr, "de", None);
    assert_eq!(get_language(&tr), "de");
    assert_eq!(translate(&tr, "Area"), "Area");
}
