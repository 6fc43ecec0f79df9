use pepperx_uinput_helper::compose::compose_locale;
use pepperx_uinput_helper::layout::{
    detect_layout, keymap_failure, layout_from_config, layout_from_sources, requested_layout,
    split_layout_variant, LayoutSource,
};

#[test]
fn split_layout_variant_handles_gsettings_plus_form() {
    assert_eq!(split_layout_variant("fr+mac", ""), ("fr", "mac"));
    assert_eq!(split_layout_variant("fr", "oss"), ("fr", "oss"));
    assert_eq!(split_layout_variant("us", ""), ("us", ""));
}

#[test]
fn split_layout_variant_edges() {
    assert_eq!(split_layout_variant("fr+mac", "oss"), ("fr+mac", "oss"));
    assert_eq!(split_layout_variant("a+b+c", ""), ("a", "b+c"));
    assert_eq!(split_layout_variant("+", ""), ("", ""));
    assert_eq!(split_layout_variant("", ""), ("", ""));
    let (layout, variant) = split_layout_variant("ê+é", "");
    assert_eq!(format!("{layout}+{variant}"), "ê+é");
}

#[test]
fn the_environment_goes_before_detection() {
    assert_eq!(requested_layout(Some("de"), None, "fr+mac"), ("de", ""));
    assert_eq!(requested_layout(None, None, "fr+mac"), ("fr", "mac"));
    assert_eq!(requested_layout(None, Some("oss"), "fr"), ("fr", "oss"));
    assert_eq!(requested_layout(Some("de+neo"), Some(""), "fr"), ("de", "neo"));
    // A layout that is set to nothing is still set.
    assert_eq!(requested_layout(Some(""), None, "fr"), ("", ""));
}

#[test]
fn first_source_of_the_desktop_is_taken() {
    let from = |text: &str| layout_from_sources(text);
    assert_eq!(from("[('xkb', 'us'), ('xkb', 'fr+mac')]"), Some("us".to_string()));
    assert_eq!(from("[('ibus', 'anthy'), ('xkb', 'fr+mac')]"), Some("fr+mac".to_string()));
    assert_eq!(from("[('xkb', ''), ('xkb', 'fr')]"), None);
    assert_eq!(from("[('xkb', 'fr"), None);
    assert_eq!(from("@a(ss) []"), None);
    assert_eq!(from(""), None);
}

#[test]
fn first_layout_of_the_configuration_is_taken() {
    let from = |text: &str| layout_from_config(text);
    assert_eq!(from("XKBMODEL=\"pc105\"\nXKBLAYOUT=\"fr,us\"\n"), Some("fr".to_string()));
    assert_eq!(from("XKBLAYOUT=de"), Some("de".to_string()));
    assert_eq!(from("XKBLAYOUT=\"\"\r\nXKBLAYOUT=\"es\"\r\n"), Some("es".to_string()));
    assert_eq!(from("XKBLAYOUT=\" it \"\n"), Some("it".to_string()));
    assert_eq!(from("XKBLAYOUT=\",fr\"\n"), Some(String::new()));
    assert_eq!(from(" XKBLAYOUT=\"fr\"\n"), None);
    // Quotes go before white space does.
    assert_eq!(from("XKBLAYOUT=\"fr\" \n"), Some("fr\"".to_string()));
    assert_eq!(from("XKBLAYOUT=\"fr\"\r"), Some("fr\"".to_string()));
    assert_eq!(from(""), None);
}

#[test]
fn detection_goes_from_source_to_source() {
    let found = detect_layout(Some(b"[('xkb', 'fr+mac')]"), Some("XKBLAYOUT=\"de\"\n"));
    assert_eq!((found.layout.as_str(), found.source), ("fr+mac", LayoutSource::DesktopSettings));
    let found = detect_layout(Some(b"@a(ss) []"), Some("XKBLAYOUT=\"de\"\n"));
    assert_eq!((found.layout.as_str(), found.source), ("de", LayoutSource::KeyboardConfig));
    let found = detect_layout(None, Some("XKBLAYOUT=\"de\"\n"));
    assert_eq!((found.layout.as_str(), found.source), ("de", LayoutSource::KeyboardConfig));
    let found = detect_layout(None, Some("XKBMODEL=\"pc105\"\n"));
    assert_eq!((found.layout.as_str(), found.source), ("us", LayoutSource::Fallback));
    let found = detect_layout(None, None);
    assert_eq!((found.layout.as_str(), found.source), ("us", LayoutSource::Fallback));
}

#[test]
fn desktop_settings_may_hold_any_bytes() {
    let found = detect_layout(Some(b"\xff[('xkb', 'f\xc3\xa9\xff')]"), None);
    assert_eq!(found.layout, "fé\u{fffd}");
    let found = detect_layout(Some("[('xkb', 'fé')]".as_bytes()), None);
    assert_eq!((found.layout.as_str(), found.source), ("fé", LayoutSource::DesktopSettings));
}

#[test]
fn keymap_failure_names_layout_and_variant() {
    assert_eq!(
        keymap_failure("xx", "yy"),
        "failed to compile XKB keymap for layout 'xx', variant 'yy'"
    );
}

#[test]
fn locale_is_that_of_the_first_variable_set() {
    assert_eq!(compose_locale(Some("fr_FR.UTF-8"), Some("de"), Some("it")), "fr_FR.UTF-8");
    assert_eq!(compose_locale(None, Some("de_DE"), Some("it")), "de_DE");
    assert_eq!(compose_locale(None, None, Some("it_IT")), "it_IT");
    assert_eq!(compose_locale(None, None, None), "en_US.UTF-8");
    // A variable that is set decides, even to no avail.
    assert_eq!(compose_locale(Some(""), Some("de"), None), "en_US.UTF-8");
    assert_eq!(compose_locale(Some("C"), Some("de"), None), "en_US.UTF-8");
    assert_eq!(compose_locale(Some("C.UTF-8"), Some("de"), None), "en_US.UTF-8");
    assert_eq!(compose_locale(Some("Cx"), None, None), "Cx");
}
