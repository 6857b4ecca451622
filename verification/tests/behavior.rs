use formatx::ErrorKind;
use formatx::Placeholder;
use formatx::Template;
use formatx::Value;

#[test]
fn round_trip_collapses_escapes() {
    assert_eq!(
        Template::new("a {{b}} c {{{{d}}}}").unwrap().text().unwrap(),
        "a {b} c {{d}}"
    );
    assert_eq!(Template::new("plain text").unwrap().text().unwrap(), "plain text");
}

#[test]
fn positional_numbering_skips_claimed_indices() {
    let mut t = Template::new("{1} {}").unwrap();
    t.replace_positional(&Value::Str("first".to_string()));
    t.replace("1", &Value::Str("second".to_string()));
    assert_eq!(t.text().unwrap(), "second first");
}

#[test]
fn precision_rounds_decimal_text() {
    let mut t = Template::new("{:.2}").unwrap();
    t.replace_positional(&Value::Decimal("99.9999".to_string()));
    assert_eq!(t.text().unwrap(), "100.00");
}

#[test]
fn precision_keeps_sign_of_small_negatives() {
    let mut t = Template::new("{:.2}").unwrap();
    t.replace_positional(&Value::Decimal("-0.004".to_string()));
    assert_eq!(t.text().unwrap(), "-0.00");
}

#[test]
fn precision_rounds_ties_to_even() {
    let mut t = Template::new("{:.1}").unwrap();
    t.replace_positional(&Value::Decimal("0.25".to_string()));
    assert_eq!(t.text().unwrap(), "0.2");
}

#[test]
fn precision_truncates_plain_text() {
    let mut t = Template::new("{:.2}").unwrap();
    t.replace_positional(&Value::Str("hello".to_string()));
    assert_eq!(t.text().unwrap(), "he");
}

#[test]
fn missing_values_lists_every_name_once() {
    let t = Template::new("{a} {0}").unwrap();
    let err = t.text().unwrap_err();
    assert!(matches!(err.kind(), ErrorKind::MissingValues));
    assert_eq!(
        err.message(),
        "missing placeholders values for: a (named), 0 (positional)"
    );
}

#[test]
fn unsupported_tokens_are_refused() {
    for spec in ["{:x}", "{:X}", "{:o}", "{:b}", "{:p}", "{:e}", "{:E}", "{:1.2.*}", "{:1$}"] {
        let err = Template::new(spec).unwrap_err();
        assert!(matches!(err.kind(), ErrorKind::UnsupportedFormatSpec));
    }
    let err = Template::new("{:x}").unwrap_err();
    assert_eq!(err.message(), "x formatting is not supported but used in {0:x}");
}

#[test]
fn fill_character_is_not_an_unsupported_token() {
    let mut t = Template::new("{:x<5}").unwrap();
    t.replace_positional(&Value::Str("hi".to_string()));
    assert_eq!(t.text().unwrap(), "hixxx");
}

#[test]
fn unbalanced_braces_are_a_parse_error() {
    let err = Template::new("{").unwrap_err();
    assert!(matches!(err.kind(), ErrorKind::Parse));
    assert_eq!(
        err.message(),
        "number of opening and closing curly braces are not equal i.e. 1 != 0"
    );
}

#[test]
fn misordered_spec_categories_are_a_parse_error() {
    let err = Template::new("{:0+5}").unwrap_err();
    assert!(matches!(err.kind(), ErrorKind::Parse));
    assert_eq!(err.message(), "sign should be used before 0 padding and width in {0:0+5}");
}

#[test]
fn missing_precision_digits_are_a_parse_error() {
    let err = Template::new("{:1.}").unwrap_err();
    assert!(matches!(err.kind(), ErrorKind::Parse));
    assert_eq!(err.message(), "precision value not supplied in {0:1.}");
}

#[test]
fn replace_is_idempotent_once_resolved() {
    let mut t = Template::new("{n} and {n}").unwrap();
    t.replace_with_callback("n", &Value::Int(1), |formatted, _placeholder| formatted);
    let first = t.text().unwrap();
    assert_eq!(first, "1 and 1");
    t.replace("n", &Value::Int(2));
    assert_eq!(t.text().unwrap(), first);
}

#[test]
fn replace_unknown_name_is_a_no_op() {
    let mut t = Template::new("{a}").unwrap();
    t.replace("b", &Value::Int(1));
    assert!(t.contains("a"));
    t.replace("a", &Value::Int(7));
    assert_eq!(t.text().unwrap(), "7");
}

#[test]
fn contains_tracks_resolution() {
    let mut t = Template::new("{x} {y}").unwrap();
    assert!(t.contains("x"));
    assert!(t.contains("y"));
    t.replace("x", &Value::Int(1));
    assert!(!t.contains("x"));
    assert!(t.contains("y"));
}

#[test]
fn unchecked_text_shows_partial_state() {
    let mut t = Template::new("{a} {{b}}").unwrap();
    assert_eq!(t.unchecked_text(), "{a} {b}");
    t.replace("a", &Value::Int(9));
    assert_eq!(t.unchecked_text(), "9 {b}");
}

#[test]
fn replace_from_callback_supplies_text() {
    let mut t = Template::new("{x}").unwrap();
    t.replace_from_callback("x", |_placeholder| "seven".to_string());
    assert_eq!(t.text().unwrap(), "seven");
}

#[test]
fn callback_sees_attributes() {
    let mut t = Template::new("{x mood=loud}").unwrap();
    t.replace_with_callback("x", &Value::Str("hey".to_string()), |formatted, placeholder| {
        if placeholder.attr("mood").as_deref() == Some("loud") {
            formatted.to_uppercase()
        } else {
            formatted
        }
    });
    assert_eq!(t.text().unwrap(), "HEY");
}

#[test]
fn attr_reads_quoted_values() {
    let p = Placeholder::new("{u name=emily}", "u").unwrap().unwrap();
    assert_eq!(p.attr("name").as_deref(), Some("emily"));
    let p = Placeholder::new("{u name=\"emily cooper\"}", "u").unwrap().unwrap();
    assert_eq!(p.attr("name").as_deref(), Some("emily cooper"));
    let p = Placeholder::new("{u name='emily clarke'}", "u").unwrap().unwrap();
    assert_eq!(p.attr("name").as_deref(), Some("emily clarke"));
    assert_eq!(p.attr("other"), None);
}

#[test]
fn value_scalar_renderings() {
    let mut t = Template::new("{a} {b} {c} {d}").unwrap();
    t.replace("a", &Value::Bool(true));
    t.replace("b", &Value::UInt(18446744073709551615));
    t.replace("c", &Value::Int(-7));
    t.replace("d", &Value::Custom {
        display: "shown".to_string(),
        debug: "Debugged".to_string(),
    });
    assert_eq!(t.text().unwrap(), "true 18446744073709551615 -7 shown");

    let mut t = Template::new("{v:?}").unwrap();
    t.replace("v", &Value::Custom {
        display: "shown".to_string(),
        debug: "Debugged".to_string(),
    });
    assert_eq!(t.text().unwrap(), "Debugged");
}

#[test]
fn zero_pads_plain_text_on_the_left() {
    let mut t = Template::new("{:05}").unwrap();
    t.replace_positional(&Value::Str("ab".to_string()));
    assert_eq!(t.text().unwrap(), "000ab");
}

#[test]
fn plus_sign_combines_with_zero_padding() {
    let mut t = Template::new("{:+05}").unwrap();
    t.replace_positional(&Value::Int(42));
    assert_eq!(t.text().unwrap(), "+0042");
}

#[test]
fn centre_fill_splits_padding_to_the_right() {
    let mut t = Template::new("{:*^5}").unwrap();
    t.replace_positional(&Value::Str("ab".to_string()));
    assert_eq!(t.text().unwrap(), "*ab**");
}

#[test]
fn width_and_precision_combine() {
    let mut t = Template::new("{:07.2}").unwrap();
    t.replace_positional(&Value::Decimal("99.9999".to_string()));
    assert_eq!(t.text().unwrap(), "0100.00");
}

#[test]
fn attributes_and_spec_share_a_placeholder() {
    let mut t = Template::new("{name attr=val:>5}").unwrap();
    t.replace_with_callback("name", &Value::Str("x".to_string()), |formatted, placeholder| {
        assert_eq!(placeholder.attr("attr").as_deref(), Some("val"));
        formatted
    });
    assert_eq!(t.text().unwrap(), "    x");
}

#[test]
fn one_replace_fills_every_occurrence() {
    let mut t = Template::new("{0} {0} {w}{w}").unwrap();
    t.replace("0", &Value::Int(5));
    t.replace("w", &Value::Str("ha".to_string()));
    assert_eq!(t.text().unwrap(), "5 5 haha");
}
