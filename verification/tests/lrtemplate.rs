use darkroom_core::crs::{ext_eq, CrsSettings, SettingValue};
use darkroom_core::lr_template::LightroomTemplate;
use darkroom_core::lua::{Lua, LuaError, Parser};
use darkroom_core::preset_error::PresetError;

fn read(src: &[u8]) -> Result<CrsSettings, PresetError> {
    LightroomTemplate.read_settings(src)
}

fn malformed(r: Result<CrsSettings, PresetError>) -> String {
    match r {
        Err(PresetError::Malformed(m)) => m,
        Err(_) => panic!("unexpected error kind"),
        Ok(_) => panic!("expected an error"),
    }
}

fn value<'a>(s: &'a CrsSettings, key: &str) -> Option<&'a SettingValue> {
    s.values.iter().find(|(k, _)| k == key).map(|(_, v)| v)
}

fn number(s: &CrsSettings, key: &str) -> String {
    match value(s, key) {
        Some(SettingValue::Number(n)) => n.clone(),
        _ => panic!("{key} is not a number"),
    }
}

fn text(s: &CrsSettings, key: &str) -> String {
    match value(s, key) {
        Some(SettingValue::Text(t)) => t.clone(),
        _ => panic!("{key} is not text"),
    }
}

#[test]
fn deeply_nested_lrtemplate_is_rejected_not_overflow() {
    let mut src = String::from("s = ");
    src.push_str(&"{".repeat(500));
    let res = read(src.as_bytes());
    assert!(res.is_err(), "deep nesting must be rejected");
    assert_eq!(malformed(res), "table nesting too deep");
}

#[test]
fn lrtemplate_handles_long_bracket_strings() {
    let src = r#"
s = {
    value = {
        settings = {
            Exposure2012 = 0.75,
            Caption = [[multi
line note]],
            Tags = { [[one]], [[two]] },
        },
    },
}
"#;
    let parsed = read(src.as_bytes()).expect("long-bracket strings must not break parsing");
    assert_eq!(number(&parsed, "Exposure2012"), "0.75");
    assert_eq!(text(&parsed, "Caption"), "multi\nline note");
    assert!(value(&parsed, "Tags").is_none());
}

#[test]
fn settings_split_into_scalars_and_curves() {
    let src = r#"s = { id = "x", value = { settings = {
        Contrast2012 = 15, Vibrance = -20, ConvertToGrayscale = false, WhiteBalance = "As Shot",
        ToneCurvePV2012 = { "0, 0", "128, 140", "255,255", "junk", 7 },
        ToneCurvePV2012Red = { "0, 10", " 255 , 245 " },
        ["Quoted Key"] = true,
    } }, version = 0 }"#;
    let s = read(src.as_bytes()).unwrap();
    assert_eq!(number(&s, "Contrast2012"), "15");
    assert_eq!(number(&s, "Vibrance"), "-20");
    assert_eq!(text(&s, "ConvertToGrayscale"), "False");
    assert_eq!(text(&s, "Quoted Key"), "True");
    assert_eq!(text(&s, "WhiteBalance"), "As Shot");
    assert_eq!(s.tone_curve, vec!["0, 0", "128, 140", "255,255"]);
    assert_eq!(s.tone_curve_red, vec!["0, 10", " 255 , 245 "]);
    assert!(s.tone_curve_green.is_empty() && s.tone_curve_blue.is_empty());
    assert!(value(&s, "ToneCurvePV2012").is_none());
    assert_eq!(s.values.len(), 5);
}

#[test]
fn top_level_settings_table_is_found() {
    let s = read(b"-- exported\ns={ settings = { Exposure2012 = 1.5e0 } }").unwrap();
    assert_eq!(number(&s, "Exposure2012"), "1.5e0");
}

#[test]
fn later_duplicate_key_wins() {
    let s = read(b"s = { settings = { A = 1, A = 'two' } }").unwrap();
    assert_eq!(text(&s, "A"), "two");
    assert_eq!(s.values.len(), 1);
}

#[test]
fn malformed_templates_name_their_fault() {
    assert_eq!(malformed(read(b"s = { value = { x = 1 } }")), "no settings table");
    assert_eq!(malformed(read(b"s = { settings = { } }")), "empty settings");
    assert_eq!(malformed(read(b"s = { settings = { ToneCurvePV2012 = { 'a' } } }")), "empty settings");
    assert_eq!(malformed(read(b"s = 5")), "unexpected end of input");
    assert_eq!(malformed(read(b"s = { settings = { A = 1e } }")), "bad number '1e'");
    assert_eq!(malformed(read(b"s = { settings = { A = \"x } }")), "unterminated string");
    assert_eq!(malformed(read(b"s = { settings = { A = [==[ x ]] } }")), "unterminated long string");
    assert_eq!(malformed(read(b"s = { settings = { A = 1 }")), "unterminated table");
    assert_eq!(malformed(read(b"s = { settings = { A = @ } }")), "unexpected token");
    assert_eq!(malformed(read(b"s = { settings = { [")), "unterminated string");
}

#[test]
fn invalid_utf8_in_strings_is_replaced() {
    let s = read(b"s = { settings = { Note = \"a\xFFb\", Esc = 'x\\ty' } }").unwrap();
    assert_eq!(text(&s, "Note"), "a\u{FFFD}b");
    assert_eq!(text(&s, "Esc"), "x\ty");
}

#[test]
fn detects_templates_by_extension_or_head() {
    let t = LightroomTemplate;
    assert!(t.detect(b"anything", Some("LrTemplate")));
    assert!(!t.detect(b"s = { settings = {} }", Some("xmp")));
    assert!(t.detect(b"  \n s = { value = { settings = {} } }", None));
    assert!(t.detect(b"s={ settings }", Some("txt")));
    assert!(!t.detect(b"s = { nothing }", None));
    assert!(!t.detect(b"not a preset", Some("txt")));
    assert_eq!(t.format_name(), "lightroom-lrtemplate");
}

#[test]
fn extension_comparison_ignores_ascii_case() {
    assert!(ext_eq(Some("XMP"), "xmp"));
    assert!(!ext_eq(Some("xmpp"), "xmp"));
    assert!(!ext_eq(None, "xmp"));
}

#[test]
fn parser_reads_nested_tables() {
    let mut p = Parser::new("{ 1, -2.5, x = 'y', [\"k\"] = { true } ; }");
    match p.parse_value() {
        Ok(Lua::Table(t)) => {
            assert_eq!(t.arr.len(), 2);
            assert_eq!(t.map.len(), 2);
            assert!(matches!(t.get("x"), Some(Lua::Str(s)) if s == "y"));
            assert!(matches!(t.get("k"), Some(Lua::Table(inner)) if inner.arr.len() == 1));
            assert!(t.get("z").is_none());
        }
        _ => panic!("expected a table"),
    }
    assert_eq!(p.i, 40);
}

#[test]
fn parser_errors_carry_their_message() {
    let mut p = Parser::new("{ a = 1.2.3 }");
    match p.parse_value() {
        Err(e) => {
            assert!(matches!(e, LuaError::BadNumber(_)));
            assert_eq!(e.message(), "bad number '1.2.3'");
        }
        Ok(_) => panic!("expected an error"),
    }
}
