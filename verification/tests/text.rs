use darkroom_core::text::{contains_chars, eq_ignore_ascii_case, is_float_literal_chars, is_float_text_chars, is_xy_text_chars};

fn chars(s: &str) -> Vec<char> {
    s.chars().collect()
}

#[test]
fn float_literals_follow_the_standard_grammar() {
    for ok in ["0.75", "-20", "+.5", "1.", "1e5", "2.5E-3", "007"] {
        assert!(is_float_literal_chars(&chars(ok)), "{ok}");
        assert!(ok.parse::<f64>().is_ok());
    }
    for bad in ["", ".", "-", "1e", "1.2.3", "--1", "1-2", "e5", "1e+"] {
        assert!(!is_float_literal_chars(&chars(bad)), "{bad}");
        assert!(bad.parse::<f64>().is_err());
    }
}

#[test]
fn float_texts_include_inf_and_nan() {
    for ok in ["inf", "-Infinity", "NaN", "+3"] {
        assert!(is_float_text_chars(&chars(ok)), "{ok}");
        assert!(ok.parse::<f32>().is_ok());
    }
    assert!(!is_float_text_chars(&chars("infinit")));
}

#[test]
fn xy_points_need_two_trimmed_numbers() {
    assert!(is_xy_text_chars(&chars("128, 140")));
    assert!(is_xy_text_chars(&chars(" 1 ,2,junk")));
    assert!(!is_xy_text_chars(&chars("128")));
    assert!(!is_xy_text_chars(&chars("a, 1")));
    assert!(!is_xy_text_chars(&chars("1,")));
}

#[test]
fn substring_and_case_helpers() {
    assert!(contains_chars(&chars("s = { settings"), &chars("settings")));
    assert!(!contains_chars(&chars("set"), &chars("settings")));
    assert!(contains_chars(&chars("abc"), &chars("")));
    assert!(eq_ignore_ascii_case("LRTemplate", "lrtemplate"));
    assert!(!eq_ignore_ascii_case("lrtemplat", "lrtemplate"));
}
