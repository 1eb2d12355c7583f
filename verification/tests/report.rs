use darkroom_core::preset_error::PresetError;
use darkroom_core::report::{ImportReport, PresentFields, ReportItem, NOTE_SAT, NOTE_TONE};

#[test]
fn report_marks_append_in_order() {
    let mut r = ImportReport::default();
    r.mark_clean("exposure");
    r.mark_approx("contrast", "magnitude only");
    r.mark_dropped("Temperature", "no anchor");
    r.mark_clean("toneCurve");
    assert_eq!(r.mapped, vec![ReportItem::new("exposure", ""), ReportItem::new("toneCurve", "")]);
    assert_eq!(r.approximated, vec![ReportItem::new("contrast", "magnitude only")]);
    assert_eq!(r.dropped[0].key, "Temperature");
    assert_eq!(r.dropped[0].note, "no anchor");
    assert!(r.source_format.is_empty() && r.source_process_version.is_none());
}

#[test]
fn report_items_compare_by_key_and_note() {
    assert_eq!(ReportItem::new("a", "b"), ReportItem::new("a", "b"));
    assert_ne!(ReportItem::new("a", "b"), ReportItem::new("a", "c"));
}

#[test]
fn preset_errors_render_their_text() {
    assert_eq!(PresetError::UnknownFormat.message(), "unrecognized preset format");
    assert_eq!(PresetError::Malformed("x".into()).message(), "malformed preset: x");
    assert_eq!(PresetError::Io("gone".into()).message(), "io error: gone");
}

#[test]
fn conversion_report_classifies_tiers() {
    let fields = PresentFields {
        exposure: true,
        sharpen: false,
        nr_luma: false,
        nr_color: false,
        tone_curve: true,
        hsl: true,
        contrast: true,
        highlights: false,
        shadows: false,
        whites: false,
        blacks: false,
        saturation: true,
        vignette: false,
        tint: false,
        crop: false,
    };
    let r = ImportReport::for_conversion(
        "lightroom-xmp",
        Some("11.0".into()),
        &fields,
        &[("Vibrance".into(), "folded".into())],
        &[("Temperature".into(), "no anchor".into())],
    );
    let clean: Vec<&str> = r.mapped.iter().map(|i| i.key.as_str()).collect();
    assert_eq!(clean, vec!["exposure", "toneCurve", "hsl"]);
    assert_eq!(
        r.approximated,
        vec![
            ReportItem::new("contrast", NOTE_TONE),
            ReportItem::new("saturation", NOTE_SAT),
            ReportItem::new("Vibrance", "folded"),
        ]
    );
    assert_eq!(r.dropped, vec![ReportItem::new("Temperature", "no anchor")]);
    assert_eq!(r.source_format, "lightroom-xmp");
    assert_eq!(r.source_process_version.as_deref(), Some("11.0"));
}

#[test]
fn white_balance_notes_for_temperature_and_named_balance() {
    let n = darkroom_core::report::white_balance_notes(true, Some("Daylight"));
    assert_eq!(n.len(), 2);
    assert_eq!((n[0].key.as_str(), n[1].key.as_str()), ("Temperature", "WhiteBalance"));
    assert_eq!(n[1].note, "'Daylight' needs per-image EXIF; apply manually");
    assert!(darkroom_core::report::white_balance_notes(false, Some("CUSTOM")).is_empty());
    assert!(darkroom_core::report::white_balance_notes(false, None).is_empty());
}
