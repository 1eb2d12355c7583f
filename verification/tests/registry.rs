use darkroom_core::preset_error::PresetError;
use darkroom_core::registry::{check_import_size, first_claiming, read_preset, select_format, PresetFormat, MAX_IMPORT_BYTES};

#[test]
fn oversized_import_is_rejected() {
    let big = vec![b' '; MAX_IMPORT_BYTES + 1];
    assert!(select_format(&big, Some("xmp")).is_err());
}

#[test]
fn unknown_bytes_are_rejected() {
    assert!(select_format(b"not a preset", Some("txt")).is_err());
    assert!(matches!(select_format(b"not a preset", Some("txt")), Err(PresetError::UnknownFormat)));
}

#[test]
fn size_cap_message_names_both_sizes() {
    match check_import_size(MAX_IMPORT_BYTES + 1) {
        Err(PresetError::Malformed(m)) => {
            assert_eq!(m, "preset file too large (4194305 bytes; max 4194304)")
        }
        _ => panic!("expected the size error"),
    }
    assert!(check_import_size(MAX_IMPORT_BYTES).is_ok());
}

#[test]
fn builtin_formats_are_tried_in_order() {
    assert_eq!(select_format(b"", Some("xmp")).unwrap(), PresetFormat::LightroomXmp);
    assert_eq!(select_format(b"", Some("LRTEMPLATE")).unwrap(), PresetFormat::LightroomTemplate);
    assert_eq!(
        select_format(b"s = { settings = { x = 1 } }", None).unwrap(),
        PresetFormat::LightroomTemplate
    );
    // A head that looks like both: the .xmp importer is registered first.
    let both = b"s = { settings } camera-raw-settings xmpmeta";
    assert_eq!(select_format(both, None).unwrap(), PresetFormat::LightroomXmp);
}

#[test]
fn read_preset_parses_with_the_claiming_importer() {
    let xmp = br#"<x:xmpmeta xmlns:x="adobe:ns:meta/"><rdf:RDF xmlns:rdf="r">
<rdf:Description xmlns:crs="http://ns.adobe.com/camera-raw-settings/1.0/" crs:Exposure2012="0.5"/>
</rdf:RDF></x:xmpmeta>"#;
    let (f, st) = read_preset(xmp, Some("xmp")).unwrap();
    assert_eq!(f, PresetFormat::LightroomXmp);
    assert_eq!(st.values.len(), 1);
    assert_eq!(st.values[0].0, "Exposure2012");

    let lua = b"s = { value = { settings = { Exposure2012 = 0.75 } } }";
    let (g, st2) = read_preset(lua, Some("lrtemplate")).unwrap();
    assert_eq!(g, PresetFormat::LightroomTemplate);
    assert_eq!(st2.values.len(), 1);

    // Claimed by extension but unreadable: the importer's own error.
    match read_preset(b"s = { x = 1 }", Some("lrtemplate")) {
        Err(PresetError::Malformed(m)) => assert_eq!(m, "no settings table"),
        _ => panic!("expected the template error"),
    }
    assert!(matches!(read_preset(b"plain", Some("txt")), Err(PresetError::UnknownFormat)));
    let big = vec![b' '; MAX_IMPORT_BYTES + 1];
    assert!(matches!(read_preset(&big, Some("xmp")), Err(PresetError::Malformed(_))));
}

#[test]
fn first_claiming_importer_wins() {
    assert_eq!(first_claiming(&[false, true, true]), Some(1));
    assert_eq!(first_claiming(&[true, true]), Some(0));
    assert_eq!(first_claiming(&[false, false]), None);
    assert_eq!(first_claiming(&[]), None);
}

#[test]
fn size_message_spells_out_the_length_in_decimal() {
    match check_import_size(MAX_IMPORT_BYTES + 1) {
        Err(PresetError::Malformed(m)) => {
            assert_eq!(m, format!("preset file too large ({} bytes; max {})", MAX_IMPORT_BYTES + 1, MAX_IMPORT_BYTES));
        },
        other => panic!("unexpected {:?}", other),
    }
}
