use darkroom_core::crs::{CrsSettings, SettingValue};
use darkroom_core::lr_xmp::{crs_scopes, has_crs_content, li_points_of, scan_crs, LightroomXmp};
use darkroom_core::preset_error::PresetError;
use darkroom_core::xml::{XmlAttr, XmlNode};

fn read(src: &str) -> Result<CrsSettings, PresetError> {
    LightroomXmp.read_settings(src.as_bytes())
}

fn text(s: &CrsSettings, key: &str) -> Option<String> {
    s.values.iter().find(|(k, _)| k == key).map(|(_, v)| match v {
        SettingValue::Text(t) => t.clone(),
        SettingValue::Number(n) => panic!("{key} read as a number {n}"),
    })
}

fn malformed(r: Result<CrsSettings, PresetError>) -> String {
    match r {
        Err(PresetError::Malformed(m)) => m,
        Err(_) => panic!("unexpected error kind"),
        Ok(_) => panic!("expected an error"),
    }
}

#[test]
fn detects_xmp_by_extension_or_namespace() {
    let x = LightroomXmp;
    assert!(x.detect(b"", Some("xmp")));
    assert!(!x.detect(b"camera-raw-settings xmpmeta", Some("lrtemplate")));
    let head = br#"<x:xmpmeta xmlns:x="adobe:ns:meta/"><rdf:RDF xmlns:crs="http://ns.adobe.com/camera-raw-settings/1.0/">"#;
    assert!(x.detect(head, None));
    assert!(!x.detect(b"<rdf:RDF> no namespace </rdf:RDF>", None));
    assert!(!x.detect(b"camera-raw-settings only", Some("txt")));
    assert_eq!(x.format_name(), "lightroom-xmp");
}

#[test]
fn xmp_reads_element_form_crs_settings() {
    let xmp = r#"<x:xmpmeta xmlns:x="adobe:ns:meta/">
 <rdf:RDF xmlns:rdf="http://www.w3.org/1999/02/22-rdf-syntax-ns#">
  <rdf:Description xmlns:crs="http://ns.adobe.com/camera-raw-settings/1.0/">
   <crs:Exposure2012>0.75</crs:Exposure2012>
   <crs:Contrast2012>20</crs:Contrast2012>
  </rdf:Description>
 </rdf:RDF>
</x:xmpmeta>"#;
    let parsed = read(xmp).expect("element-form crs must import");
    assert_eq!(text(&parsed, "Exposure2012").as_deref(), Some("0.75"));
    assert_eq!(text(&parsed, "Contrast2012").as_deref(), Some("20"));
    assert_eq!(parsed.values.len(), 2);
}

const SAMPLE: &str = r#"<x:xmpmeta xmlns:x="adobe:ns:meta/">
 <rdf:RDF xmlns:rdf="http://www.w3.org/1999/02/22-rdf-syntax-ns#">
  <rdf:Description rdf:about="" xmlns:crs="http://ns.adobe.com/camera-raw-settings/1.0/"
    crs:ProcessVersion="11.0" crs:Exposure2012="+0.50" crs:Contrast2012="+15">
   <crs:Exposure2012>9.99</crs:Exposure2012>
   <crs:Sharpness>  45 </crs:Sharpness>
   <crs:Blank>   </crs:Blank>
   <crs:ToneCurvePV2012>
    <rdf:Seq>
     <rdf:li>0, 0</rdf:li>
     <rdf:li>64, 60</rdf:li>
     <rdf:li>128, 140</rdf:li>
     <rdf:li>not a point</rdf:li>
     <rdf:li>192, 200</rdf:li>
     <rdf:li>255, 255</rdf:li>
    </rdf:Seq>
   </crs:ToneCurvePV2012>
   <crs:ToneCurvePV2012Red>
    <rdf:Seq><rdf:li>0, 10</rdf:li></rdf:Seq>
   </crs:ToneCurvePV2012Red>
  </rdf:Description>
 </rdf:RDF>
</x:xmpmeta>"#;

#[test]
fn xmp_attributes_win_and_curves_keep_points() {
    let s = read(SAMPLE).expect("sample must import");
    assert_eq!(text(&s, "ProcessVersion").as_deref(), Some("11.0"));
    assert_eq!(text(&s, "Exposure2012").as_deref(), Some("+0.50"));
    assert_eq!(text(&s, "Contrast2012").as_deref(), Some("+15"));
    assert_eq!(text(&s, "Sharpness").as_deref(), Some("45"));
    assert_eq!(text(&s, "Blank"), None);
    assert_eq!(text(&s, "ToneCurvePV2012"), None);
    assert_eq!(s.values.len(), 4);
    assert_eq!(s.tone_curve, vec!["0, 0", "64, 60", "128, 140", "192, 200", "255, 255"]);
    assert_eq!(s.tone_curve_red, vec!["0, 10"]);
    assert!(s.tone_curve_green.is_empty());
    assert!(s.tone_curve_blue.is_empty());
}

#[test]
fn xmp_scope_excludes_unrelated_crs_nodes() {
    // crs content outside any crs-bearing Description is not read when such a Description exists.
    let xmp = r#"<root xmlns:crs="http://ns.adobe.com/camera-raw-settings/1.0/" xmlns:rdf="r">
  <other><crs:Texture>30</crs:Texture></other>
  <rdf:Description crs:Exposure2012="1.0"/>
  <rdf:Description note="no crs here"><crs2 /></rdf:Description>
</root>"#;
    let s = read(xmp).unwrap();
    assert_eq!(text(&s, "Exposure2012").as_deref(), Some("1.0"));
    assert_eq!(text(&s, "Texture"), None);
    assert_eq!(s.values.len(), 1);
}

#[test]
fn xmp_falls_back_to_root_element() {
    let xmp = r#"<root xmlns:crs="http://ns.adobe.com/camera-raw-settings/1.0/">
  <group><crs:Texture> 30 </crs:Texture></group>
</root>"#;
    let s = read(xmp).unwrap();
    assert_eq!(text(&s, "Texture").as_deref(), Some("30"));
}

#[test]
fn xmp_without_settings_is_refused() {
    let xmp = r#"<x:xmpmeta xmlns:x="adobe:ns:meta/"><rdf:RDF xmlns:rdf="r"/></x:xmpmeta>"#;
    assert_eq!(malformed(read(xmp)), "no camera-raw-settings found");
    // Only a colour curve, no master curve and no scalar: still nothing usable.
    let only_red = r#"<d xmlns:crs="http://ns.adobe.com/camera-raw-settings/1.0/">
  <crs:ToneCurvePV2012Red><li>0, 10</li></crs:ToneCurvePV2012Red></d>"#;
    assert_eq!(malformed(read(only_red)), "no camera-raw-settings found");
    // A master curve alone is enough.
    let master = r#"<d xmlns:crs="http://ns.adobe.com/camera-raw-settings/1.0/">
  <crs:ToneCurvePV2012><li>0, 10</li></crs:ToneCurvePV2012></d>"#;
    assert_eq!(read(master).unwrap().tone_curve, vec!["0, 10"]);
}

#[test]
fn xmp_rejects_bad_utf8_and_bad_xml() {
    let bad_utf8 = LightroomXmp.read_settings(b"<a>\xff</a>");
    let m = malformed(bad_utf8);
    assert!(m.contains("utf-8"), "{m}");
    let bad_xml = malformed(read("<a><b></a>"));
    assert!(!bad_xml.is_empty());
    assert_ne!(bad_xml, "no camera-raw-settings found");
}

fn element(parent: usize, ns: Option<&str>, name: &str, text: Option<&str>, attrs: Vec<XmlAttr>) -> XmlNode {
    XmlNode {
        parent: Some(parent),
        is_element: true,
        namespace: ns.map(str::to_owned),
        name: name.to_owned(),
        attributes: attrs,
        text: text.map(str::to_owned),
    }
}

const CRS: &str = "http://ns.adobe.com/camera-raw-settings/1.0/";

#[test]
fn scan_and_scope_helpers_on_a_node_list() {
    let doc = XmlNode {
        parent: None,
        is_element: false,
        namespace: None,
        name: String::new(),
        attributes: vec![],
        text: None,
    };
    let crs_attr = XmlAttr { namespace: Some(CRS.to_owned()), name: "Exposure2012".to_owned(), value: "0.5".to_owned() };
    let nodes = vec![
        doc,
        element(0, Some("adobe:ns:meta/"), "xmpmeta", None, vec![]),
        element(1, Some("rdf"), "Description", None, vec![crs_attr]),
        element(2, Some(CRS), "Exposure2012", Some(" 9 "), vec![]),
        element(2, Some(CRS), "Shadows2012", Some(" -10 "), vec![]),
        element(2, Some(CRS), "ToneCurvePV2012", None, vec![]),
        element(5, Some("rdf"), "li", Some("0, 0"), vec![]),
        element(5, Some("rdf"), "li", Some("255, 250"), vec![]),
        element(1, Some(CRS), "Texture", Some("40"), vec![]),
    ];
    assert!(has_crs_content(&nodes, 2));
    assert!(has_crs_content(&nodes, 1));
    assert!(!has_crs_content(&nodes, 6));
    assert_eq!(crs_scopes(&nodes), vec![2]);
    assert_eq!(li_points_of(&nodes, 5), vec!["0, 0", "255, 250"]);
    let s = scan_crs(&nodes).unwrap();
    assert_eq!(text(&s, "Exposure2012").as_deref(), Some("0.5"));
    assert_eq!(text(&s, "Shadows2012").as_deref(), Some("-10"));
    assert_eq!(text(&s, "Texture"), None);
    assert_eq!(s.tone_curve, vec!["0, 0", "255, 250"]);
    // Without a crs-bearing Description, the root element is the scope.
    let mut flat = nodes;
    flat[2].name = "Other".to_owned();
    assert_eq!(crs_scopes(&flat), vec![1]);
    let s2 = scan_crs(&flat).unwrap();
    assert_eq!(text(&s2, "Texture").as_deref(), Some("40"));
    assert_eq!(text(&s2, "Exposure2012").as_deref(), Some("9"));
}

#[test]
fn xmp_first_scope_keeps_its_value() {
    // Two crs-bearing Descriptions set the same key: the first one read keeps it.
    let xmp = r#"<x:xmpmeta xmlns:x="adobe:ns:meta/">
 <rdf:RDF xmlns:rdf="http://www.w3.org/1999/02/22-rdf-syntax-ns#" xmlns:crs="http://ns.adobe.com/camera-raw-settings/1.0/">
  <rdf:Description crs:Exposure2012="+1.00"/>
  <rdf:Description crs:Exposure2012="-2.00" crs:Shadows2012="+5"><crs:ToneCurvePV2012><rdf:Seq><rdf:li>10, 20</rdf:li></rdf:Seq></crs:ToneCurvePV2012></rdf:Description>
 </rdf:RDF>
</x:xmpmeta>"#;
    let s = read(xmp).unwrap();
    assert_eq!(text(&s, "Exposure2012").as_deref(), Some("+1.00"));
    assert_eq!(text(&s, "Shadows2012").as_deref(), Some("+5"));
    assert_eq!(s.tone_curve, vec!["10, 20"]);
}
