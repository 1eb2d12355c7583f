//! Lightroom / Adobe Camera Raw `.xmp` importer front end: recognizing an `.xmp` preset by its
//! extension or by the Camera Raw Settings namespace in its head, and reading its Camera Raw
//! Settings (`crs:` attributes and elements, and the four tone curves) out of the XML tree.
//!
//! The settings are read from each `Description` element that carries crs content (or, when there
//! is none, from the root element), in document order: first its crs attributes, then every crs
//! element below it. A scalar setting keeps the first value seen; a tone curve the last one.

use vstd::prelude::*;

use crate::crs::{ext_eq, ext_matches, head_chars, head_of, values_view, strings_view, CrsSettings, Setting, SettingValue, SettingsView};
use crate::preset_error::PresetError;
use crate::text::{chars_of, contains_chars, seq_contains, is_xy_text, is_xy_text_chars, trim_chars, trim_string, utf8_error_text, utf8_text};
use crate::xml::{attrs_view, in_subtree, is_in_subtree, nodes_view, opt_text, parse_xml, xml_nodes, AttrView, NodeView, XmlNode};

verus! {

/// The `.xmp` importer.
pub struct LightroomXmp;

/// The head of an `.xmp` preset names the Camera Raw Settings namespace and looks like XMP/RDF.
pub open spec fn xmp_head(h: Seq<char>) -> bool {
    &&& seq_contains(h, "camera-raw-settings"@)
    &&& (seq_contains(h, "xmpmeta"@) || seq_contains(h, "rdf:RDF"@) || seq_contains(h, "<rdf"@))
}

/// Whether a file is taken for an `.xmp` preset: by extension, or else by its first 8192 bytes.
pub open spec fn xmp_detected(bytes: Seq<u8>, ext: Option<&str>) -> bool {
    if ext_matches(ext, "xmp") {
        true
    } else if ext_matches(ext, "lrtemplate") {
        false
    } else {
        xmp_head(head_chars(bytes, 8192))
    }
}

impl LightroomXmp {
    /// The format's name in import reports.
    pub fn format_name(&self) -> (r: &'static str)
        ensures
            r@ == "lightroom-xmp"@,
    {
        "lightroom-xmp"
    }

    /// Whether a file, given its bytes and its extension (if any), is an `.xmp` preset.
    pub fn detect(&self, bytes: &[u8], ext: Option<&str>) -> (r: bool)
        ensures
            r == xmp_detected(bytes@, ext),
    {
        if ext_eq(ext, "xmp") {
            return true;
        }
        if ext_eq(ext, "lrtemplate") {
            return false;
        }
        let head = head_of(bytes, 8192);
        let h = head.as_slice();
        let crs = chars_of("camera-raw-settings");
        let meta = chars_of("xmpmeta");
        let rdf = chars_of("rdf:RDF");
        let lt_rdf = chars_of("<rdf");
        contains_chars(h, crs.as_slice()) && (contains_chars(h, meta.as_slice()) || contains_chars(
            h,
            rdf.as_slice(),
        ) || contains_chars(h, lt_rdf.as_slice()))
    }
}


// ── What an `.xmp` preset means ───────────────────────────────────────────────────────────────

/// The Camera Raw Settings namespace URI.
pub open spec fn crs_namespace() -> Seq<char> {
    "http://ns.adobe.com/camera-raw-settings/1.0/"@
}

/// A namespace is the Camera Raw Settings one.
pub open spec fn is_crs(ns: Option<Seq<char>>) -> bool {
    ns == Some(crs_namespace())
}

/// A node is an element in the crs namespace.
pub open spec fn crs_element(n: NodeView) -> bool {
    n.is_element && is_crs(n.namespace)
}

/// Node `i` carries crs content: a crs attribute, or a crs element in its subtree (itself included).
pub open spec fn has_crs(nodes: Seq<NodeView>, i: int) -> bool {
    ||| exists|a: int| 0 <= a < nodes[i].attributes.len() && is_crs(#[trigger] nodes[i].attributes[a].namespace)
    ||| exists|j: int| 0 <= j < nodes.len() && in_subtree(nodes, j, i) && crs_element(#[trigger] nodes[j])
}

/// Node `j` is a `Description` element carrying crs content.
pub open spec fn is_scope(nodes: Seq<NodeView>, j: int) -> bool {
    nodes[j].is_element && nodes[j].name == "Description"@ && has_crs(nodes, j)
}

/// The positions below `m` of the nodes that are scopes, in document order.
pub open spec fn scope_list(nodes: Seq<NodeView>, m: nat) -> Seq<int>
    decreases m,
{
    if m == 0 {
        Seq::empty()
    } else {
        let p = scope_list(nodes, (m - 1) as nat);
        if is_scope(nodes, m - 1) {
            p.push(m - 1)
        } else {
            p
        }
    }
}

/// The first element at or after `j` whose parent is the document node (`root_element`).
pub open spec fn root_element_from(nodes: Seq<NodeView>, j: int) -> Option<int>
    decreases nodes.len() - j,
{
    if 0 <= j < nodes.len() {
        if nodes[j].is_element && nodes[j].parent == Some(0usize) {
            Some(j)
        } else {
            root_element_from(nodes, j + 1)
        }
    } else {
        None
    }
}

/// The nodes the settings are read from: the crs-bearing `Description` elements, or else the root
/// element.
pub open spec fn scopes(nodes: Seq<NodeView>) -> Seq<int> {
    let s = scope_list(nodes, nodes.len());
    if s.len() > 0 {
        s
    } else {
        match root_element_from(nodes, 0) {
            Some(r) => seq![r],
            None => Seq::empty(),
        }
    }
}

/// Adds a text setting unless the key is already set.
pub open spec fn first_wins(m: Map<Seq<char>, Setting>, k: Seq<char>, v: Seq<char>) -> Map<Seq<char>, Setting> {
    if m.dom().contains(k) {
        m
    } else {
        m.insert(k, Setting::Text(v))
    }
}

/// The settings after reading the crs attributes among `attrs`, in order.
pub open spec fn attr_scan(acc: SettingsView, attrs: Seq<AttrView>) -> SettingsView
    decreases attrs.len(),
{
    if attrs.len() == 0 {
        acc
    } else {
        let a = attr_scan(acc, attrs.drop_last());
        let x = attrs.last();
        if is_crs(x.namespace) {
            SettingsView { values: first_wins(a.values, x.name, x.value), ..a }
        } else {
            a
        }
    }
}

/// The control points of the curve element `e`: the texts of the `li` elements below it (among the
/// first `m` nodes) that read as `"x, y"`, in document order.
pub open spec fn li_points(nodes: Seq<NodeView>, e: int, m: nat) -> Seq<Seq<char>>
    decreases m,
{
    if m == 0 {
        Seq::empty()
    } else {
        let p = li_points(nodes, e, (m - 1) as nat);
        let j = m - 1;
        match nodes[j].text {
            Some(t) => if in_subtree(nodes, j, e) && nodes[j].is_element && nodes[j].name == "li"@
                && is_xy_text(t) {
                p.push(t)
            } else {
                p
            },
            None => p,
        }
    }
}

/// The settings after reading node `j`: a crs tone-curve element replaces that curve; any other crs
/// element with non-blank text sets its name to the trimmed text, unless already set.
pub open spec fn element_scan(acc: SettingsView, nodes: Seq<NodeView>, j: int) -> SettingsView {
    let n = nodes[j];
    if !crs_element(n) {
        acc
    } else if n.name == "ToneCurvePV2012"@ {
        SettingsView { tone_curve: li_points(nodes, j, nodes.len()), ..acc }
    } else if n.name == "ToneCurvePV2012Red"@ {
        SettingsView { tone_curve_red: li_points(nodes, j, nodes.len()), ..acc }
    } else if n.name == "ToneCurvePV2012Green"@ {
        SettingsView { tone_curve_green: li_points(nodes, j, nodes.len()), ..acc }
    } else if n.name == "ToneCurvePV2012Blue"@ {
        SettingsView { tone_curve_blue: li_points(nodes, j, nodes.len()), ..acc }
    } else {
        match n.text {
            Some(t) => if trim_chars(t).len() > 0 {
                SettingsView { values: first_wins(acc.values, n.name, trim_chars(t)), ..acc }
            } else {
                acc
            },
            None => acc,
        }
    }
}

/// The settings after reading, in document order, the nodes below `m` that lie in the subtree of `s`.
pub open spec fn subtree_scan(acc: SettingsView, nodes: Seq<NodeView>, s: int, m: nat) -> SettingsView
    decreases m,
{
    if m == 0 {
        acc
    } else {
        let a = subtree_scan(acc, nodes, s, (m - 1) as nat);
        if in_subtree(nodes, m - 1, s) {
            element_scan(a, nodes, m - 1)
        } else {
            a
        }
    }
}

/// The settings after reading one scope: its crs attributes, then its subtree.
pub open spec fn scope_scan(acc: SettingsView, nodes: Seq<NodeView>, s: int) -> SettingsView {
    subtree_scan(attr_scan(acc, nodes[s].attributes), nodes, s, nodes.len())
}

/// The settings after reading the scopes `sc` in order.
pub open spec fn scopes_scan(acc: SettingsView, nodes: Seq<NodeView>, sc: Seq<int>) -> SettingsView
    decreases sc.len(),
{
    if sc.len() == 0 {
        acc
    } else {
        scope_scan(scopes_scan(acc, nodes, sc.drop_last()), nodes, sc.last())
    }
}

/// No settings at all.
pub open spec fn no_settings() -> SettingsView {
    SettingsView {
        values: Map::empty(),
        tone_curve: Seq::empty(),
        tone_curve_red: Seq::empty(),
        tone_curve_green: Seq::empty(),
        tone_curve_blue: Seq::empty(),
    }
}

/// What the nodes of an `.xmp` document yield: its settings, unless it sets no scalar and no master
/// tone-curve point.
pub open spec fn xmp_settings(nodes: Seq<NodeView>) -> Result<SettingsView, Seq<char>> {
    let v = scopes_scan(no_settings(), nodes, scopes(nodes));
    if v.values == Map::<Seq<char>, Setting>::empty() && v.tone_curve.len() == 0 {
        Err("no camera-raw-settings found"@)
    } else {
        Ok(v)
    }
}

/// What reading an `.xmp` file yields: its settings, or the text of the error (not UTF-8, not XML,
/// or no settings).
pub open spec fn xmp_outcome(bytes: Seq<u8>) -> Result<SettingsView, Seq<char>> {
    if !vstd::utf8::valid_utf8(bytes) {
        Err(utf8_error_text(bytes))
    } else {
        match xml_nodes(vstd::utf8::decode_utf8(bytes)) {
            Err(m) => Err(m),
            Ok(nodes) => xmp_settings(nodes),
        }
    }
}

// ── Reading the settings ──────────────────────────────────────────────────────────────────────

/// Whether a namespace is the Camera Raw Settings one, given that URI as `crs`.
fn is_crs_ns(ns: &Option<String>, crs: &String) -> (r: bool)
    requires
        crs@ == crs_namespace(),
    ensures
        r == is_crs(opt_text(*ns)),
{
    match ns {
        Some(x) => *x == *crs,
        None => false,
    }
}

/// The keys of a list of settings are those of its view.
proof fn lemma_values_view_dom(v: Seq<(String, SettingValue)>, k: Seq<char>)
    ensures
        values_view(v).dom().contains(k) <==> exists|i: int| 0 <= i < v.len() && (#[trigger] v[i]).0@ == k,
    decreases v.len(),
{
    if v.len() > 0 {
        let w = v.drop_last();
        lemma_values_view_dom(w, k);
        if exists|i: int| 0 <= i < w.len() && (#[trigger] w[i]).0@ == k {
            let i = choose|i: int| 0 <= i < w.len() && (#[trigger] w[i]).0@ == k;
            assert(v[i] == w[i]);
        }
        if exists|i: int| 0 <= i < v.len() && (#[trigger] v[i]).0@ == k {
            let i = choose|i: int| 0 <= i < v.len() && (#[trigger] v[i]).0@ == k;
            if i < v.len() - 1 {
                assert(w[i] == v[i]);
            }
        }
    }
}

/// Sets `k` to the text `v`, unless `k` is already set.
fn add_first(values: &mut Vec<(String, SettingValue)>, k: &String, v: String)
    ensures
        values_view(final(values)@) == first_wins(values_view(old(values)@), k@, v@),
{
    let mut i: usize = 0;
    while i < values.len()
        invariant
            i <= values@.len(),
            forall|j: int| 0 <= j < i ==> (#[trigger] values@[j]).0@ != k@,
        decreases values@.len() - i,
    {
        if values[i].0 == *k {
            proof {
                lemma_values_view_dom(values@, k@);
            }
            return;
        }
        i = i + 1;
    }
    proof {
        lemma_values_view_dom(values@, k@);
    }
    let ghost before = values@;
    values.push((k.clone(), SettingValue::Text(v)));
    assert(values@.drop_last() =~= before);
}

/// Decides [`has_crs`] for node `i`.
pub fn has_crs_content(nodes: &Vec<XmlNode>, i: usize) -> (r: bool)
    requires
        i < nodes@.len(),
    ensures
        r == has_crs(nodes_view(nodes@), i as int),
{
    let ghost nv = nodes_view(nodes@);
    let crs = "http://ns.adobe.com/camera-raw-settings/1.0/".to_owned();
    let attrs = &nodes[i].attributes;
    assert(nv[i as int].attributes == attrs_view(attrs@));
    let mut a: usize = 0;
    while a < attrs.len()
        invariant
            a <= attrs@.len(),
            i < nodes@.len(),
            nv == nodes_view(nodes@),
            crs@ == crs_namespace(),
            nv[i as int].attributes == attrs_view(attrs@),
            forall|b: int| 0 <= b < a ==> !is_crs(#[trigger] nv[i as int].attributes[b].namespace),
        decreases attrs@.len() - a,
    {
        if is_crs_ns(&attrs[a].namespace, &crs) {
            assert(is_crs(nv[i as int].attributes[a as int].namespace));
            return true;
        }
        a = a + 1;
    }
    let mut j: usize = 0;
    while j < nodes.len()
        invariant
            j <= nodes@.len(),
            i < nodes@.len(),
            nv == nodes_view(nodes@),
            crs@ == crs_namespace(),
            forall|b: int| 0 <= b < nv[i as int].attributes.len() ==> !is_crs(#[trigger] nv[i as int].attributes[b].namespace),
            forall|q: int| 0 <= q < j ==> !(in_subtree(nv, q, i as int) && crs_element(#[trigger] nv[q])),
        decreases nodes@.len() - j,
    {
        if is_in_subtree(nodes, j, i) && nodes[j].is_element && is_crs_ns(&nodes[j].namespace, &crs) {
            assert(crs_element(nv[j as int]));
            return true;
        }
        j = j + 1;
    }
    false
}

/// The scopes of a document ([`scopes`]), as positions.
pub fn crs_scopes(nodes: &Vec<XmlNode>) -> (r: Vec<usize>)
    ensures
        r@.len() == scopes(nodes_view(nodes@)).len(),
        forall|k: int| 0 <= k < r@.len() ==> r@[k] as int == #[trigger] scopes(nodes_view(nodes@))[k],
        forall|k: int| 0 <= k < r@.len() ==> #[trigger] r@[k] < nodes@.len(),
{
    let ghost nv = nodes_view(nodes@);
    let desc = "Description".to_owned();
    let mut out: Vec<usize> = Vec::new();
    let mut j: usize = 0;
    while j < nodes.len()
        invariant
            j <= nodes@.len(),
            nv == nodes_view(nodes@),
            desc@ == "Description"@,
            out@.len() == scope_list(nv, j as nat).len(),
            forall|k: int| 0 <= k < out@.len() ==> out@[k] as int == #[trigger] scope_list(nv, j as nat)[k],
            forall|k: int| 0 <= k < out@.len() ==> #[trigger] out@[k] < j,
        decreases nodes@.len() - j,
    {
        if nodes[j].is_element && nodes[j].name == desc && has_crs_content(nodes, j) {
            out.push(j);
        }
        j = j + 1;
    }
    if out.len() > 0 {
        return out;
    }
    let mut k: usize = 0;
    while k < nodes.len()
        invariant
            k <= nodes@.len(),
            nv == nodes_view(nodes@),
            scope_list(nv, nv.len()).len() == 0,
            root_element_from(nv, k as int) == root_element_from(nv, 0),
        decreases nodes@.len() - k,
    {
        if nodes[k].is_element && nodes[k].parent == Some(0usize) {
            let mut v: Vec<usize> = Vec::new();
            v.push(k);
            return v;
        }
        k = k + 1;
    }
    out
}

/// The control points of the curve element `e` ([`li_points`]).
pub fn li_points_of(nodes: &Vec<XmlNode>, e: usize) -> (r: Vec<String>)
    ensures
        strings_view(r@) == li_points(nodes_view(nodes@), e as int, nodes@.len()),
{
    let ghost nv = nodes_view(nodes@);
    let li = "li".to_owned();
    let mut out: Vec<String> = Vec::new();
    let mut j: usize = 0;
    while j < nodes.len()
        invariant
            j <= nodes@.len(),
            nv == nodes_view(nodes@),
            li@ == "li"@,
            strings_view(out@) == li_points(nv, e as int, j as nat),
        decreases nodes@.len() - j,
    {
        let ghost before = out@;
        if let Some(t) = &nodes[j].text {
            if is_in_subtree(nodes, j, e) && nodes[j].is_element && nodes[j].name == li {
                let cs = chars_of(t.as_str());
                if is_xy_text_chars(cs.as_slice()) {
                    out.push(t.clone());
                    assert(strings_view(out@) =~= strings_view(before).push(t@));
                }
            }
        }
        j = j + 1;
    }
    out
}

/// Reads node `j` into the settings ([`element_scan`]).
fn scan_element(nodes: &Vec<XmlNode>, j: usize, crs: &String, out: &mut CrsSettings)
    requires
        j < nodes@.len(),
        crs@ == crs_namespace(),
    ensures
        final(out).view() == element_scan(old(out).view(), nodes_view(nodes@), j as int),
{
    let ghost nv = nodes_view(nodes@);
    let n = &nodes[j];
    assert(nv[j as int] == n.view());
    if !(n.is_element && is_crs_ns(&n.namespace, crs)) {
        return;
    }
    if n.name == "ToneCurvePV2012".to_owned() {
        out.tone_curve = li_points_of(nodes, j);
    } else if n.name == "ToneCurvePV2012Red".to_owned() {
        out.tone_curve_red = li_points_of(nodes, j);
    } else if n.name == "ToneCurvePV2012Green".to_owned() {
        out.tone_curve_green = li_points_of(nodes, j);
    } else if n.name == "ToneCurvePV2012Blue".to_owned() {
        out.tone_curve_blue = li_points_of(nodes, j);
    } else if let Some(t) = &n.text {
        let v = trim_string(t.as_str());
        if !v.as_str().is_empty() {
            add_first(&mut out.values, &n.name, v);
        }
    }
}

/// Reads one scope into the settings ([`scope_scan`]).
fn scan_scope(nodes: &Vec<XmlNode>, s: usize, crs: &String, out: &mut CrsSettings)
    requires
        s < nodes@.len(),
        crs@ == crs_namespace(),
    ensures
        final(out).view() == scope_scan(old(out).view(), nodes_view(nodes@), s as int),
{
    let ghost nv = nodes_view(nodes@);
    let ghost start = out.view();
    let attrs = &nodes[s].attributes;
    let ghost av = attrs_view(attrs@);
    assert(nv[s as int].attributes == av);
    let mut a: usize = 0;
    assert(av.take(0) =~= Seq::<AttrView>::empty());
    while a < attrs.len()
        invariant
            a <= attrs@.len(),
            av == attrs_view(attrs@),
            crs@ == crs_namespace(),
            out.view() == attr_scan(start, av.take(a as int)),
        decreases attrs@.len() - a,
    {
        assert(av.take(a + 1).drop_last() =~= av.take(a as int));
        assert(av.take(a + 1).last() == attrs@[a as int].view());
        if is_crs_ns(&attrs[a].namespace, crs) {
            add_first(&mut out.values, &attrs[a].name, attrs[a].value.clone());
        }
        assert(out.view() =~= attr_scan(start, av.take(a + 1)));
        a = a + 1;
    }
    assert(av.take(attrs@.len() as int) =~= av);
    let ghost mid = out.view();
    let mut j: usize = 0;
    while j < nodes.len()
        invariant
            j <= nodes@.len(),
            s < nodes@.len(),
            nv == nodes_view(nodes@),
            crs@ == crs_namespace(),
            out.view() == subtree_scan(mid, nv, s as int, j as nat),
        decreases nodes@.len() - j,
    {
        if is_in_subtree(nodes, j, s) {
            scan_element(nodes, j, crs, out);
        }
        j = j + 1;
    }
}

/// The settings an `.xmp` document's nodes carry ([`xmp_settings`]): the scopes are read in order
/// into empty settings; a document that sets no scalar and no master tone-curve point is refused.
pub fn scan_crs(nodes: &Vec<XmlNode>) -> (r: Result<CrsSettings, PresetError>)
    ensures
        match xmp_settings(nodes_view(nodes@)) {
            Ok(v) => r matches Ok(st) && st.view() == v,
            Err(m) => r matches Err(PresetError::Malformed(x)) && x@ == m,
        },
{
    let ghost nv = nodes_view(nodes@);
    let crs = "http://ns.adobe.com/camera-raw-settings/1.0/".to_owned();
    let sc = crs_scopes(nodes);
    let ghost scs = scopes(nv);
    let mut out = CrsSettings {
        values: Vec::new(),
        tone_curve: Vec::new(),
        tone_curve_red: Vec::new(),
        tone_curve_green: Vec::new(),
        tone_curve_blue: Vec::new(),
    };
    assert(strings_view(Seq::<String>::empty()) =~= Seq::empty());
    assert(out.view() =~= no_settings());
    let mut k: usize = 0;
    assert(scs.take(0) =~= Seq::<int>::empty());
    while k < sc.len()
        invariant
            k <= sc@.len(),
            nv == nodes_view(nodes@),
            scs == scopes(nv),
            crs@ == crs_namespace(),
            sc@.len() == scs.len(),
            forall|q: int| 0 <= q < sc@.len() ==> sc@[q] as int == #[trigger] scs[q],
            forall|q: int| 0 <= q < sc@.len() ==> #[trigger] sc@[q] < nodes@.len(),
            out.view() == scopes_scan(no_settings(), nv, scs.take(k as int)),
        decreases sc@.len() - k,
    {
        assert(scs.take(k + 1).drop_last() =~= scs.take(k as int));
        assert(scs.take(k + 1).last() == sc@[k as int] as int);
        scan_scope(nodes, sc[k], &crs, &mut out);
        k = k + 1;
    }
    assert(scs.take(sc@.len() as int) =~= scs);
    if out.values.len() == 0 && out.tone_curve.len() == 0 {
        assert(values_view(out.values@) =~= Map::empty());
        return Err(PresetError::Malformed("no camera-raw-settings found".to_owned()));
    }
    proof {
        if out.values.len() > 0 {
            let v = out.values@;
            assert(values_view(v).dom().contains(v.last().0@));
        }
    }
    Ok(out)
}

impl LightroomXmp {
    /// Reads the Camera Raw Settings of an `.xmp` file: the bytes must be UTF-8 and the text XML,
    /// and the document must set at least one scalar or master tone-curve point.
    pub fn read_settings(&self, bytes: &[u8]) -> (r: Result<CrsSettings, PresetError>)
        ensures
            match xmp_outcome(bytes@) {
                Ok(v) => r matches Ok(st) && st.view() == v,
                Err(m) => r matches Err(PresetError::Malformed(x)) && x@ == m,
            },
    {
        let text = match utf8_text(bytes) {
            Ok(t) => t,
            Err(m) => {
                return Err(PresetError::Malformed(m));
            },
        };
        let nodes = match parse_xml(text.as_str()) {
            Ok(n) => n,
            Err(m) => {
                return Err(PresetError::Malformed(m));
            },
        };
        scan_crs(&nodes)
    }
}

// ── What the scan keeps ───────────────────────────────────────────────────────────────────────

/// Reading one node never changes a setting that is already set.
proof fn lemma_element_keeps(acc: SettingsView, nodes: Seq<NodeView>, j: int, k: Seq<char>)
    requires
        acc.values.dom().contains(k),
    ensures
        element_scan(acc, nodes, j).values.dom().contains(k),
        element_scan(acc, nodes, j).values[k] == acc.values[k],
{
}

/// Reading a subtree never changes a setting that is already set.
proof fn lemma_subtree_keeps(acc: SettingsView, nodes: Seq<NodeView>, s: int, m: nat, k: Seq<char>)
    requires
        acc.values.dom().contains(k),
    ensures
        subtree_scan(acc, nodes, s, m).values.dom().contains(k),
        subtree_scan(acc, nodes, s, m).values[k] == acc.values[k],
    decreases m,
{
    if m > 0 {
        lemma_subtree_keeps(acc, nodes, s, (m - 1) as nat, k);
        let a = subtree_scan(acc, nodes, s, (m - 1) as nat);
        if in_subtree(nodes, m - 1, s) {
            lemma_element_keeps(a, nodes, m - 1, k);
        }
    }
}

/// Reading attributes never changes a setting that is already set.
proof fn lemma_attrs_keep(acc: SettingsView, attrs: Seq<AttrView>, k: Seq<char>)
    requires
        acc.values.dom().contains(k),
    ensures
        attr_scan(acc, attrs).values.dom().contains(k),
        attr_scan(acc, attrs).values[k] == acc.values[k],
    decreases attrs.len(),
{
    if attrs.len() > 0 {
        lemma_attrs_keep(acc, attrs.drop_last(), k);
    }
}

/// A key set by reading attributes was set before or is the name of one of their crs attributes.
proof fn lemma_attrs_source(acc: SettingsView, attrs: Seq<AttrView>, k: Seq<char>)
    requires
        attr_scan(acc, attrs).values.dom().contains(k),
    ensures
        acc.values.dom().contains(k) || exists|j: int| 0 <= j < attrs.len() && is_crs(attrs[j].namespace) && #[trigger] attrs[j].name == k,
    decreases attrs.len(),
{
    if attrs.len() > 0 {
        let w = attrs.drop_last();
        let a = attr_scan(acc, w);
        if a.values.dom().contains(k) {
            lemma_attrs_source(acc, w, k);
            if !acc.values.dom().contains(k) {
                let j = choose|j: int| 0 <= j < w.len() && is_crs(w[j].namespace) && #[trigger] w[j].name == k;
                assert(attrs[j] == w[j]);
            }
        } else {
            assert(attrs[attrs.len() - 1].name == k);
        }
    }
}

/// Reading attributes sets a key that was unset to the value of its first crs attribute.
proof fn lemma_attrs_first(acc: SettingsView, attrs: Seq<AttrView>, f: int, k: Seq<char>)
    requires
        !acc.values.dom().contains(k),
        0 <= f < attrs.len(),
        is_crs(attrs[f].namespace),
        attrs[f].name == k,
        forall|j: int| 0 <= j < f ==> !(is_crs(attrs[j].namespace) && #[trigger] attrs[j].name == k),
    ensures
        attr_scan(acc, attrs).values.dom().contains(k),
        attr_scan(acc, attrs).values[k] == Setting::Text(attrs[f].value),
    decreases attrs.len(),
{
    let w = attrs.drop_last();
    let a = attr_scan(acc, w);
    if f == attrs.len() - 1 {
        if a.values.dom().contains(k) {
            lemma_attrs_source(acc, w, k);
            let j = choose|j: int| 0 <= j < w.len() && is_crs(w[j].namespace) && #[trigger] w[j].name == k;
            assert(attrs[j] == w[j]);
        }
    } else {
        assert forall|j: int| 0 <= j < f implies !(is_crs(w[j].namespace) && #[trigger] w[j].name == k) by {
            assert(attrs[j] == w[j]);
        }
        lemma_attrs_first(acc, w, f, k);
    }
}

/// Each tone curve is read from the crs element of its own name and from no other node: reading a
/// crs element named `ToneCurvePV2012`, `ToneCurvePV2012Red`, `ToneCurvePV2012Green` or
/// `ToneCurvePV2012Blue` sets that one curve to the points listed below the element and leaves the
/// other curves and the scalar settings as they were; reading a node that is not the crs element
/// of a curve's name leaves that curve as it was.
pub proof fn law_curve_elements(acc: SettingsView, nodes: Seq<NodeView>, j: int)
    requires
        0 <= j < nodes.len(),
    ensures
        ({
            let n = nodes[j];
            let r = element_scan(acc, nodes, j);
            let pts = li_points(nodes, j, nodes.len());
            &&& crs_element(n) && n.name == "ToneCurvePV2012"@ ==> r.tone_curve == pts && r.tone_curve_red
                == acc.tone_curve_red && r.tone_curve_green == acc.tone_curve_green && r.tone_curve_blue
                == acc.tone_curve_blue && r.values == acc.values
            &&& crs_element(n) && n.name == "ToneCurvePV2012Red"@ ==> r.tone_curve_red == pts && r.tone_curve
                == acc.tone_curve && r.tone_curve_green == acc.tone_curve_green && r.tone_curve_blue
                == acc.tone_curve_blue && r.values == acc.values
            &&& crs_element(n) && n.name == "ToneCurvePV2012Green"@ ==> r.tone_curve_green == pts && r.tone_curve
                == acc.tone_curve && r.tone_curve_red == acc.tone_curve_red && r.tone_curve_blue
                == acc.tone_curve_blue && r.values == acc.values
            &&& crs_element(n) && n.name == "ToneCurvePV2012Blue"@ ==> r.tone_curve_blue == pts && r.tone_curve
                == acc.tone_curve && r.tone_curve_red == acc.tone_curve_red && r.tone_curve_green
                == acc.tone_curve_green && r.values == acc.values
            &&& !(crs_element(n) && n.name == "ToneCurvePV2012"@) ==> r.tone_curve == acc.tone_curve
            &&& !(crs_element(n) && n.name == "ToneCurvePV2012Red"@) ==> r.tone_curve_red == acc.tone_curve_red
            &&& !(crs_element(n) && n.name == "ToneCurvePV2012Green"@) ==> r.tone_curve_green == acc.tone_curve_green
            &&& !(crs_element(n) && n.name == "ToneCurvePV2012Blue"@) ==> r.tone_curve_blue == acc.tone_curve_blue
        }),
{
    reveal_strlit("ToneCurvePV2012");
    reveal_strlit("ToneCurvePV2012Red");
    reveal_strlit("ToneCurvePV2012Green");
    reveal_strlit("ToneCurvePV2012Blue");
    assert("ToneCurvePV2012"@.len() == 15 && "ToneCurvePV2012Red"@.len() == 18);
    assert("ToneCurvePV2012Green"@.len() == 20 && "ToneCurvePV2012Blue"@.len() == 19);
}

/// Within one scope the attribute form wins: a setting not yet set that the scope's first crs
/// attribute named `k` gives is read from that attribute, whatever crs elements below say.
pub proof fn law_attribute_wins(acc: SettingsView, nodes: Seq<NodeView>, s: int, f: int, k: Seq<char>)
    requires
        0 <= s < nodes.len(),
        !acc.values.dom().contains(k),
        0 <= f < nodes[s].attributes.len(),
        is_crs(nodes[s].attributes[f].namespace),
        nodes[s].attributes[f].name == k,
        forall|j: int|
            0 <= j < f ==> !(is_crs(nodes[s].attributes[j].namespace) && #[trigger] nodes[s].attributes[j].name == k),
    ensures
        scope_scan(acc, nodes, s).values.dom().contains(k),
        scope_scan(acc, nodes, s).values[k] == Setting::Text(nodes[s].attributes[f].value),
{
    let attrs = nodes[s].attributes;
    lemma_attrs_first(acc, attrs, f, k);
    lemma_subtree_keeps(attr_scan(acc, attrs), nodes, s, nodes.len(), k);
}

/// A setting keeps the first value it is given: reading further scopes never changes it.
pub proof fn law_first_value_kept(acc: SettingsView, nodes: Seq<NodeView>, sc: Seq<int>, k: Seq<char>)
    requires
        acc.values.dom().contains(k),
    ensures
        scopes_scan(acc, nodes, sc).values.dom().contains(k),
        scopes_scan(acc, nodes, sc).values[k] == acc.values[k],
    decreases sc.len(),
{
    if sc.len() > 0 {
        law_first_value_kept(acc, nodes, sc.drop_last(), k);
        let a = scopes_scan(acc, nodes, sc.drop_last());
        let s = sc.last();
        lemma_attrs_keep(a, nodes[s].attributes, k);
        lemma_subtree_keeps(attr_scan(a, nodes[s].attributes), nodes, s, nodes.len(), k);
    }
}

/// Scope `s` names the setting `k`: in a crs attribute of its own, or as a crs element in its subtree.
pub open spec fn names_setting(nodes: Seq<NodeView>, s: int, k: Seq<char>) -> bool {
    ||| exists|a: int|
        0 <= a < nodes[s].attributes.len() && is_crs(nodes[s].attributes[a].namespace) && #[trigger] nodes[s].attributes[a].name
            == k
    ||| exists|j: int| 0 <= j < nodes.len() && in_subtree(nodes, j, s) && crs_element(nodes[j]) && #[trigger] nodes[j].name == k
}

/// A key set by reading a subtree was set before or names a crs element in it.
proof fn lemma_subtree_source(acc: SettingsView, nodes: Seq<NodeView>, s: int, m: nat, k: Seq<char>)
    requires
        m <= nodes.len(),
        subtree_scan(acc, nodes, s, m).values.dom().contains(k),
    ensures
        acc.values.dom().contains(k) || exists|j: int|
            0 <= j < m && in_subtree(nodes, j, s) && crs_element(nodes[j]) && #[trigger] nodes[j].name == k,
    decreases m,
{
    if m > 0 {
        let a = subtree_scan(acc, nodes, s, (m - 1) as nat);
        if a.values.dom().contains(k) {
            lemma_subtree_source(acc, nodes, s, (m - 1) as nat, k);
        } else {
            assert(nodes[m - 1].name == k);
        }
    }
}

/// The scopes' settings are only ever named by the scopes: every key read names a crs attribute of
/// some scope or a crs element below it, so crs content elsewhere in the document never leaks in.
pub proof fn law_settings_from_scopes(acc: SettingsView, nodes: Seq<NodeView>, sc: Seq<int>, k: Seq<char>)
    requires
        forall|q: int| 0 <= q < sc.len() ==> 0 <= #[trigger] sc[q] < nodes.len(),
        scopes_scan(acc, nodes, sc).values.dom().contains(k),
    ensures
        acc.values.dom().contains(k) || exists|q: int| 0 <= q < sc.len() && names_setting(nodes, #[trigger] sc[q], k),
    decreases sc.len(),
{
    if sc.len() > 0 {
        let w = sc.drop_last();
        let a = scopes_scan(acc, nodes, w);
        let s = sc.last();
        assert(sc[sc.len() - 1] == s);
        let b = attr_scan(a, nodes[s].attributes);
        if b.values.dom().contains(k) {
            lemma_attrs_source(a, nodes[s].attributes, k);
            if a.values.dom().contains(k) {
                assert forall|q: int| 0 <= q < w.len() implies 0 <= #[trigger] w[q] < nodes.len() by {
                    assert(w[q] == sc[q]);
                }
                law_settings_from_scopes(acc, nodes, w, k);
                if !acc.values.dom().contains(k) {
                    let q = choose|q: int| 0 <= q < w.len() && names_setting(nodes, #[trigger] w[q], k);
                    assert(sc[q] == w[q]);
                }
            } else {
                let j = choose|j: int|
                    0 <= j < nodes[s].attributes.len() && is_crs(nodes[s].attributes[j].namespace) && #[trigger] nodes[s].attributes[j].name
                        == k;
                assert(names_setting(nodes, s, k));
            }
        } else {
            lemma_subtree_source(b, nodes, s, nodes.len(), k);
            let j = choose|j: int|
                0 <= j < nodes.len() && in_subtree(nodes, j, s) && crs_element(nodes[j]) && #[trigger] nodes[j].name == k;
            assert(names_setting(nodes, s, k));
        }
    }
}

} // verus!
