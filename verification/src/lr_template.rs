//! Lightroom `.lrtemplate` importer front end. The file is a Lua assignment
//! `s = { … value = { settings = { … } } }`; the `settings` table is read with the verified Lua
//! reader and split into scalar settings and the four tone-curve point lists, which then go through
//! the same crs mapping as the `.xmp` importer.

use vstd::prelude::*;

use crate::lua::{
    entries_tree, entries_wf, fault_message, items_tree, items_wf, keys_unique, lemma_entries_lookup,
    lemma_entries_wf_at, lemma_items_at, lemma_items_len, value_at, Lua, LuaTable, LuaTree, Parser,
    Step,
};
use crate::crs::{
    ext_eq, ext_matches, head_chars, head_of, skip_leading_ws, starts_at, starts_with_at, strings_view,
    values_view, CrsSettings, Setting, SettingValue, SettingsView,
};
use crate::preset_error::PresetError;
use crate::text::{chars_of, contains_chars, is_xy_text, is_xy_text_chars, lossy_string, seq_contains, lossy_text};

verus! {

/// The `.lrtemplate` importer.
pub struct LightroomTemplate;

// ── What a template means ─────────────────────────────────────────────────────────────────────

/// The bytes the reader works on: the file decoded lossily from UTF-8, encoded again.
pub open spec fn template_text(bytes: Seq<u8>) -> Seq<u8> {
    vstd::utf8::encode_utf8(lossy_text(bytes))
}

/// First `{` at or after `i`, or the end.
pub open spec fn first_brace(s: Seq<u8>, i: int) -> int
    decreases s.len() - i,
{
    if 0 <= i < s.len() && s[i] != 123 {
        first_brace(s, i + 1)
    } else {
        i
    }
}

/// The scalar reading of a setting value: numbers and strings as they are, booleans as `True` /
/// `False`; a table is no scalar.
pub open spec fn setting_of(t: LuaTree) -> Option<Setting> {
    match t {
        LuaTree::Num(x) => Some(Setting::Number(x)),
        LuaTree::Str(x) => Some(Setting::Text(x)),
        LuaTree::Bool(b) => Some(Setting::Text(
            if b {
                "True"@
            } else {
                "False"@
            },
        )),
        LuaTree::Table(_, _) => None,
    }
}

/// The control points among a curve table's items: the strings that read as `"x, y"`.
pub open spec fn curve_points(items: Seq<LuaTree>) -> Seq<Seq<char>>
    decreases items.len(),
{
    if items.len() == 0 {
        Seq::empty()
    } else {
        let p = curve_points(items.drop_last());
        match items.last() {
            LuaTree::Str(x) => if is_xy_text(x) {
                p.push(x)
            } else {
                p
            },
            _ => p,
        }
    }
}

/// The control points of the curve stored as a table under `key`, or none.
pub open spec fn curve_under(m: Map<Seq<char>, LuaTree>, key: Seq<char>) -> Seq<Seq<char>> {
    if m.dom().contains(key) && m[key] is Table {
        curve_points(m[key]->Table_1)
    } else {
        Seq::empty()
    }
}

pub open spec fn scalar_settings(m: Map<Seq<char>, LuaTree>) -> Map<Seq<char>, Setting> {
    Map::new(|k: Seq<char>| m.dom().contains(k) && setting_of(m[k]) is Some, |k: Seq<char>| setting_of(m[k])->0)
}

/// The settings held by a `settings` table.
pub open spec fn settings_view(m: Map<Seq<char>, LuaTree>) -> SettingsView {
    SettingsView {
        values: scalar_settings(m),
        tone_curve: curve_under(m, "ToneCurvePV2012"@),
        tone_curve_red: curve_under(m, "ToneCurvePV2012Red"@),
        tone_curve_green: curve_under(m, "ToneCurvePV2012Green"@),
        tone_curve_blue: curve_under(m, "ToneCurvePV2012Blue"@),
    }
}

/// The table under `key`, if it holds a table.
pub open spec fn table_under(m: Map<Seq<char>, LuaTree>, key: Seq<char>) -> Option<Map<Seq<char>, LuaTree>> {
    if m.dom().contains(key) && m[key] is Table {
        Some(m[key]->Table_0)
    } else {
        None
    }
}

/// `root.value.settings`, else `root.settings`, when that is a table.
pub open spec fn settings_of(root: Map<Seq<char>, LuaTree>) -> Option<Map<Seq<char>, LuaTree>> {
    match table_under(root, "value"@) {
        Some(v) => if table_under(v, "settings"@) is Some {
            table_under(v, "settings"@)
        } else {
            table_under(root, "settings"@)
        },
        None => table_under(root, "settings"@),
    }
}

/// What reading a template text yields: its settings, or the text of the error.
pub open spec fn template_outcome(s: Seq<u8>) -> Result<SettingsView, Seq<char>> {
    match value_at(s, first_brace(s, 0), 0) {
        Step::Fail(f) => Err(fault_message(f)),
        Step::Done(LuaTree::Table(root, _), _) => match settings_of(root) {
            None => Err("no settings table"@),
            Some(m) => {
                let v = settings_view(m);
                if v.values == Map::<Seq<char>, Setting>::empty() && v.tone_curve.len() == 0 {
                    Err("empty settings"@)
                } else {
                    Ok(v)
                }
            },
        },
        Step::Done(_, _) => Err("expected a Lua table"@),
    }
}

// ── Detection ─────────────────────────────────────────────────────────────────────────────────

/// The head of a template: after leading whitespace it starts with `s = {` or `s={`, and it
/// mentions `settings`.
pub open spec fn template_head(h: Seq<char>) -> bool {
    let t = crate::text::ws_prefix_end(h, 0);
    (starts_at(h, t, "s = {"@) || starts_at(h, t, "s={"@)) && seq_contains(h, "settings"@)
}

/// Whether a file is taken for a `.lrtemplate`: by extension, or else by its first 4096 bytes.
pub open spec fn template_detected(bytes: Seq<u8>, ext: Option<&str>) -> bool {
    if ext_matches(ext, "lrtemplate") {
        true
    } else if ext_matches(ext, "xmp") {
        false
    } else {
        template_head(head_chars(bytes, 4096))
    }
}

/// Each tone curve of a template is read from the table stored under its own key and from no
/// other key: storing a table under `ToneCurvePV2012`, `ToneCurvePV2012Red`,
/// `ToneCurvePV2012Green` or `ToneCurvePV2012Blue` makes that curve the table's control points, and
/// storing any value under any other key leaves all four curves as they were.
pub proof fn law_template_curve_keys(
    m: Map<Seq<char>, LuaTree>,
    k: Seq<char>,
    v: LuaTree,
    tm: Map<Seq<char>, LuaTree>,
    items: Seq<LuaTree>,
)
    ensures
        settings_view(m.insert("ToneCurvePV2012"@, LuaTree::Table(tm, items))).tone_curve == curve_points(items),
        settings_view(m.insert("ToneCurvePV2012Red"@, LuaTree::Table(tm, items))).tone_curve_red == curve_points(items),
        settings_view(m.insert("ToneCurvePV2012Green"@, LuaTree::Table(tm, items))).tone_curve_green == curve_points(
            items,
        ),
        settings_view(m.insert("ToneCurvePV2012Blue"@, LuaTree::Table(tm, items))).tone_curve_blue == curve_points(
            items,
        ),
        k != "ToneCurvePV2012"@ ==> settings_view(m.insert(k, v)).tone_curve == settings_view(m).tone_curve,
        k != "ToneCurvePV2012Red"@ ==> settings_view(m.insert(k, v)).tone_curve_red == settings_view(m).tone_curve_red,
        k != "ToneCurvePV2012Green"@ ==> settings_view(m.insert(k, v)).tone_curve_green == settings_view(
            m,
        ).tone_curve_green,
        k != "ToneCurvePV2012Blue"@ ==> settings_view(m.insert(k, v)).tone_curve_blue == settings_view(
            m,
        ).tone_curve_blue,
{
    let m2 = m.insert(k, v);
    assert(k != "ToneCurvePV2012"@ ==> m2.dom().contains("ToneCurvePV2012"@) == m.dom().contains("ToneCurvePV2012"@));
    assert(k != "ToneCurvePV2012Red"@ ==> m2.dom().contains("ToneCurvePV2012Red"@) == m.dom().contains("ToneCurvePV2012Red"@));
    assert(k != "ToneCurvePV2012Green"@ ==> m2.dom().contains("ToneCurvePV2012Green"@) == m.dom().contains("ToneCurvePV2012Green"@));
    assert(k != "ToneCurvePV2012Blue"@ ==> m2.dom().contains("ToneCurvePV2012Blue"@) == m.dom().contains("ToneCurvePV2012Blue"@));
}

/// The scalar settings of a template keep each value under its own key: a number as that number's
/// text, a string as that text, a boolean as `True` or `False`; a table under a key gives no scalar
/// setting, and a value stored under one key leaves the settings of the other keys as they were.
pub proof fn law_template_scalar_values(m: Map<Seq<char>, LuaTree>, k: Seq<char>, v: LuaTree, other: Seq<char>)
    ensures
        ({
            let sv = settings_view(m.insert(k, v)).values;
            &&& forall|x: Seq<char>| v == LuaTree::Num(x) ==> sv.dom().contains(k) && sv[k] == Setting::Number(x)
            &&& forall|x: Seq<char>| v == LuaTree::Str(x) ==> sv.dom().contains(k) && sv[k] == Setting::Text(x)
            &&& v == LuaTree::Bool(true) ==> sv.dom().contains(k) && sv[k] == Setting::Text("True"@)
            &&& v == LuaTree::Bool(false) ==> sv.dom().contains(k) && sv[k] == Setting::Text("False"@)
            &&& v is Table ==> !sv.dom().contains(k)
            &&& other != k ==> (sv.dom().contains(other) == settings_view(m).values.dom().contains(other) && (
            sv.dom().contains(other) ==> sv[other] == settings_view(m).values[other]))
        }),
{
}

impl LightroomTemplate {
    /// The format's name in import reports.
    pub fn format_name(&self) -> (r: &'static str)
        ensures
            r@ == "lightroom-lrtemplate"@,
    {
        "lightroom-lrtemplate"
    }

    /// Whether a file, given its bytes and its extension (if any), is a `.lrtemplate`.
    pub fn detect(&self, bytes: &[u8], ext: Option<&str>) -> (r: bool)
        ensures
            r == template_detected(bytes@, ext),
    {
        if ext_eq(ext, "lrtemplate") {
            return true;
        }
        if ext_eq(ext, "xmp") {
            return false;
        }
        let head = head_of(bytes, 4096);
        let t = skip_leading_ws(head.as_slice());
        let a = chars_of("s = {");
        let b = chars_of("s={");
        let w = chars_of("settings");
        (starts_with_at(head.as_slice(), t, a.as_slice()) || starts_with_at(
            head.as_slice(),
            t,
            b.as_slice(),
        )) && contains_chars(head.as_slice(), w.as_slice())
    }
}

// ── Reading the settings ──────────────────────────────────────────────────────────────────────

/// A table whose keys are distinct at every level.
pub open spec fn table_wf(t: &LuaTable) -> bool {
    keys_unique(t.map@) && entries_wf(t.map@) && items_wf(t.arr@)
}

/// The table stored under `key` in `t`, if that value is a table.
fn table_at<'t>(t: &'t LuaTable, key: &str) -> (r: Option<&'t LuaTable>)
    requires
        table_wf(t),
    ensures
        match table_under(entries_tree(t.map@), key@) {
            Some(m) => r matches Some(x) && entries_tree(x.map@) == m && table_wf(x),
            None => r is None,
        },
{
    match t.get(key) {
        Some(Lua::Table(x)) => Some(x),
        _ => None,
    }
}

/// `root.value.settings`, else `root.settings`, when that is a table.
pub fn find_settings(root: &LuaTable) -> (r: Option<&LuaTable>)
    requires
        table_wf(root),
    ensures
        match settings_of(entries_tree(root.map@)) {
            Some(m) => r matches Some(x) && entries_tree(x.map@) == m && table_wf(x),
            None => r is None,
        },
{
    if let Some(v) = table_at(root, "value") {
        if let Some(s) = table_at(v, "settings") {
            return Some(s);
        }
    }
    table_at(root, "settings")
}

/// The control points of a curve table: its string items that read as `"x, y"`, in order.
pub fn curve_from(t: &LuaTable) -> (r: Vec<String>)
    ensures
        strings_view(r@) == curve_points(items_tree(t.arr@)),
{
    let mut out: Vec<String> = Vec::new();
    let mut k: usize = 0;
    while k < t.arr.len()
        invariant
            k <= t.arr@.len(),
            strings_view(out@) == curve_points(items_tree(t.arr@.take(k as int))),
        decreases t.arr@.len() - k,
    {
        let ghost before = out@;
        let ghost a = t.arr@.take(k as int);
        let ghost a1 = t.arr@.take(k + 1);
        proof {
            assert(a1.drop_last() =~= a);
            assert(items_tree(a1) == items_tree(a).push(t.arr@[k as int].tree()));
            assert(items_tree(a1).drop_last() =~= items_tree(a));
        }
        if let Lua::Str(x) = &t.arr[k] {
            let cs = chars_of(x.as_str());
            if is_xy_text_chars(cs.as_slice()) {
                out.push(x.clone());
                assert(strings_view(out@) =~= strings_view(before).push(x@));
            }
        }
        k = k + 1;
    }
    assert(t.arr@.take(t.arr@.len() as int) =~= t.arr@);
    out
}

proof fn lemma_curve_under_insert(
    m: Map<Seq<char>, LuaTree>,
    key: Seq<char>,
    t: LuaTree,
    k: Seq<char>,
)
    requires
        !m.dom().contains(key),
    ensures
        curve_under(m.insert(key, t), k) == (if key == k {
            if t is Table {
                curve_points(t->Table_1)
            } else {
                Seq::empty()
            }
        } else {
            curve_under(m, k)
        }),
{
}

/// Splits a `settings` table into scalar settings and the four tone curves.
pub fn collect_settings(t: &LuaTable) -> (r: CrsSettings)
    requires
        table_wf(t),
    ensures
        r.view() == settings_view(entries_tree(t.map@)),
{
    let k_rgb = "ToneCurvePV2012".to_owned();
    let k_red = "ToneCurvePV2012Red".to_owned();
    let k_green = "ToneCurvePV2012Green".to_owned();
    let k_blue = "ToneCurvePV2012Blue".to_owned();
    let mut out = CrsSettings {
        values: Vec::new(),
        tone_curve: Vec::new(),
        tone_curve_red: Vec::new(),
        tone_curve_green: Vec::new(),
        tone_curve_blue: Vec::new(),
    };
    let mut k: usize = 0;
    assert(entries_tree(t.map@.take(0)) =~= Map::empty());
    assert(scalar_settings(Map::empty()) =~= Map::empty());
    assert(strings_view(Seq::<String>::empty()) =~= Seq::empty());
    assert(out.view() =~= settings_view(Map::empty()));
    while k < t.map.len()
        invariant
            table_wf(t),
            k <= t.map@.len(),
            k_rgb@ == "ToneCurvePV2012"@,
            k_red@ == "ToneCurvePV2012Red"@,
            k_green@ == "ToneCurvePV2012Green"@,
            k_blue@ == "ToneCurvePV2012Blue"@,
            out.view() == settings_view(entries_tree(t.map@.take(k as int))),
        decreases t.map@.len() - k,
    {
        let ghost pre = t.map@.take(k as int);
        let ghost m = entries_tree(pre);
        let ghost key = t.map@[k as int].0@;
        proof {
            assert(t.map@.take(k + 1).drop_last() =~= pre);
            assert forall|j: int| 0 <= j < pre.len() implies #[trigger] pre[j].0@ != key by {
                assert(pre[j] == t.map@[j]);
            }
            crate::lua::lemma_entries_absent(pre, key);
        }
        let entry = &t.map[k];
        let ghost tree = entry.1.tree();
        let ghost m2 = m.insert(key, tree);
        let ghost prev = out.values@;
        assert(entries_tree(t.map@.take(k + 1)) == m2);
        assert(scalar_settings(m2) =~= match setting_of(tree) {
            Some(x) => scalar_settings(m).insert(key, x),
            None => scalar_settings(m),
        });
        match &entry.1 {
            Lua::Num(x) => {
                out.values.push((entry.0.clone(), SettingValue::Number(x.clone())));
                assert(out.values@.drop_last() =~= prev);
            },
            Lua::Str(x) => {
                out.values.push((entry.0.clone(), SettingValue::Text(x.clone())));
                assert(out.values@.drop_last() =~= prev);
            },
            Lua::Bool(b) => {
                let text = if *b {
                    "True".to_owned()
                } else {
                    "False".to_owned()
                };
                out.values.push((entry.0.clone(), SettingValue::Text(text)));
                assert(out.values@.drop_last() =~= prev);
            },
            Lua::Table(c) => {
                if entry.0 == k_rgb {
                    out.tone_curve = curve_from(c);
                }
                if entry.0 == k_red {
                    out.tone_curve_red = curve_from(c);
                }
                if entry.0 == k_green {
                    out.tone_curve_green = curve_from(c);
                }
                if entry.0 == k_blue {
                    out.tone_curve_blue = curve_from(c);
                }
            },
        }
        proof {
            reveal_strlit("ToneCurvePV2012");
            reveal_strlit("ToneCurvePV2012Red");
            reveal_strlit("ToneCurvePV2012Green");
            reveal_strlit("ToneCurvePV2012Blue");
            lemma_curve_under_insert(m, key, tree, "ToneCurvePV2012"@);
            lemma_curve_under_insert(m, key, tree, "ToneCurvePV2012Red"@);
            lemma_curve_under_insert(m, key, tree, "ToneCurvePV2012Green"@);
            lemma_curve_under_insert(m, key, tree, "ToneCurvePV2012Blue"@);
            assert(values_view(out.values@) == scalar_settings(m2));
            assert(strings_view(out.tone_curve@) == curve_under(m2, "ToneCurvePV2012"@));
            assert(strings_view(out.tone_curve_red@) == curve_under(m2, "ToneCurvePV2012Red"@));
            assert(strings_view(out.tone_curve_green@) == curve_under(m2, "ToneCurvePV2012Green"@));
            assert(strings_view(out.tone_curve_blue@) == curve_under(m2, "ToneCurvePV2012Blue"@));
        }
        assert(out.view() =~= settings_view(m2));
        k = k + 1;
    }
    assert(t.map@.take(t.map@.len() as int) =~= t.map@);
    out
}

impl LightroomTemplate {
    /// Reads the `settings` table of a template file: the Lua table that starts at the first `{`
    /// must parse, hold `value.settings` or `settings` as a table, and set at least one scalar or
    /// master tone-curve point.
    pub fn read_settings(&self, bytes: &[u8]) -> (r: Result<CrsSettings, PresetError>)
        ensures
            match template_outcome(template_text(bytes@)) {
                Ok(v) => r matches Ok(st) && st.view() == v,
                Err(m) => r matches Err(PresetError::Malformed(x)) && x@ == m,
            },
    {
        let text = lossy_string(bytes);
        let mut p = Parser::new(text.as_str());
        let ghost s = p.s@;
        assert(s == template_text(bytes@));
        while p.i < p.s.len() && p.s[p.i] != 123
            invariant
                p.s@ == s,
                p.depth == 0,
                p.i <= s.len(),
                first_brace(s, p.i as int) == first_brace(s, 0),
            decreases s.len() - p.i,
        {
            p.i = p.i + 1;
        }
        let root = match p.parse_value() {
            Ok(v) => v,
            Err(e) => {
                return Err(PresetError::Malformed(e.message()));
            },
        };
        let rt = match &root {
            Lua::Table(t) => t,
            _ => {
                return Err(PresetError::Malformed("expected a Lua table".to_owned()));
            },
        };
        let st = match find_settings(rt) {
            Some(t) => t,
            None => {
                return Err(PresetError::Malformed("no settings table".to_owned()));
            },
        };
        let out = collect_settings(st);
        if out.values.len() == 0 && out.tone_curve.len() == 0 {
            assert(values_view(out.values@) =~= Map::empty());
            return Err(PresetError::Malformed("empty settings".to_owned()));
        }
        proof {
            if out.values.len() > 0 {
                let v = out.values@;
                assert(values_view(v).dom().contains(v.last().0@));
            }
        }
        Ok(out)
    }
}

} // verus!
