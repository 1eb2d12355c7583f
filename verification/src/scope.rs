//! Module scope: the grouping of the develop parameters' top-level fields into the modules a user
//! sees in the Develop panel. The flattened field list is the full set of preset-able keys.

use vstd::prelude::*;

verus! {

/// One selectable module group and the top-level fields it contains.
pub struct ScopeGroup {
    pub key: &'static str,
    pub label: &'static str,
    pub fields: &'static [&'static str],
}

/// The texts of a list of static strings.
pub open spec fn texts(f: Seq<&'static str>) -> Seq<Seq<char>> {
    Seq::new(f.len(), |k: int| f[k]@)
}

/// The group keys, in Develop-panel order.
pub open spec fn scope_keys() -> Seq<Seq<char>> {
    seq![
        "whiteBalance"@,
        "light"@,
        "baseTone"@,
        "toneCurve"@,
        "colorMixer"@,
        "colorBalance"@,
        "detail"@,
        "lens"@,
        "crop"@,
        "masks"@,
    ]
}

/// The group labels, in Develop-panel order.
pub open spec fn scope_labels() -> Seq<Seq<char>> {
    seq![
        "White Balance"@,
        "Light"@,
        "Base Tone"@,
        "Tone Curve"@,
        "Color Mixer"@,
        "Color Balance"@,
        "Detail"@,
        "Lens"@,
        "Crop"@,
        "Masks"@,
    ]
}

/// The fields of each group, in Develop-panel order.
pub open spec fn scope_fields() -> Seq<Seq<Seq<char>>> {
    seq![
        seq!["temp"@, "tint"@],
        seq!["exposure"@, "contrast"@, "highlights"@, "shadows"@, "whites"@, "blacks"@],
        seq!["toneAmount"@],
        seq!["toneCurve"@],
        seq!["saturation"@, "hsl"@],
        seq!["cbRgb"@],
        seq!["sharpen"@, "nrLuma"@, "nrColor"@],
        seq!["vignette"@],
        seq!["crop"@],
        seq!["masks"@],
    ]
}

/// All module groups, in Develop-panel order.
pub fn groups() -> (r: Vec<ScopeGroup>)
    ensures
        r@.len() == scope_keys().len(),
        forall|i: int|
            0 <= i < r@.len() ==> (#[trigger] r@[i]).key@ == scope_keys()[i] && r@[i].label@
                == scope_labels()[i] && texts(r@[i].fields@) == scope_fields()[i],
{
    let r = vec![
        ScopeGroup { key: "whiteBalance", label: "White Balance", fields: &["temp", "tint"] },
        ScopeGroup {
            key: "light",
            label: "Light",
            fields: &["exposure", "contrast", "highlights", "shadows", "whites", "blacks"],
        },
        ScopeGroup { key: "baseTone", label: "Base Tone", fields: &["toneAmount"] },
        ScopeGroup { key: "toneCurve", label: "Tone Curve", fields: &["toneCurve"] },
        ScopeGroup { key: "colorMixer", label: "Color Mixer", fields: &["saturation", "hsl"] },
        ScopeGroup { key: "colorBalance", label: "Color Balance", fields: &["cbRgb"] },
        ScopeGroup { key: "detail", label: "Detail", fields: &["sharpen", "nrLuma", "nrColor"] },
        ScopeGroup { key: "lens", label: "Lens", fields: &["vignette"] },
        ScopeGroup { key: "crop", label: "Crop", fields: &["crop"] },
        ScopeGroup { key: "masks", label: "Masks", fields: &["masks"] },
    ];
    assert forall|i: int| 0 <= i < r@.len() implies texts(r@[i].fields@) =~= scope_fields()[i] by {
    }
    r
}

/// The concatenation of a list of field lists.
pub open spec fn joined(gs: Seq<Seq<Seq<char>>>) -> Seq<Seq<char>>
    decreases gs.len(),
{
    if gs.len() == 0 {
        Seq::empty()
    } else {
        joined(gs.drop_last()) + gs.last()
    }
}

/// Every preset-able top-level field key, in panel order.
pub open spec fn all_fields() -> Seq<Seq<char>> {
    joined(scope_fields())
}

/// The field lists of the groups whose key is among `keys` (empty for the others).
pub open spec fn selected(keys: Seq<Seq<char>>) -> Seq<Seq<Seq<char>>> {
    Seq::new(
        scope_keys().len(),
        |i: int|
            if keys.contains(scope_keys()[i]) {
                scope_fields()[i]
            } else {
                Seq::empty()
            },
    )
}

/// The fields covered by the groups whose key is among `keys`, in panel order.
pub open spec fn fields_of_groups(keys: Seq<Seq<char>>) -> Seq<Seq<char>> {
    joined(selected(keys))
}

/// The texts of a list of strings.
pub open spec fn string_texts(v: Seq<String>) -> Seq<Seq<char>> {
    Seq::new(v.len(), |k: int| v[k]@)
}

proof fn lemma_joined_step(gs: Seq<Seq<Seq<char>>>, g: int)
    requires
        0 <= g < gs.len(),
    ensures
        joined(gs.take(g + 1)) == joined(gs.take(g)) + gs[g],
{
    assert(gs.take(g + 1).drop_last() =~= gs.take(g));
}

/// Every preset-able top-level field key, in panel order.
pub fn all_field_keys() -> (r: Vec<&'static str>)
    ensures
        texts(r@) == all_fields(),
{
    let gs = groups();
    let mut out: Vec<&'static str> = Vec::new();
    let mut g: usize = 0;
    assert(texts(out@) =~= joined(scope_fields().take(0)));
    while g < gs.len()
        invariant
            gs@.len() == scope_keys().len(),
            forall|i: int|
                0 <= i < gs@.len() ==> (#[trigger] gs@[i]).key@ == scope_keys()[i] && gs@[i].label@
                    == scope_labels()[i] && texts(gs@[i].fields@) == scope_fields()[i],
            g <= gs@.len(),
            texts(out@) == joined(scope_fields().take(g as int)),
        decreases gs@.len() - g,
    {
        let fields = gs[g].fields;
        let ghost base = texts(out@);
        let mut k: usize = 0;
        while k < fields.len()
            invariant
                k <= fields@.len(),
                texts(out@) == base + texts(fields@).take(k as int),
            decreases fields@.len() - k,
        {
            let ghost prev = out@;
            out.push(fields[k]);
            assert(texts(out@) =~= texts(prev).push(fields@[k as int]@));
            assert(texts(fields@).take(k + 1) =~= texts(fields@).take(k as int).push(
                fields@[k as int]@,
            ));
            assert(texts(out@) =~= base + texts(fields@).take(k + 1));
            k = k + 1;
        }
        proof {
            lemma_joined_step(scope_fields(), g as int);
            assert(texts(fields@).take(fields@.len() as int) =~= texts(fields@));
        }
        g = g + 1;
    }
    assert(scope_fields().take(scope_fields().len() as int) =~= scope_fields());
    out
}

/// Whether `key` is one of `keys`.
fn has_key(keys: &[String], key: &str) -> (r: bool)
    ensures
        r == string_texts(keys@).contains(key@),
{
    let wanted = key.to_owned();
    let mut k: usize = 0;
    while k < keys.len()
        invariant
            wanted@ == key@,
            k <= keys@.len(),
            forall|j: int| 0 <= j < k ==> #[trigger] keys@[j]@ != key@,
        decreases keys@.len() - k,
    {
        if keys[k] == wanted {
            assert(string_texts(keys@)[k as int] == key@);
            return true;
        }
        k = k + 1;
    }
    assert forall|j: int| 0 <= j < string_texts(keys@).len() implies string_texts(keys@)[j] != key@ by {
        assert(keys@[j]@ != key@);
    }
    false
}

/// The keys of `wanted` that `present` holds, in `wanted`'s order.
pub open spec fn kept_keys(present: Seq<Seq<char>>, wanted: Seq<Seq<char>>) -> Seq<Seq<char>>
    decreases wanted.len(),
{
    if wanted.len() == 0 {
        Seq::empty()
    } else {
        let r = kept_keys(present, wanted.drop_last());
        if present.contains(wanted.last()) {
            r.push(wanted.last())
        } else {
            r
        }
    }
}

/// The keys of a sparse subset of a params object whose top-level keys are `present`: each of
/// `field_keys` the object holds, in `field_keys`' order.
pub fn subset_keys(present: &[String], field_keys: &[String]) -> (r: Vec<String>)
    ensures
        string_texts(r@) == kept_keys(string_texts(present@), string_texts(field_keys@)),
{
    let ghost have = string_texts(present@);
    let ghost want = string_texts(field_keys@);
    let mut out: Vec<String> = Vec::new();
    let mut k: usize = 0;
    assert(want.take(0) =~= Seq::<Seq<char>>::empty());
    while k < field_keys.len()
        invariant
            k <= field_keys@.len(),
            have == string_texts(present@),
            want == string_texts(field_keys@),
            string_texts(out@) == kept_keys(have, want.take(k as int)),
        decreases field_keys@.len() - k,
    {
        let ghost prev = out@;
        assert(want.take(k + 1).drop_last() =~= want.take(k as int));
        assert(want.take(k + 1).last() == field_keys@[k as int]@);
        if has_key(present, field_keys[k].as_str()) {
            out.push(field_keys[k].clone());
            assert(string_texts(out@) =~= string_texts(prev).push(field_keys@[k as int]@));
        }
        k = k + 1;
    }
    assert(want.take(want.len() as int) =~= want);
    out
}

/// The flat list of field keys covered by the selected groups (groups are disjoint, so no key
/// repeats).
pub fn fields_for_groups(group_keys: &[String]) -> (r: Vec<String>)
    ensures
        string_texts(r@) == fields_of_groups(string_texts(group_keys@)),
{
    let gs = groups();
    let ghost keys = string_texts(group_keys@);
    let mut out: Vec<String> = Vec::new();
    let mut g: usize = 0;
    assert(string_texts(out@) =~= joined(selected(keys).take(0)));
    while g < gs.len()
        invariant
            gs@.len() == scope_keys().len(),
            forall|i: int|
                0 <= i < gs@.len() ==> (#[trigger] gs@[i]).key@ == scope_keys()[i] && gs@[i].label@
                    == scope_labels()[i] && texts(gs@[i].fields@) == scope_fields()[i],
            keys == string_texts(group_keys@),
            g <= gs@.len(),
            string_texts(out@) == joined(selected(keys).take(g as int)),
        decreases gs@.len() - g,
    {
        let ghost base = string_texts(out@);
        proof {
            lemma_joined_step(selected(keys), g as int);
        }
        if has_key(group_keys, gs[g].key) {
            let fields = gs[g].fields;
            let mut k: usize = 0;
            while k < fields.len()
                invariant
                    k <= fields@.len(),
                    string_texts(out@) == base + texts(fields@).take(k as int),
                decreases fields@.len() - k,
            {
                let ghost prev = out@;
                out.push(fields[k].to_owned());
                assert(string_texts(out@) =~= string_texts(prev).push(fields@[k as int]@));
                assert(texts(fields@).take(k + 1) =~= texts(fields@).take(k as int).push(
                    fields@[k as int]@,
                ));
                assert(string_texts(out@) =~= base + texts(fields@).take(k + 1));
                k = k + 1;
            }
            assert(texts(fields@).take(fields@.len() as int) =~= texts(fields@));
        } else {
            assert(base + selected(keys)[g as int] =~= base);
        }
        g = g + 1;
    }
    assert(selected(keys).take(selected(keys).len() as int) =~= selected(keys));
    out
}

proof fn lemma_all_fields_listed()
    ensures
        all_fields() == seq![
            "temp"@,
            "tint"@,
            "exposure"@,
            "contrast"@,
            "highlights"@,
            "shadows"@,
            "whites"@,
            "blacks"@,
            "toneAmount"@,
            "toneCurve"@,
            "saturation"@,
            "hsl"@,
            "cbRgb"@,
            "sharpen"@,
            "nrLuma"@,
            "nrColor"@,
            "vignette"@,
            "crop"@,
            "masks"@,
        ],
{
    let f = scope_fields();
    reveal_with_fuel(joined, 11);
    assert(f.drop_last().drop_last().drop_last().drop_last().drop_last().drop_last().drop_last().drop_last().drop_last().drop_last() =~= Seq::<Seq<Seq<char>>>::empty());
    assert(all_fields() =~= seq![
            "temp"@,
            "tint"@,
            "exposure"@,
            "contrast"@,
            "highlights"@,
            "shadows"@,
            "whites"@,
            "blacks"@,
            "toneAmount"@,
            "toneCurve"@,
            "saturation"@,
            "hsl"@,
            "cbRgb"@,
            "sharpen"@,
            "nrLuma"@,
            "nrColor"@,
            "vignette"@,
            "crop"@,
            "masks"@,
        ]);
}

/// The module groups are disjoint: no field key is listed twice over all groups.
pub proof fn law_scope_fields_distinct()
    ensures
        all_fields().no_duplicates(),
{
    lemma_all_fields_listed();
    reveal_strlit("temp");
    reveal_strlit("tint");
    reveal_strlit("exposure");
    reveal_strlit("contrast");
    reveal_strlit("highlights");
    reveal_strlit("shadows");
    reveal_strlit("whites");
    reveal_strlit("blacks");
    reveal_strlit("toneAmount");
    reveal_strlit("toneCurve");
    reveal_strlit("saturation");
    reveal_strlit("hsl");
    reveal_strlit("cbRgb");
    reveal_strlit("sharpen");
    reveal_strlit("nrLuma");
    reveal_strlit("nrColor");
    reveal_strlit("vignette");
    reveal_strlit("crop");
    reveal_strlit("masks");
    assert("temp"@[1] != "tint"@[1]);
    assert("temp"@.len() != "exposure"@.len());
    assert("temp"@.len() != "contrast"@.len());
    assert("temp"@.len() != "highlights"@.len());
    assert("temp"@.len() != "shadows"@.len());
    assert("temp"@.len() != "whites"@.len());
    assert("temp"@.len() != "blacks"@.len());
    assert("temp"@.len() != "toneAmount"@.len());
    assert("temp"@.len() != "toneCurve"@.len());
    assert("temp"@.len() != "saturation"@.len());
    assert("temp"@.len() != "hsl"@.len());
    assert("temp"@.len() != "cbRgb"@.len());
    assert("temp"@.len() != "sharpen"@.len());
    assert("temp"@.len() != "nrLuma"@.len());
    assert("temp"@.len() != "nrColor"@.len());
    assert("temp"@.len() != "vignette"@.len());
    assert("temp"@[0] != "crop"@[0]);
    assert("temp"@.len() != "masks"@.len());
    assert("tint"@.len() != "exposure"@.len());
    assert("tint"@.len() != "contrast"@.len());
    assert("tint"@.len() != "highlights"@.len());
    assert("tint"@.len() != "shadows"@.len());
    assert("tint"@.len() != "whites"@.len());
    assert("tint"@.len() != "blacks"@.len());
    assert("tint"@.len() != "toneAmount"@.len());
    assert("tint"@.len() != "toneCurve"@.len());
    assert("tint"@.len() != "saturation"@.len());
    assert("tint"@.len() != "hsl"@.len());
    assert("tint"@.len() != "cbRgb"@.len());
    assert("tint"@.len() != "sharpen"@.len());
    assert("tint"@.len() != "nrLuma"@.len());
    assert("tint"@.len() != "nrColor"@.len());
    assert("tint"@.len() != "vignette"@.len());
    assert("tint"@[0] != "crop"@[0]);
    assert("tint"@.len() != "masks"@.len());
    assert("exposure"@[0] != "contrast"@[0]);
    assert("exposure"@.len() != "highlights"@.len());
    assert("exposure"@.len() != "shadows"@.len());
    assert("exposure"@.len() != "whites"@.len());
    assert("exposure"@.len() != "blacks"@.len());
    assert("exposure"@.len() != "toneAmount"@.len());
    assert("exposure"@.len() != "toneCurve"@.len());
    assert("exposure"@.len() != "saturation"@.len());
    assert("exposure"@.len() != "hsl"@.len());
    assert("exposure"@.len() != "cbRgb"@.len());
    assert("exposure"@.len() != "sharpen"@.len());
    assert("exposure"@.len() != "nrLuma"@.len());
    assert("exposure"@.len() != "nrColor"@.len());
    assert("exposure"@[0] != "vignette"@[0]);
    assert("exposure"@.len() != "crop"@.len());
    assert("exposure"@.len() != "masks"@.len());
    assert("contrast"@.len() != "highlights"@.len());
    assert("contrast"@.len() != "shadows"@.len());
    assert("contrast"@.len() != "whites"@.len());
    assert("contrast"@.len() != "blacks"@.len());
    assert("contrast"@.len() != "toneAmount"@.len());
    assert("contrast"@.len() != "toneCurve"@.len());
    assert("contrast"@.len() != "saturation"@.len());
    assert("contrast"@.len() != "hsl"@.len());
    assert("contrast"@.len() != "cbRgb"@.len());
    assert("contrast"@.len() != "sharpen"@.len());
    assert("contrast"@.len() != "nrLuma"@.len());
    assert("contrast"@.len() != "nrColor"@.len());
    assert("contrast"@[0] != "vignette"@[0]);
    assert("contrast"@.len() != "crop"@.len());
    assert("contrast"@.len() != "masks"@.len());
    assert("highlights"@.len() != "shadows"@.len());
    assert("highlights"@.len() != "whites"@.len());
    assert("highlights"@.len() != "blacks"@.len());
    assert("highlights"@[0] != "toneAmount"@[0]);
    assert("highlights"@.len() != "toneCurve"@.len());
    assert("highlights"@[0] != "saturation"@[0]);
    assert("highlights"@.len() != "hsl"@.len());
    assert("highlights"@.len() != "cbRgb"@.len());
    assert("highlights"@.len() != "sharpen"@.len());
    assert("highlights"@.len() != "nrLuma"@.len());
    assert("highlights"@.len() != "nrColor"@.len());
    assert("highlights"@.len() != "vignette"@.len());
    assert("highlights"@.len() != "crop"@.len());
    assert("highlights"@.len() != "masks"@.len());
    assert("shadows"@.len() != "whites"@.len());
    assert("shadows"@.len() != "blacks"@.len());
    assert("shadows"@.len() != "toneAmount"@.len());
    assert("shadows"@.len() != "toneCurve"@.len());
    assert("shadows"@.len() != "saturation"@.len());
    assert("shadows"@.len() != "hsl"@.len());
    assert("shadows"@.len() != "cbRgb"@.len());
    assert("shadows"@[3] != "sharpen"@[3]);
    assert("shadows"@.len() != "nrLuma"@.len());
    assert("shadows"@[0] != "nrColor"@[0]);
    assert("shadows"@.len() != "vignette"@.len());
    assert("shadows"@.len() != "crop"@.len());
    assert("shadows"@.len() != "masks"@.len());
    assert("whites"@[0] != "blacks"@[0]);
    assert("whites"@.len() != "toneAmount"@.len());
    assert("whites"@.len() != "toneCurve"@.len());
    assert("whites"@.len() != "saturation"@.len());
    assert("whites"@.len() != "hsl"@.len());
    assert("whites"@.len() != "cbRgb"@.len());
    assert("whites"@.len() != "sharpen"@.len());
    assert("whites"@[0] != "nrLuma"@[0]);
    assert("whites"@.len() != "nrColor"@.len());
    assert("whites"@.len() != "vignette"@.len());
    assert("whites"@.len() != "crop"@.len());
    assert("whites"@.len() != "masks"@.len());
    assert("blacks"@.len() != "toneAmount"@.len());
    assert("blacks"@.len() != "toneCurve"@.len());
    assert("blacks"@.len() != "saturation"@.len());
    assert("blacks"@.len() != "hsl"@.len());
    assert("blacks"@.len() != "cbRgb"@.len());
    assert("blacks"@.len() != "sharpen"@.len());
    assert("blacks"@[0] != "nrLuma"@[0]);
    assert("blacks"@.len() != "nrColor"@.len());
    assert("blacks"@.len() != "vignette"@.len());
    assert("blacks"@.len() != "crop"@.len());
    assert("blacks"@.len() != "masks"@.len());
    assert("toneAmount"@.len() != "toneCurve"@.len());
    assert("toneAmount"@[0] != "saturation"@[0]);
    assert("toneAmount"@.len() != "hsl"@.len());
    assert("toneAmount"@.len() != "cbRgb"@.len());
    assert("toneAmount"@.len() != "sharpen"@.len());
    assert("toneAmount"@.len() != "nrLuma"@.len());
    assert("toneAmount"@.len() != "nrColor"@.len());
    assert("toneAmount"@.len() != "vignette"@.len());
    assert("toneAmount"@.len() != "crop"@.len());
    assert("toneAmount"@.len() != "masks"@.len());
    assert("toneCurve"@.len() != "saturation"@.len());
    assert("toneCurve"@.len() != "hsl"@.len());
    assert("toneCurve"@.len() != "cbRgb"@.len());
    assert("toneCurve"@.len() != "sharpen"@.len());
    assert("toneCurve"@.len() != "nrLuma"@.len());
    assert("toneCurve"@.len() != "nrColor"@.len());
    assert("toneCurve"@.len() != "vignette"@.len());
    assert("toneCurve"@.len() != "crop"@.len());
    assert("toneCurve"@.len() != "masks"@.len());
    assert("saturation"@.len() != "hsl"@.len());
    assert("saturation"@.len() != "cbRgb"@.len());
    assert("saturation"@.len() != "sharpen"@.len());
    assert("saturation"@.len() != "nrLuma"@.len());
    assert("saturation"@.len() != "nrColor"@.len());
    assert("saturation"@.len() != "vignette"@.len());
    assert("saturation"@.len() != "crop"@.len());
    assert("saturation"@.len() != "masks"@.len());
    assert("hsl"@.len() != "cbRgb"@.len());
    assert("hsl"@.len() != "sharpen"@.len());
    assert("hsl"@.len() != "nrLuma"@.len());
    assert("hsl"@.len() != "nrColor"@.len());
    assert("hsl"@.len() != "vignette"@.len());
    assert("hsl"@.len() != "crop"@.len());
    assert("hsl"@.len() != "masks"@.len());
    assert("cbRgb"@.len() != "sharpen"@.len());
    assert("cbRgb"@.len() != "nrLuma"@.len());
    assert("cbRgb"@.len() != "nrColor"@.len());
    assert("cbRgb"@.len() != "vignette"@.len());
    assert("cbRgb"@.len() != "crop"@.len());
    assert("cbRgb"@[0] != "masks"@[0]);
    assert("sharpen"@.len() != "nrLuma"@.len());
    assert("sharpen"@[0] != "nrColor"@[0]);
    assert("sharpen"@.len() != "vignette"@.len());
    assert("sharpen"@.len() != "crop"@.len());
    assert("sharpen"@.len() != "masks"@.len());
    assert("nrLuma"@.len() != "nrColor"@.len());
    assert("nrLuma"@.len() != "vignette"@.len());
    assert("nrLuma"@.len() != "crop"@.len());
    assert("nrLuma"@.len() != "masks"@.len());
    assert("nrColor"@.len() != "vignette"@.len());
    assert("nrColor"@.len() != "crop"@.len());
    assert("nrColor"@.len() != "masks"@.len());
    assert("vignette"@.len() != "crop"@.len());
    assert("vignette"@.len() != "masks"@.len());
    assert("crop"@.len() != "masks"@.len());
}

/// Selecting every group covers exactly the full field list, in the same order.
pub proof fn law_all_groups_cover_all_fields()
    ensures
        fields_of_groups(scope_keys()) == all_fields(),
{
    assert forall|i: int| 0 <= i < scope_keys().len() implies scope_keys().contains(
        #[trigger] scope_keys()[i],
    ) by {}
    assert(selected(scope_keys()) =~= scope_fields());
}

/// The parts of a concatenation without repeats have none, and share nothing.
proof fn lemma_concat_nodup_parts(a: Seq<Seq<char>>, b: Seq<Seq<char>>)
    requires
        (a + b).no_duplicates(),
    ensures
        a.no_duplicates(),
        b.no_duplicates(),
        forall|x: Seq<char>| a.contains(x) ==> !b.contains(x),
{
    let c = a + b;
    assert forall|i: int, j: int| 0 <= i < a.len() && 0 <= j < a.len() && i != j implies a[i] != a[j] by {
        assert(c[i] == a[i] && c[j] == a[j]);
    }
    assert forall|i: int, j: int| 0 <= i < b.len() && 0 <= j < b.len() && i != j implies b[i] != b[j] by {
        assert(c[a.len() + i] == b[i] && c[a.len() + j] == b[j]);
    }
    assert forall|x: Seq<char>| a.contains(x) implies !b.contains(x) by {
        if b.contains(x) {
            let i = choose|i: int| 0 <= i < a.len() && a[i] == x;
            let j = choose|j: int| 0 <= j < b.len() && b[j] == x;
            assert(c[i] == x && c[a.len() + j] == x);
        }
    }
}

/// Keeping some of a list of field lists (emptying the others) keeps the join free of repeats, and
/// within the full join.
proof fn lemma_joined_sub(gs: Seq<Seq<Seq<char>>>, hs: Seq<Seq<Seq<char>>>)
    requires
        hs.len() == gs.len(),
        forall|i: int| 0 <= i < gs.len() ==> #[trigger] hs[i] == gs[i] || hs[i] == Seq::<Seq<char>>::empty(),
        joined(gs).no_duplicates(),
    ensures
        joined(hs).no_duplicates(),
        forall|x: Seq<char>| joined(hs).contains(x) ==> joined(gs).contains(x),
    decreases gs.len(),
{
    if gs.len() == 0 {
        assert(joined(hs) =~= Seq::<Seq<char>>::empty());
    } else {
        let g1 = gs.drop_last();
        let h1 = hs.drop_last();
        assert forall|i: int| 0 <= i < g1.len() implies #[trigger] h1[i] == g1[i] || h1[i] == Seq::<Seq<char>>::empty() by {
            assert(h1[i] == hs[i] && g1[i] == gs[i]);
        }
        lemma_concat_nodup_parts(joined(g1), gs.last());
        lemma_joined_sub(g1, h1);
        let hl = hs.last();
        assert(hl == gs.last() || hl == Seq::<Seq<char>>::empty()) by {
            assert(hs[hs.len() - 1] == gs[gs.len() - 1] || hs[hs.len() - 1] == Seq::<Seq<char>>::empty());
        }
        assert(hl.no_duplicates());
        assert forall|x: Seq<char>| joined(h1).contains(x) implies !hl.contains(x) by {
            assert(joined(g1).contains(x));
        }
        assert forall|i: int, j: int| 0 <= i < joined(h1).len() && 0 <= j < hl.len() implies joined(h1)[i] != hl[j] by {
            assert(joined(h1).contains(joined(h1)[i]));
            assert(hl.contains(hl[j]));
        }
        vstd::seq_lib::lemma_no_dup_in_concat(joined(h1), hl);
        assert forall|x: Seq<char>| joined(hs).contains(x) implies joined(gs).contains(x) by {
            let k = choose|k: int| 0 <= k < joined(hs).len() && joined(hs)[k] == x;
            if k < joined(h1).len() {
                assert(joined(h1)[k] == x);
                assert(joined(h1).contains(x));
                let m = choose|m: int| 0 <= m < joined(g1).len() && joined(g1)[m] == x;
                assert(joined(gs)[m] == x);
            } else {
                assert(hl[k - joined(h1).len()] == x);
                assert(joined(gs)[joined(g1).len() + k - joined(h1).len()] == x);
            }
        }
    }
}

/// A join of empty lists is empty.
proof fn lemma_joined_empties(hs: Seq<Seq<Seq<char>>>)
    requires
        forall|i: int| 0 <= i < hs.len() ==> #[trigger] hs[i] == Seq::<Seq<char>>::empty(),
    ensures
        joined(hs) == Seq::<Seq<char>>::empty(),
    decreases hs.len(),
{
    if hs.len() > 0 {
        let h1 = hs.drop_last();
        assert forall|i: int| 0 <= i < h1.len() implies #[trigger] h1[i] == Seq::<Seq<char>>::empty() by {
            assert(h1[i] == hs[i]);
        }
        lemma_joined_empties(h1);
        assert(hs.last() == hs[hs.len() - 1]);
        assert(joined(hs) =~= Seq::<Seq<char>>::empty());
    }
}

/// Only which group keys are asked for matters: their order, repeats, and keys that name no group
/// do not change the fields selected.
pub proof fn law_group_keys_as_a_set(keys1: Seq<Seq<char>>, keys2: Seq<Seq<char>>)
    requires
        forall|k: Seq<char>| #[trigger] scope_keys().contains(k) ==> (keys1.contains(k) <==> keys2.contains(k)),
    ensures
        fields_of_groups(keys1) == fields_of_groups(keys2),
{
    assert forall|i: int| 0 <= i < scope_keys().len() implies #[trigger] selected(keys1)[i] == selected(keys2)[i] by {
        assert(scope_keys().contains(scope_keys()[i]));
    }
    assert(selected(keys1) =~= selected(keys2));
}

/// The fields selected by any group keys hold no repeats, and are preset-able fields.
pub proof fn law_selected_fields_distinct(keys: Seq<Seq<char>>)
    ensures
        fields_of_groups(keys).no_duplicates(),
        forall|x: Seq<char>| fields_of_groups(keys).contains(x) ==> all_fields().contains(x),
{
    law_scope_fields_distinct();
    lemma_joined_sub(scope_fields(), selected(keys));
}

/// No group keys select no fields.
pub proof fn law_no_groups_no_fields()
    ensures
        fields_of_groups(Seq::empty()) == Seq::<Seq<char>>::empty(),
{
    lemma_joined_empties(selected(Seq::empty()));
}

/// A join holds `x` exactly when one of its lists does.
proof fn lemma_joined_contains(gs: Seq<Seq<Seq<char>>>, x: Seq<char>)
    ensures
        joined(gs).contains(x) <==> exists|i: int| 0 <= i < gs.len() && #[trigger] gs[i].contains(x),
    decreases gs.len(),
{
    if gs.len() > 0 {
        let g1 = gs.drop_last();
        lemma_joined_contains(g1, x);
        let j1 = joined(g1);
        let l = gs.last();
        if joined(gs).contains(x) {
            let k = choose|k: int| 0 <= k < joined(gs).len() && joined(gs)[k] == x;
            if k < j1.len() {
                assert(j1[k] == x);
                assert(j1.contains(x));
                let i = choose|i: int| 0 <= i < g1.len() && #[trigger] g1[i].contains(x);
                assert(gs[i] == g1[i]);
            } else {
                assert(l[k - j1.len()] == x);
                assert(gs[gs.len() - 1].contains(x));
            }
        }
        if exists|i: int| 0 <= i < gs.len() && #[trigger] gs[i].contains(x) {
            let i = choose|i: int| 0 <= i < gs.len() && #[trigger] gs[i].contains(x);
            if i < gs.len() - 1 {
                assert(g1[i] == gs[i]);
                assert(j1.contains(x));
                let k = choose|k: int| 0 <= k < j1.len() && j1[k] == x;
                assert(joined(gs)[k] == x);
            } else {
                let k = choose|k: int| 0 <= k < l.len() && l[k] == x;
                assert(joined(gs)[j1.len() + k] == x);
            }
        }
    }
}

/// The group lists of each field, as the Develop panel groups them: a field listed by group `g`
/// and by no other is selected exactly when `g`'s key is asked for.
proof fn lemma_field_group(keys: Seq<Seq<char>>, f: Seq<char>, g: int)
    requires
        0 <= g < scope_keys().len(),
        scope_fields()[g].contains(f),
        forall|i: int| 0 <= i < scope_keys().len() && i != g ==> !(#[trigger] scope_fields()[i]).contains(f),
    ensures
        fields_of_groups(keys).contains(f) <==> keys.contains(scope_keys()[g]),
{
    lemma_joined_contains(selected(keys), f);
    if keys.contains(scope_keys()[g]) {
        assert(selected(keys)[g].contains(f));
    }
    if exists|i: int| 0 <= i < selected(keys).len() && #[trigger] selected(keys)[i].contains(f) {
        let i = choose|i: int| 0 <= i < selected(keys).len() && #[trigger] selected(keys)[i].contains(f);
        if i != g {
            assert(!scope_fields()[i].contains(f));
        }
    }
}

/// In a join without repeats, an item one list holds is held by no other list.
proof fn lemma_only_group(gs: Seq<Seq<Seq<char>>>, f: Seq<char>, g: int)
    requires
        joined(gs).no_duplicates(),
        0 <= g < gs.len(),
        gs[g].contains(f),
    ensures
        forall|i: int| 0 <= i < gs.len() && i != g ==> !(#[trigger] gs[i]).contains(f),
    decreases gs.len(),
{
    let g1 = gs.drop_last();
    let last = gs.len() - 1;
    lemma_concat_nodup_parts(joined(g1), gs.last());
    assert(gs.last() == gs[last]);
    if g < last {
        assert(g1[g] == gs[g]);
        lemma_only_group(g1, f, g);
        lemma_joined_contains(g1, f);
        assert(joined(g1).contains(f));
        assert forall|i: int| 0 <= i < gs.len() && i != g implies !(#[trigger] gs[i]).contains(f) by {
            if i < last {
                assert(g1[i] == gs[i]);
            }
        }
    } else {
        assert forall|i: int| 0 <= i < gs.len() && i != g implies !(#[trigger] gs[i]).contains(f) by {
            assert(g1[i] == gs[i]);
            if gs[i].contains(f) {
                lemma_joined_contains(g1, f);
                assert(g1[i].contains(f));
            }
        }
    }
}

/// Which group keys select each field: a field is among the selected fields exactly when the key
/// of the Develop-panel group it belongs to is asked for (White Balance: temp, tint; Light:
/// exposure, contrast, highlights, shadows, whites, blacks; Base Tone: toneAmount; Tone Curve:
/// toneCurve; Color Mixer: saturation, hsl; Color Balance: cbRgb; Detail: sharpen, nrLuma, nrColor;
/// Lens: vignette; Crop: crop; Masks: masks).
#[verifier::rlimit(60)]
pub proof fn law_field_groups(keys: Seq<Seq<char>>)
    ensures
        fields_of_groups(keys).contains("temp"@) <==> keys.contains("whiteBalance"@),
        fields_of_groups(keys).contains("tint"@) <==> keys.contains("whiteBalance"@),
        fields_of_groups(keys).contains("exposure"@) <==> keys.contains("light"@),
        fields_of_groups(keys).contains("contrast"@) <==> keys.contains("light"@),
        fields_of_groups(keys).contains("highlights"@) <==> keys.contains("light"@),
        fields_of_groups(keys).contains("shadows"@) <==> keys.contains("light"@),
        fields_of_groups(keys).contains("whites"@) <==> keys.contains("light"@),
        fields_of_groups(keys).contains("blacks"@) <==> keys.contains("light"@),
        fields_of_groups(keys).contains("toneAmount"@) <==> keys.contains("baseTone"@),
        fields_of_groups(keys).contains("toneCurve"@) <==> keys.contains("toneCurve"@),
        fields_of_groups(keys).contains("saturation"@) <==> keys.contains("colorMixer"@),
        fields_of_groups(keys).contains("hsl"@) <==> keys.contains("colorMixer"@),
        fields_of_groups(keys).contains("cbRgb"@) <==> keys.contains("colorBalance"@),
        fields_of_groups(keys).contains("sharpen"@) <==> keys.contains("detail"@),
        fields_of_groups(keys).contains("nrLuma"@) <==> keys.contains("detail"@),
        fields_of_groups(keys).contains("nrColor"@) <==> keys.contains("detail"@),
        fields_of_groups(keys).contains("vignette"@) <==> keys.contains("lens"@),
        fields_of_groups(keys).contains("crop"@) <==> keys.contains("crop"@),
        fields_of_groups(keys).contains("masks"@) <==> keys.contains("masks"@),
{
    law_scope_fields_distinct();
    assert(scope_keys()[4] == "colorMixer"@);
    assert(scope_fields()[0][0] == "temp"@);
    lemma_only_group(scope_fields(), "temp"@, 0);
    lemma_field_group(keys, "temp"@, 0);
    assert(scope_fields()[0][1] == "tint"@);
    lemma_only_group(scope_fields(), "tint"@, 0);
    lemma_field_group(keys, "tint"@, 0);
    assert(scope_fields()[1][0] == "exposure"@);
    lemma_only_group(scope_fields(), "exposure"@, 1);
    lemma_field_group(keys, "exposure"@, 1);
    assert(scope_fields()[1][1] == "contrast"@);
    lemma_only_group(scope_fields(), "contrast"@, 1);
    lemma_field_group(keys, "contrast"@, 1);
    assert(scope_fields()[1][2] == "highlights"@);
    lemma_only_group(scope_fields(), "highlights"@, 1);
    lemma_field_group(keys, "highlights"@, 1);
    assert(scope_fields()[1][3] == "shadows"@);
    lemma_only_group(scope_fields(), "shadows"@, 1);
    lemma_field_group(keys, "shadows"@, 1);
    assert(scope_fields()[1][4] == "whites"@);
    lemma_only_group(scope_fields(), "whites"@, 1);
    lemma_field_group(keys, "whites"@, 1);
    assert(scope_fields()[1][5] == "blacks"@);
    lemma_only_group(scope_fields(), "blacks"@, 1);
    lemma_field_group(keys, "blacks"@, 1);
    assert(scope_fields()[2][0] == "toneAmount"@);
    lemma_only_group(scope_fields(), "toneAmount"@, 2);
    lemma_field_group(keys, "toneAmount"@, 2);
    assert(scope_fields()[3][0] == "toneCurve"@);
    lemma_only_group(scope_fields(), "toneCurve"@, 3);
    lemma_field_group(keys, "toneCurve"@, 3);
    assert(scope_fields()[4][0] == "saturation"@);
    lemma_only_group(scope_fields(), "saturation"@, 4);
    lemma_field_group(keys, "saturation"@, 4);
    assert(scope_fields()[4][1] == "hsl"@);
    lemma_only_group(scope_fields(), "hsl"@, 4);
    lemma_field_group(keys, "hsl"@, 4);
    assert(scope_fields()[5][0] == "cbRgb"@);
    lemma_only_group(scope_fields(), "cbRgb"@, 5);
    lemma_field_group(keys, "cbRgb"@, 5);
    assert(scope_fields()[6][0] == "sharpen"@);
    lemma_only_group(scope_fields(), "sharpen"@, 6);
    lemma_field_group(keys, "sharpen"@, 6);
    assert(scope_fields()[6][1] == "nrLuma"@);
    lemma_only_group(scope_fields(), "nrLuma"@, 6);
    lemma_field_group(keys, "nrLuma"@, 6);
    assert(scope_fields()[6][2] == "nrColor"@);
    lemma_only_group(scope_fields(), "nrColor"@, 6);
    lemma_field_group(keys, "nrColor"@, 6);
    assert(scope_fields()[7][0] == "vignette"@);
    lemma_only_group(scope_fields(), "vignette"@, 7);
    lemma_field_group(keys, "vignette"@, 7);
    assert(scope_fields()[8][0] == "crop"@);
    lemma_only_group(scope_fields(), "crop"@, 8);
    lemma_field_group(keys, "crop"@, 8);
    assert(scope_fields()[9][0] == "masks"@);
    lemma_only_group(scope_fields(), "masks"@, 9);
    lemma_field_group(keys, "masks"@, 9);
}

} // verus!
