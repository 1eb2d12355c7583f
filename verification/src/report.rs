//! The import report shown after converting an external preset: which settings mapped cleanly,
//! which were approximated (and why), and which were dropped (and why).

use vstd::prelude::*;
use vstd::string::StringSliceAdditionalSpecFns;

verus! {

/// One reported setting: a key (a Lightroom `crs:` name or a field of ours) and a note.
#[derive(Debug, Clone)]
pub struct ReportItem {
    pub key: String,
    pub note: String,
}

impl ReportItem {
    /// An item for `key` with the note `note`.
    pub fn new(key: &str, note: &str) -> (r: Self)
        ensures
            r.key@ == key@,
            r.note@ == note@,
    {
        ReportItem { key: key.to_owned(), note: note.to_owned() }
    }

    /// The key and the note as text.
    pub open spec fn view(self) -> (Seq<char>, Seq<char>) {
        (self.key@, self.note@)
    }
}

impl PartialEq for ReportItem {
    fn eq(&self, other: &Self) -> (r: bool) {
        self.key == other.key && self.note == other.note
    }
}

impl vstd::std_specs::cmp::PartialEqSpecImpl for ReportItem {
    open spec fn obeys_eq_spec() -> bool {
        true
    }

    open spec fn eq_spec(&self, other: &Self) -> bool {
        self.key@ == other.key@ && self.note@ == other.note@
    }
}

impl Eq for ReportItem {

}

/// The items of a list as text pairs.
pub open spec fn items_view(v: Seq<ReportItem>) -> Seq<(Seq<char>, Seq<char>)> {
    Seq::new(v.len(), |k: int| v[k].view())
}

/// The dropped-setting notes a preset's white balance gives: an absolute `Temperature` has no
/// anchor in the as-shot-relative model, and a named `WhiteBalance` other than "custom" (in any
/// ASCII case) needs per-image EXIF.
pub open spec fn white_balance_notes_of(has_temperature: bool, white_balance: Option<&str>) -> Seq<
    (Seq<char>, Seq<char>),
> {
    let t = if has_temperature {
        seq![("Temperature"@, "absolute WB Kelvin has no anchor in our as-shot-relative model"@)]
    } else {
        Seq::empty()
    };
    match white_balance {
        Some(w) => if !crate::text::ascii_ci_eq(w.spec_bytes(), "custom".spec_bytes()) {
            t.push(("WhiteBalance"@, "'"@ + w@ + "' needs per-image EXIF; apply manually"@))
        } else {
            t
        },
        None => t,
    }
}

/// The dropped-setting notes for a preset's `Temperature` (whether it is set) and `WhiteBalance`
/// (its text, if set), in that order.
pub fn white_balance_notes(has_temperature: bool, white_balance: Option<&str>) -> (r: Vec<ReportItem>)
    ensures
        items_view(r@) == white_balance_notes_of(has_temperature, white_balance),
{
    let mut r: Vec<ReportItem> = Vec::new();
    if has_temperature {
        r.push(ReportItem::new("Temperature", "absolute WB Kelvin has no anchor in our as-shot-relative model"));
    }
    let ghost t = items_view(r@);
    assert(t == (if has_temperature {
        seq![("Temperature"@, "absolute WB Kelvin has no anchor in our as-shot-relative model"@)]
    } else {
        Seq::empty()
    }));
    match white_balance {
        Some(w) => {
            if !crate::text::eq_ignore_ascii_case(w, "custom") {
                let mut note = "'".to_owned();
                note.append(w);
                note.append("' needs per-image EXIF; apply manually");
                let ghost prev = r@;
                r.push(ReportItem { key: "WhiteBalance".to_owned(), note });
                assert(items_view(r@) =~= items_view(prev).push(("WhiteBalance"@, "'"@ + w@ + "' needs per-image EXIF; apply manually"@)));
            }
        },
        None => {},
    }
    r
}

/// The outcome of importing one preset file.
#[derive(Debug, Clone)]
pub struct ImportReport {
    pub source_format: String,
    pub source_process_version: Option<String>,
    /// Settings transferred faithfully.
    pub mapped: Vec<ReportItem>,
    /// Settings transferred with a caveat (magnitude only, color-space mismatch, …).
    pub approximated: Vec<ReportItem>,
    /// Settings present in the source but not applied.
    pub dropped: Vec<ReportItem>,
}

impl Default for ImportReport {
    fn default() -> (r: Self)
        ensures
            r.source_format@ == Seq::<char>::empty(),
            r.source_process_version is None,
            r.mapped@.len() == 0,
            r.approximated@.len() == 0,
            r.dropped@.len() == 0,
    {
        ImportReport {
            source_format: String::new(),
            source_process_version: None,
            mapped: Vec::new(),
            approximated: Vec::new(),
            dropped: Vec::new(),
        }
    }
}

impl ImportReport {
    /// Records `key` as transferred faithfully (with an empty note).
    pub fn mark_clean(&mut self, key: &str)
        ensures
            items_view(final(self).mapped@) == items_view(old(self).mapped@).push(
                (key@, Seq::<char>::empty()),
            ),
            final(self).approximated == old(self).approximated,
            final(self).dropped == old(self).dropped,
            final(self).source_format == old(self).source_format,
            final(self).source_process_version == old(self).source_process_version,
    {
        let item = ReportItem::new(key, "");
        proof {
            reveal_strlit("");
        }
        assert(item.note@ =~= Seq::<char>::empty());
        self.mapped.push(item);
        assert(items_view(self.mapped@) =~= items_view(old(self).mapped@).push(
            (key@, Seq::<char>::empty()),
        ));
    }

    /// Records `key` as transferred with the caveat `note`.
    pub fn mark_approx(&mut self, key: &str, note: &str)
        ensures
            items_view(final(self).approximated@) == items_view(old(self).approximated@).push(
                (key@, note@),
            ),
            final(self).mapped == old(self).mapped,
            final(self).dropped == old(self).dropped,
            final(self).source_format == old(self).source_format,
            final(self).source_process_version == old(self).source_process_version,
    {
        self.approximated.push(ReportItem::new(key, note));
        assert(items_view(self.approximated@) =~= items_view(old(self).approximated@).push(
            (key@, note@),
        ));
    }

    /// Records `key` as not applied, for the reason `note`.
    pub fn mark_dropped(&mut self, key: &str, note: &str)
        ensures
            items_view(final(self).dropped@) == items_view(old(self).dropped@).push((key@, note@)),
            final(self).mapped == old(self).mapped,
            final(self).approximated == old(self).approximated,
            final(self).source_format == old(self).source_format,
            final(self).source_process_version == old(self).source_process_version,
    {
        self.dropped.push(ReportItem::new(key, note));
        assert(items_view(self.dropped@) =~= items_view(old(self).dropped@).push((key@, note@)));
    }
}

/// Caveat for the tone sliders, whose effect matches Lightroom's in magnitude only.
pub const NOTE_TONE: &'static str = "magnitude only — our control is a display-space curve, not LR's PV2012 region-adaptive algorithm; retune expected";
/// Caveat for an imported crop.
pub const NOTE_CROP: &'static str = "imported with angle≈0 only; LR crop rect is in the rotated frame";
/// Caveat for an imported tint.
pub const NOTE_TINT: &'static str = "relative tint nudge only; absolute WB temperature was dropped (no anchor)";
/// Caveat for an imported vignette.
pub const NOTE_VIGNETTE: &'static str = "amount only — no midpoint/feather/roundness target";
/// Caveat for an imported saturation.
pub const NOTE_SAT: &'static str = "saturation (incl. any vibrance folded in)";

/// Which develop fields a converted preset sets.
pub struct PresentFields {
    pub exposure: bool,
    pub sharpen: bool,
    pub nr_luma: bool,
    pub nr_color: bool,
    pub tone_curve: bool,
    pub hsl: bool,
    pub contrast: bool,
    pub highlights: bool,
    pub shadows: bool,
    pub whites: bool,
    pub blacks: bool,
    pub saturation: bool,
    pub vignette: bool,
    pub tint: bool,
    pub crop: bool,
}

/// The one-element list `[x]` when `b` holds, else the empty list.
pub open spec fn when(b: bool, x: (Seq<char>, Seq<char>)) -> Seq<(Seq<char>, Seq<char>)> {
    if b {
        seq![x]
    } else {
        seq![]
    }
}

/// The fields that transfer faithfully, in report order, each with an empty note.
pub open spec fn clean_items(p: PresentFields) -> Seq<(Seq<char>, Seq<char>)> {
    let e = Seq::<char>::empty();
    Seq::empty() + when(p.exposure, ("exposure"@, e)) + when(p.sharpen, ("sharpen"@, e)) + when(
        p.nr_luma,
        ("nrLuma"@, e),
    ) + when(p.nr_color, ("nrColor"@, e)) + when(p.tone_curve, ("toneCurve"@, e)) + when(
        p.hsl,
        ("hsl"@, e),
    )
}

/// The fields that transfer with a caveat, in report order, with their caveats.
pub open spec fn approx_items(p: PresentFields) -> Seq<(Seq<char>, Seq<char>)> {
    Seq::empty() + when(p.contrast, ("contrast"@, NOTE_TONE@)) + when(
        p.highlights,
        ("highlights"@, NOTE_TONE@),
    )
        + when(p.shadows, ("shadows"@, NOTE_TONE@)) + when(p.whites, ("whites"@, NOTE_TONE@)) + when(
        p.blacks,
        ("blacks"@, NOTE_TONE@),
    ) + when(p.saturation, ("saturation"@, NOTE_SAT@)) + when(p.vignette, ("vignette"@, NOTE_VIGNETTE@))
        + when(p.tint, ("tint"@, NOTE_TINT@)) + when(p.crop, ("crop"@, NOTE_CROP@))
}

/// Field `key` of a converted preset is set, by the field names of the develop parameters.
#[verifier::opaque]
pub open spec fn field_is_set(p: PresentFields, key: Seq<char>) -> bool {
    ||| key == "exposure"@ && p.exposure
    ||| key == "sharpen"@ && p.sharpen
    ||| key == "nrLuma"@ && p.nr_luma
    ||| key == "nrColor"@ && p.nr_color
    ||| key == "toneCurve"@ && p.tone_curve
    ||| key == "hsl"@ && p.hsl
    ||| key == "contrast"@ && p.contrast
    ||| key == "highlights"@ && p.highlights
    ||| key == "shadows"@ && p.shadows
    ||| key == "whites"@ && p.whites
    ||| key == "blacks"@ && p.blacks
    ||| key == "saturation"@ && p.saturation
    ||| key == "vignette"@ && p.vignette
    ||| key == "tint"@ && p.tint
    ||| key == "crop"@ && p.crop
}

/// Some item of the list is `x`.
pub open spec fn has_item(v: Seq<(Seq<char>, Seq<char>)>, x: (Seq<char>, Seq<char>)) -> bool {
    exists|i: int| 0 <= i < v.len() && #[trigger] v[i] == x
}

/// The report names the faithfully transferred fields of a converted preset under their own names:
/// every such field that is set is listed as mapped, with no caveat, and every mapped key names a
/// field that is set.
pub proof fn law_mapped_names_set_fields(p: PresentFields)
    ensures
        forall|i: int| 0 <= i < clean_items(p).len() ==> field_is_set(p, #[trigger] clean_items(p)[i].0),
        p.exposure ==> has_item(clean_items(p), ("exposure"@, Seq::<char>::empty())),
        p.sharpen ==> has_item(clean_items(p), ("sharpen"@, Seq::<char>::empty())),
        p.nr_luma ==> has_item(clean_items(p), ("nrLuma"@, Seq::<char>::empty())),
        p.nr_color ==> has_item(clean_items(p), ("nrColor"@, Seq::<char>::empty())),
        p.tone_curve ==> has_item(clean_items(p), ("toneCurve"@, Seq::<char>::empty())),
        p.hsl ==> has_item(clean_items(p), ("hsl"@, Seq::<char>::empty())),
{
    assert(p.exposure ==> field_is_set(p, "exposure"@)) by { reveal(field_is_set); }
    assert(p.sharpen ==> field_is_set(p, "sharpen"@)) by { reveal(field_is_set); }
    assert(p.nr_luma ==> field_is_set(p, "nrLuma"@)) by { reveal(field_is_set); }
    assert(p.nr_color ==> field_is_set(p, "nrColor"@)) by { reveal(field_is_set); }
    assert(p.tone_curve ==> field_is_set(p, "toneCurve"@)) by { reveal(field_is_set); }
    assert(p.hsl ==> field_is_set(p, "hsl"@)) by { reveal(field_is_set); }
    let e = Seq::<char>::empty();
    let c0 = Seq::<(Seq<char>, Seq<char>)>::empty();
    let c1 = c0 + when(p.exposure, ("exposure"@, e));
    let c2 = c1 + when(p.sharpen, ("sharpen"@, e));
    let c3 = c2 + when(p.nr_luma, ("nrLuma"@, e));
    let c4 = c3 + when(p.nr_color, ("nrColor"@, e));
    let c5 = c4 + when(p.tone_curve, ("toneCurve"@, e));
    let c6 = c5 + when(p.hsl, ("hsl"@, e));
    assert(clean_items(p) == c6);
    lemma_when_concat_keys(p, c0, p.exposure, ("exposure"@, e));
    lemma_when_concat_keys(p, c1, p.sharpen, ("sharpen"@, e));
    lemma_when_concat_keys(p, c2, p.nr_luma, ("nrLuma"@, e));
    lemma_when_concat_keys(p, c3, p.nr_color, ("nrColor"@, e));
    lemma_when_concat_keys(p, c4, p.tone_curve, ("toneCurve"@, e));
    lemma_when_concat_keys(p, c5, p.hsl, ("hsl"@, e));
}

/// The report names the approximately transferred fields of a converted preset under their own
/// names: every such field that is set is listed as approximated with its own caveat (the tone
/// sliders with the tone caveat, saturation, vignette, tint and crop each with theirs), and every
/// approximated key names a field that is set.
#[verifier::rlimit(60)]
pub proof fn law_approximated_names_set_fields(p: PresentFields)
    ensures
        forall|i: int| 0 <= i < approx_items(p).len() ==> field_is_set(p, #[trigger] approx_items(p)[i].0),
        p.contrast ==> has_item(approx_items(p), ("contrast"@, NOTE_TONE@)),
        p.highlights ==> has_item(approx_items(p), ("highlights"@, NOTE_TONE@)),
        p.shadows ==> has_item(approx_items(p), ("shadows"@, NOTE_TONE@)),
        p.whites ==> has_item(approx_items(p), ("whites"@, NOTE_TONE@)),
        p.blacks ==> has_item(approx_items(p), ("blacks"@, NOTE_TONE@)),
        p.saturation ==> has_item(approx_items(p), ("saturation"@, NOTE_SAT@)),
        p.vignette ==> has_item(approx_items(p), ("vignette"@, NOTE_VIGNETTE@)),
        p.tint ==> has_item(approx_items(p), ("tint"@, NOTE_TINT@)),
        p.crop ==> has_item(approx_items(p), ("crop"@, NOTE_CROP@)),
{
    assert(p.contrast ==> field_is_set(p, "contrast"@)) by { reveal(field_is_set); }
    assert(p.highlights ==> field_is_set(p, "highlights"@)) by { reveal(field_is_set); }
    assert(p.shadows ==> field_is_set(p, "shadows"@)) by { reveal(field_is_set); }
    assert(p.whites ==> field_is_set(p, "whites"@)) by { reveal(field_is_set); }
    assert(p.blacks ==> field_is_set(p, "blacks"@)) by { reveal(field_is_set); }
    assert(p.saturation ==> field_is_set(p, "saturation"@)) by { reveal(field_is_set); }
    assert(p.vignette ==> field_is_set(p, "vignette"@)) by { reveal(field_is_set); }
    assert(p.tint ==> field_is_set(p, "tint"@)) by { reveal(field_is_set); }
    assert(p.crop ==> field_is_set(p, "crop"@)) by { reveal(field_is_set); }
    let a0 = Seq::<(Seq<char>, Seq<char>)>::empty();
    let a1 = a0 + when(p.contrast, ("contrast"@, NOTE_TONE@));
    let a2 = a1 + when(p.highlights, ("highlights"@, NOTE_TONE@));
    let a3 = a2 + when(p.shadows, ("shadows"@, NOTE_TONE@));
    let a4 = a3 + when(p.whites, ("whites"@, NOTE_TONE@));
    let a5 = a4 + when(p.blacks, ("blacks"@, NOTE_TONE@));
    let a6 = a5 + when(p.saturation, ("saturation"@, NOTE_SAT@));
    let a7 = a6 + when(p.vignette, ("vignette"@, NOTE_VIGNETTE@));
    let a8 = a7 + when(p.tint, ("tint"@, NOTE_TINT@));
    let a9 = a8 + when(p.crop, ("crop"@, NOTE_CROP@));
    assert(approx_items(p) == a9);
    lemma_when_concat_keys(p, a0, p.contrast, ("contrast"@, NOTE_TONE@));
    lemma_when_concat_keys(p, a1, p.highlights, ("highlights"@, NOTE_TONE@));
    lemma_when_concat_keys(p, a2, p.shadows, ("shadows"@, NOTE_TONE@));
    lemma_when_concat_keys(p, a3, p.whites, ("whites"@, NOTE_TONE@));
    lemma_when_concat_keys(p, a4, p.blacks, ("blacks"@, NOTE_TONE@));
    lemma_when_concat_keys(p, a5, p.saturation, ("saturation"@, NOTE_SAT@));
    lemma_when_concat_keys(p, a6, p.vignette, ("vignette"@, NOTE_VIGNETTE@));
    lemma_when_concat_keys(p, a7, p.tint, ("tint"@, NOTE_TINT@));
    lemma_when_concat_keys(p, a8, p.crop, ("crop"@, NOTE_CROP@));
}

/// Appending an item when its field is set keeps every key naming a set field, keeps the keys
/// already listed, and lists the new key when it is set.
proof fn lemma_when_concat_keys(
    p: PresentFields,
    v: Seq<(Seq<char>, Seq<char>)>,
    b: bool,
    x: (Seq<char>, Seq<char>),
)
    requires
        b ==> field_is_set(p, x.0),
    ensures
        (forall|i: int| 0 <= i < v.len() ==> field_is_set(p, #[trigger] v[i].0)) ==> (forall|i: int|
            0 <= i < (v + when(b, x)).len() ==> field_is_set(p, #[trigger] (v + when(b, x))[i].0)),
        forall|y: (Seq<char>, Seq<char>)| has_item(v, y) ==> has_item(v + when(b, x), y),
        b ==> has_item(v + when(b, x), x),
{
    let w = v + when(b, x);
    assert forall|y: (Seq<char>, Seq<char>)| has_item(v, y) implies has_item(w, y) by {
        let i = choose|i: int| 0 <= i < v.len() && #[trigger] v[i] == y;
        assert(w[i] == v[i]);
    }
    if b {
        assert(w[v.len() as int] == x);
    }
    if forall|i: int| 0 <= i < v.len() ==> field_is_set(p, #[trigger] v[i].0) {
        assert forall|i: int| 0 <= i < w.len() implies field_is_set(p, #[trigger] w[i].0) by {
            if i < v.len() {
                assert(w[i] == v[i]);
            } else {
                assert(w[i] == x);
            }
        }
    }
}

/// Key/note pairs as text.
pub open spec fn pairs_view(v: Seq<(String, String)>) -> Seq<(Seq<char>, Seq<char>)> {
    Seq::new(v.len(), |k: int| (v[k].0@, v[k].1@))
}

impl ImportReport {
    /// Records `key` as transferred faithfully when `set` holds.
    fn clean_if(&mut self, set: bool, key: &str)
        ensures
            items_view(final(self).mapped@) == items_view(old(self).mapped@) + when(
                set,
                (key@, Seq::<char>::empty()),
            ),
            final(self).approximated == old(self).approximated,
            final(self).dropped == old(self).dropped,
            final(self).source_format == old(self).source_format,
            final(self).source_process_version == old(self).source_process_version,
    {
        if set {
            self.mark_clean(key);
        }
        assert(items_view(self.mapped@) =~= items_view(old(self).mapped@) + when(
            set,
            (key@, Seq::<char>::empty()),
        ));
    }

    /// Records `key` as transferred with the caveat `note` when `set` holds.
    fn approx_if(&mut self, set: bool, key: &str, note: &str)
        ensures
            items_view(final(self).approximated@) == items_view(old(self).approximated@) + when(
                set,
                (key@, note@),
            ),
            final(self).mapped == old(self).mapped,
            final(self).dropped == old(self).dropped,
            final(self).source_format == old(self).source_format,
            final(self).source_process_version == old(self).source_process_version,
    {
        if set {
            self.mark_approx(key, note);
        }
        assert(items_view(self.approximated@) =~= items_view(old(self).approximated@) + when(
            set,
            (key@, note@),
        ));
    }

    /// Records the faithfully transferring fields that are set, on an empty list.
    fn mark_clean_fields(&mut self, fields: &PresentFields)
        requires
            items_view(old(self).mapped@) == Seq::<(Seq<char>, Seq<char>)>::empty(),
        ensures
            items_view(final(self).mapped@) == clean_items(*fields),
            final(self).approximated == old(self).approximated,
            final(self).dropped == old(self).dropped,
            final(self).source_format == old(self).source_format,
            final(self).source_process_version == old(self).source_process_version,
    {
        self.clean_if(fields.exposure, "exposure");
        self.clean_if(fields.sharpen, "sharpen");
        self.clean_if(fields.nr_luma, "nrLuma");
        self.clean_if(fields.nr_color, "nrColor");
        self.clean_if(fields.tone_curve, "toneCurve");
        self.clean_if(fields.hsl, "hsl");
    }

    /// Records the approximately transferring fields that are set, with their caveats, on an
    /// empty list.
    fn mark_approx_fields(&mut self, fields: &PresentFields)
        requires
            items_view(old(self).approximated@) == Seq::<(Seq<char>, Seq<char>)>::empty(),
        ensures
            items_view(final(self).approximated@) == approx_items(*fields),
            final(self).mapped == old(self).mapped,
            final(self).dropped == old(self).dropped,
            final(self).source_format == old(self).source_format,
            final(self).source_process_version == old(self).source_process_version,
    {
        self.approx_if(fields.contrast, "contrast", NOTE_TONE);
        self.approx_if(fields.highlights, "highlights", NOTE_TONE);
        self.approx_if(fields.shadows, "shadows", NOTE_TONE);
        self.approx_if(fields.whites, "whites", NOTE_TONE);
        self.approx_if(fields.blacks, "blacks", NOTE_TONE);
        self.approx_if(fields.saturation, "saturation", NOTE_SAT);
        self.approx_if(fields.vignette, "vignette", NOTE_VIGNETTE);
        self.approx_if(fields.tint, "tint", NOTE_TINT);
        self.approx_if(fields.crop, "crop", NOTE_CROP);
    }

    /// The report of a conversion from `source_format`: the faithfully transferred fields, the
    /// approximated ones with their caveats followed by the importer's own caveats, and the
    /// importer's dropped keys.
    pub fn for_conversion(
        source_format: &str,
        source_process_version: Option<String>,
        fields: &PresentFields,
        seen_approx: &[(String, String)],
        seen_dropped: &[(String, String)],
    ) -> (r: Self)
        ensures
            r.source_format@ == source_format@,
            r.source_process_version == source_process_version,
            items_view(r.mapped@) == clean_items(*fields),
            items_view(r.approximated@) == approx_items(*fields) + pairs_view(seen_approx@),
            items_view(r.dropped@) == pairs_view(seen_dropped@),
    {
        let mut r = ImportReport {
            source_format: source_format.to_owned(),
            source_process_version,
            mapped: Vec::new(),
            approximated: Vec::new(),
            dropped: Vec::new(),
        };
        assert(items_view(r.mapped@) =~= Seq::empty());
        assert(items_view(r.approximated@) =~= Seq::empty());
        assert(items_view(r.dropped@) =~= Seq::empty());
        r.mark_clean_fields(fields);
        r.mark_approx_fields(fields);
        assert(approx_items(*fields) + pairs_view(seen_approx@).take(0) =~= approx_items(*fields));
        let mut k: usize = 0;
        while k < seen_approx.len()
            invariant
                k <= seen_approx@.len(),
                items_view(r.approximated@) == approx_items(*fields) + pairs_view(seen_approx@).take(
                    k as int,
                ),
                items_view(r.mapped@) == clean_items(*fields),
                items_view(r.dropped@) == Seq::<(Seq<char>, Seq<char>)>::empty(),
                r.source_format@ == source_format@,
                r.source_process_version == source_process_version,
            decreases seen_approx@.len() - k,
        {
            r.mark_approx(seen_approx[k].0.as_str(), seen_approx[k].1.as_str());
            assert(pairs_view(seen_approx@).take(k + 1) =~= pairs_view(seen_approx@).take(
                k as int,
            ).push(pairs_view(seen_approx@)[k as int]));
            k = k + 1;
        }
        assert(pairs_view(seen_approx@).take(seen_approx@.len() as int) =~= pairs_view(seen_approx@));
        let mut k: usize = 0;
        while k < seen_dropped.len()
            invariant
                k <= seen_dropped@.len(),
                items_view(r.approximated@) == approx_items(*fields) + pairs_view(seen_approx@),
                items_view(r.mapped@) == clean_items(*fields),
                items_view(r.dropped@) == pairs_view(seen_dropped@).take(k as int),
                r.source_format@ == source_format@,
                r.source_process_version == source_process_version,
            decreases seen_dropped@.len() - k,
        {
            r.mark_dropped(seen_dropped[k].0.as_str(), seen_dropped[k].1.as_str());
            assert(pairs_view(seen_dropped@).take(k + 1) =~= pairs_view(seen_dropped@).take(
                k as int,
            ).push(pairs_view(seen_dropped@)[k as int]));
            k = k + 1;
        }
        assert(pairs_view(seen_dropped@).take(seen_dropped@.len() as int) =~= pairs_view(seen_dropped@));
        r
    }
}

} // verus!
