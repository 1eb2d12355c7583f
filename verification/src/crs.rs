//! What the Lightroom importers extract from a preset file: its Camera Raw Settings as scalar
//! settings plus the control points of the four tone curves; and the file-sniffing helpers they
//! share.

use vstd::prelude::*;

use crate::text::{chars_of, eq_ignore_ascii_case, is_whitespace_char, lossy_string, ascii_ci_eq, lossy_text};
use vstd::string::StringSliceAdditionalSpecFns;

verus! {

/// One scalar setting: a number as written, or text.
#[derive(Debug)]
pub enum SettingValue {
    Number(String),
    Text(String),
}

/// The mathematical value of a [`SettingValue`].
pub enum Setting {
    Number(Seq<char>),
    Text(Seq<char>),
}

impl SettingValue {
    pub open spec fn view(self) -> Setting {
        match self {
            SettingValue::Number(t) => Setting::Number(t@),
            SettingValue::Text(t) => Setting::Text(t@),
        }
    }
}

/// The settings of a template: scalar settings (keys distinct) and the control points
/// (`"x, y"`, 0–255) of the master, red, green and blue tone curves.
#[derive(Debug)]
pub struct CrsSettings {
    pub values: Vec<(String, SettingValue)>,
    pub tone_curve: Vec<String>,
    pub tone_curve_red: Vec<String>,
    pub tone_curve_green: Vec<String>,
    pub tone_curve_blue: Vec<String>,
}

/// The mathematical value of [`CrsSettings`].
#[verifier::ext_equal]
pub struct SettingsView {
    pub values: Map<Seq<char>, Setting>,
    pub tone_curve: Seq<Seq<char>>,
    pub tone_curve_red: Seq<Seq<char>>,
    pub tone_curve_green: Seq<Seq<char>>,
    pub tone_curve_blue: Seq<Seq<char>>,
}

pub open spec fn values_view(v: Seq<(String, SettingValue)>) -> Map<Seq<char>, Setting>
    decreases v.len(),
{
    if v.len() == 0 {
        Map::empty()
    } else {
        values_view(v.drop_last()).insert(v.last().0@, v.last().1.view())
    }
}

pub open spec fn strings_view(v: Seq<String>) -> Seq<Seq<char>> {
    Seq::new(v.len(), |k: int| v[k]@)
}

impl CrsSettings {
    pub open spec fn view(self) -> SettingsView {
        SettingsView {
            values: values_view(self.values@),
            tone_curve: strings_view(self.tone_curve@),
            tone_curve_red: strings_view(self.tone_curve_red@),
            tone_curve_green: strings_view(self.tone_curve_green@),
            tone_curve_blue: strings_view(self.tone_curve_blue@),
        }
    }
}

/// The file extension `ext` equals `want` up to ASCII case.
pub open spec fn ext_matches(ext: Option<&str>, want: &str) -> bool {
    match ext {
        Some(e) => ascii_ci_eq(e.spec_bytes(), want.spec_bytes()),
        None => false,
    }
}

/// Whether the extension is `want`, ignoring ASCII case; no extension never matches.
pub fn ext_eq(ext: Option<&str>, want: &str) -> (r: bool)
    ensures
        r == ext_matches(ext, want),
{
    match ext {
        Some(e) => eq_ignore_ascii_case(e, want),
        None => false,
    }
}

/// The first `n` bytes (at most) of a file, decoded lossily.
pub open spec fn head_chars(bytes: Seq<u8>, n: int) -> Seq<char> {
    lossy_text(bytes.take(if bytes.len() < n {
        bytes.len() as int
    } else {
        n
    }))
}

/// `h[i..]` starts with `n`.
pub open spec fn starts_at(h: Seq<char>, i: int, n: Seq<char>) -> bool {
    0 <= i && i + n.len() <= h.len() && h.subrange(i, i + n.len()) == n
}

/// Decides [`starts_at`].
pub fn starts_with_at(h: &[char], i: usize, n: &[char]) -> (r: bool)
    ensures
        r == starts_at(h@, i as int, n@),
{
    let hl = h.len();
    if i > hl || n.len() > hl - i {
        return false;
    }
    let mut m: usize = 0;
    while m < n.len()
        invariant
            hl == h@.len(),
            i + n@.len() <= h@.len(),
            m <= n@.len(),
            forall|p: int| 0 <= p < m ==> h@[i + p] == n@[p],
        decreases n@.len() - m,
    {
        if h[i + m] != n[m] {
            assert(h@.subrange(i as int, i + n@.len())[m as int] != n@[m as int]);
            return false;
        }
        m = m + 1;
    }
    assert(h@.subrange(i as int, i + n@.len()) =~= n@);
    true
}

/// The characters of the first `n` bytes (at most) of `bytes`, decoded lossily.
pub fn head_of(bytes: &[u8], n: usize) -> (r: Vec<char>)
    ensures
        r@ == head_chars(bytes@, n as int),
{
    let k = if bytes.len() < n {
        bytes.len()
    } else {
        n
    };
    let head = lossy_string(&bytes[0..k]);
    assert(bytes@.subrange(0, k as int) =~= bytes@.take(k as int));
    chars_of(head.as_str())
}

/// Position after the leading Unicode whitespace of `h`.
pub fn skip_leading_ws(h: &[char]) -> (i: usize)
    ensures
        i == crate::text::ws_prefix_end(h@, 0),
{
    let mut i: usize = 0;
    while i < h.len() && is_whitespace_char(h[i])
        invariant
            i <= h@.len(),
            crate::text::ws_prefix_end(h@, i as int) == crate::text::ws_prefix_end(h@, 0),
        decreases h@.len() - i,
    {
        i = i + 1;
    }
    i
}

} // verus!
