//! Choosing the importer for a preset file (the size cap, then the built-in formats in
//! registration order: `.xmp` first, then `.lrtemplate`) and reading the file with it.

use vstd::prelude::*;

use crate::crs::{CrsSettings, SettingsView};
use crate::lr_template::{template_detected, template_outcome, template_text, LightroomTemplate};
use crate::lr_xmp::{xmp_detected, xmp_outcome, LightroomXmp};
use crate::preset_error::PresetError;

verus! {

/// Hard cap on a preset import file's size (4 MiB).
pub const MAX_IMPORT_BYTES: usize = 4194304;

/// The built-in preset formats.
#[derive(Debug, Clone, Copy, PartialEq, Eq, Structural)]
pub enum PresetFormat {
    LightroomXmp,
    LightroomTemplate,
}

/// The decimal digits of `n`.
pub open spec fn decimal(n: nat) -> Seq<char>
    decreases n,
{
    if n < 10 {
        seq![(n + 48) as char]
    } else {
        decimal(n / 10).push(((n % 10) + 48) as char)
    }
}

/// The one-character text of the digit `d`.
fn digit_str(d: usize) -> (r: &'static str)
    requires
        d < 10,
    ensures
        r@ == seq![(d + 48) as char],
{
    match d {
        0 => { proof { reveal_strlit("0"); } "0" },
        1 => { proof { reveal_strlit("1"); } "1" },
        2 => { proof { reveal_strlit("2"); } "2" },
        3 => { proof { reveal_strlit("3"); } "3" },
        4 => { proof { reveal_strlit("4"); } "4" },
        5 => { proof { reveal_strlit("5"); } "5" },
        6 => { proof { reveal_strlit("6"); } "6" },
        7 => { proof { reveal_strlit("7"); } "7" },
        8 => { proof { reveal_strlit("8"); } "8" },
        _ => { proof { reveal_strlit("9"); } "9" },
    }
}

/// The decimal representation of `n`, without sign or padding.
fn decimal_string(n: usize) -> (r: String)
    ensures
        r@ == decimal(n as nat),
    decreases n,
{
    if n < 10 {
        digit_str(n).to_owned()
    } else {
        let mut s = decimal_string(n / 10);
        s.append(digit_str(n % 10));
        s
    }
}

/// The message for a file of `len` bytes over the cap.
pub open spec fn too_large_message(len: nat) -> Seq<char> {
    "preset file too large ("@ + decimal(len) + " bytes; max "@ + decimal(MAX_IMPORT_BYTES as nat)
        + ")"@
}

/// Refuses a file larger than [`MAX_IMPORT_BYTES`].
pub fn check_import_size(len: usize) -> (r: Result<(), PresetError>)
    ensures
        len <= MAX_IMPORT_BYTES ==> r is Ok,
        len > MAX_IMPORT_BYTES ==> (r matches Err(PresetError::Malformed(m)) && m@
            == too_large_message(len as nat)),
{
    if len > MAX_IMPORT_BYTES {
        let mut m = "preset file too large (".to_owned();
        let a = decimal_string(len);
        m.append(a.as_str());
        m.append(" bytes; max ");
        let b = decimal_string(MAX_IMPORT_BYTES);
        m.append(b.as_str());
        m.append(")");
        return Err(PresetError::Malformed(m));
    }
    Ok(())
}

/// The first of a list of importers that claims a file, given whether each claims it.
pub fn first_claiming(claims: &[bool]) -> (r: Option<usize>)
    ensures
        match r {
            Some(i) => i < claims@.len() && claims@[i as int] && forall|j: int| 0 <= j < i ==> !#[trigger] claims@[j],
            None => forall|j: int| 0 <= j < claims@.len() ==> !#[trigger] claims@[j],
        },
{
    let mut k: usize = 0;
    while k < claims.len()
        invariant
            k <= claims@.len(),
            forall|j: int| 0 <= j < k ==> !#[trigger] claims@[j],
        decreases claims@.len() - k,
    {
        if claims[k] {
            return Some(k);
        }
        k = k + 1;
    }
    None
}

/// The built-in format that claims a file, trying them in registration order.
pub open spec fn builtin_format(bytes: Seq<u8>, ext: Option<&str>) -> Option<PresetFormat> {
    if xmp_detected(bytes, ext) {
        Some(PresetFormat::LightroomXmp)
    } else if template_detected(bytes, ext) {
        Some(PresetFormat::LightroomTemplate)
    } else {
        None
    }
}

/// Chooses the built-in importer for a file: over-large files and files no importer claims are
/// refused.
pub fn select_format(bytes: &[u8], ext: Option<&str>) -> (r: Result<PresetFormat, PresetError>)
    ensures
        bytes@.len() > MAX_IMPORT_BYTES ==> (r matches Err(PresetError::Malformed(m)) && m@
            == too_large_message(bytes@.len())),
        bytes@.len() <= MAX_IMPORT_BYTES ==> match builtin_format(bytes@, ext) {
            Some(f) => r == Ok::<PresetFormat, PresetError>(f),
            None => r matches Err(PresetError::UnknownFormat),
        },
{
    match check_import_size(bytes.len()) {
        Err(e) => {
            return Err(e);
        },
        Ok(()) => {},
    }
    if LightroomXmp.detect(bytes, ext) {
        Ok(PresetFormat::LightroomXmp)
    } else if LightroomTemplate.detect(bytes, ext) {
        Ok(PresetFormat::LightroomTemplate)
    } else {
        Err(PresetError::UnknownFormat)
    }
}

/// What the built-in importer of a format reads from a file: its settings, or the error's text.
pub open spec fn format_outcome(f: PresetFormat, bytes: Seq<u8>) -> Result<SettingsView, Seq<char>> {
    match f {
        PresetFormat::LightroomXmp => xmp_outcome(bytes),
        PresetFormat::LightroomTemplate => template_outcome(template_text(bytes)),
    }
}

/// Detect, then parse: the built-in importer that claims a file reads its settings. Over-large
/// files and files no importer claims are refused; a claimed file that does not read is refused with
/// its importer's error.
pub fn read_preset(bytes: &[u8], ext: Option<&str>) -> (r: Result<(PresetFormat, CrsSettings), PresetError>)
    ensures
        bytes@.len() > MAX_IMPORT_BYTES ==> (r matches Err(PresetError::Malformed(m)) && m@
            == too_large_message(bytes@.len())),
        bytes@.len() <= MAX_IMPORT_BYTES ==> match builtin_format(bytes@, ext) {
            None => r matches Err(PresetError::UnknownFormat),
            Some(f) => match format_outcome(f, bytes@) {
                Ok(v) => r matches Ok((g, st)) && g == f && st.view() == v,
                Err(m) => r matches Err(PresetError::Malformed(x)) && x@ == m,
            },
        },
{
    let f = match select_format(bytes, ext) {
        Ok(f) => f,
        Err(e) => {
            return Err(e);
        },
    };
    let settings = match f {
        PresetFormat::LightroomXmp => LightroomXmp.read_settings(bytes),
        PresetFormat::LightroomTemplate => LightroomTemplate.read_settings(bytes),
    };
    match settings {
        Ok(st) => Ok((f, st)),
        Err(e) => Err(e),
    }
}

} // verus!
