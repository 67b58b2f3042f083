//! Read-only macOS pinned-launcher references: local bundle paths and identities.
use vstd::prelude::*;
use vstd::utf8::*;
use crate::text::{byte_len, chars_of, no_controls, trim, str_eq};
use crate::json::{JsonValue, field, get};

verus! {

pub const MAX_BUNDLE_ID_BYTES: usize = 512;
pub const MAX_PATH_BYTES: usize = 4096;
/// Largest Dock or Sidebar configuration read.
pub const MAX_CONFIG_BYTES: usize = 1024 * 1024;
/// Sidebar stores hundreds of records, many not pinned; no Dock holds more.
pub const MAX_RECORDS: usize = 512;
/// A working Dock cannot meaningfully pin more launchers than this.
pub const MAX_PINS: usize = 64;

/// One discovered pin in configured order: an optional declared identity and
/// the decoded local application path.
pub struct PinCandidate {
    pub id: Option<String>,
    pub path: String,
}

/// Why a macOS launcher reference was refused.
#[derive(Clone, Copy, Debug, PartialEq, Eq, Structural)]
pub enum PinError {
    NoLocalPath,
    RemoteHost,
    NotAbsolute,
    NotLocal,
    PathTooLong,
    PathControls,
    IncompleteEscape,
    InvalidEscape,
    NotUtf8,
    UnsafeBundleId,
    DockNotArray,
    TooManyTiles,
    TileNotObject,
    NoTileType,
    NoTileData,
    BundleIdNotText,
    NoFileData,
    NoFileUrl,
    InvalidFileUrl,
    SidebarNotArray,
    TooManyRecords,
    RecordNotObject,
    TypeNotInteger,
    NoIdentity,
    KeepInDockNotBoolean,
    PinnedToMainNotBoolean,
    HiddenNotBoolean,
    PinnedScreensNotList,
    PinnedScreensEntries,
    TooManyPins,
    NoBundleUrl,
    InvalidBundleUrl,
    InvalidSortOrder,
    TooManyApplications,
    LookupFailed,
}

impl PinError {
    pub fn message(self) -> (r: &'static str)
        ensures
            r@ == (match self {
                PinError::NoLocalPath => "File URL has no local path"@,
                PinError::RemoteHost => "File URL must address this machine"@,
                PinError::NotAbsolute => "File URL path must be absolute"@,
                PinError::NotLocal => "Only local file URLs identify macOS applications"@,
                PinError::PathTooLong => "Application path exceeds the supported length"@,
                PinError::PathControls => "Application path contains control characters"@,
                PinError::IncompleteEscape => "Incomplete percent escape"@,
                PinError::InvalidEscape => "Invalid percent escape"@,
                PinError::NotUtf8 => "Percent escape is not UTF-8"@,
                PinError::UnsafeBundleId => "Unsafe application bundle identifier"@,
                PinError::DockNotArray => "Dock persistent-apps must be a JSON array"@,
                PinError::TooManyTiles => "Too many Dock persistent-apps tiles"@,
                PinError::TileNotObject => "Dock persistent-apps tile must be an object"@,
                PinError::NoTileType => "Dock tile has no tile-type"@,
                PinError::NoTileData => "Dock file-tile has no tile-data object"@,
                PinError::BundleIdNotText => "Dock bundle-identifier must be a string"@,
                PinError::NoFileData => "Dock file-tile has no file-data object"@,
                PinError::NoFileUrl => "Dock file-tile has no file URL"@,
                PinError::InvalidFileUrl => "Invalid Dock file-tile URL"@,
                PinError::SidebarNotArray => "Sidebar configuration must be a JSON array"@,
                PinError::TooManyRecords => "Too many Sidebar configuration records"@,
                PinError::RecordNotObject => "Sidebar configuration record must be an object"@,
                PinError::TypeNotInteger => "Sidebar record type must be an integer"@,
                PinError::NoIdentity => "Sidebar application record has no string identity"@,
                PinError::KeepInDockNotBoolean => "Sidebar keepInDock must be a boolean"@,
                PinError::PinnedToMainNotBoolean => "Sidebar pinnedToMainScreen must be a boolean"@,
                PinError::HiddenNotBoolean => "Sidebar hiddenInDock must be a boolean"@,
                PinError::PinnedScreensNotList => "Sidebar pinnedScreens must be a list"@,
                PinError::PinnedScreensEntries => "Sidebar pinnedScreens entries must be numbers or strings"@,
                PinError::TooManyPins => "At most 64 pinned applications are supported"@,
                PinError::NoBundleUrl => "Pinned Sidebar record has no bundle URL"@,
                PinError::InvalidBundleUrl => "Invalid Sidebar bundle URL"@,
                PinError::InvalidSortOrder => "Sidebar manualSortOrder must be a finite number or null"@,
                PinError::TooManyApplications => "At most 64 unique pinned applications are supported"@,
                PinError::LookupFailed => "Installed application lookup failed"@,
            }),
    {
        match self {
            PinError::NoLocalPath => "File URL has no local path",
            PinError::RemoteHost => "File URL must address this machine",
            PinError::NotAbsolute => "File URL path must be absolute",
            PinError::NotLocal => "Only local file URLs identify macOS applications",
            PinError::PathTooLong => "Application path exceeds the supported length",
            PinError::PathControls => "Application path contains control characters",
            PinError::IncompleteEscape => "Incomplete percent escape",
            PinError::InvalidEscape => "Invalid percent escape",
            PinError::NotUtf8 => "Percent escape is not UTF-8",
            PinError::UnsafeBundleId => "Unsafe application bundle identifier",
            PinError::DockNotArray => "Dock persistent-apps must be a JSON array",
            PinError::TooManyTiles => "Too many Dock persistent-apps tiles",
            PinError::TileNotObject => "Dock persistent-apps tile must be an object",
            PinError::NoTileType => "Dock tile has no tile-type",
            PinError::NoTileData => "Dock file-tile has no tile-data object",
            PinError::BundleIdNotText => "Dock bundle-identifier must be a string",
            PinError::NoFileData => "Dock file-tile has no file-data object",
            PinError::NoFileUrl => "Dock file-tile has no file URL",
            PinError::InvalidFileUrl => "Invalid Dock file-tile URL",
            PinError::SidebarNotArray => "Sidebar configuration must be a JSON array",
            PinError::TooManyRecords => "Too many Sidebar configuration records",
            PinError::RecordNotObject => "Sidebar configuration record must be an object",
            PinError::TypeNotInteger => "Sidebar record type must be an integer",
            PinError::NoIdentity => "Sidebar application record has no string identity",
            PinError::KeepInDockNotBoolean => "Sidebar keepInDock must be a boolean",
            PinError::PinnedToMainNotBoolean => "Sidebar pinnedToMainScreen must be a boolean",
            PinError::HiddenNotBoolean => "Sidebar hiddenInDock must be a boolean",
            PinError::PinnedScreensNotList => "Sidebar pinnedScreens must be a list",
            PinError::PinnedScreensEntries => "Sidebar pinnedScreens entries must be numbers or strings",
            PinError::TooManyPins => "At most 64 pinned applications are supported",
            PinError::NoBundleUrl => "Pinned Sidebar record has no bundle URL",
            PinError::InvalidBundleUrl => "Invalid Sidebar bundle URL",
            PinError::InvalidSortOrder => "Sidebar manualSortOrder must be a finite number or null",
            PinError::TooManyApplications => "At most 64 unique pinned applications are supported",
            PinError::LookupFailed => "Installed application lookup failed",
        }
    }
}

/// `b` with every `%HH` escape replaced by its byte.
pub open spec fn percent_bytes(b: Seq<u8>) -> Result<Seq<u8>, PinError>
    decreases b.len(),
{
    if b.len() == 0 {
        Ok(Seq::empty())
    } else if b[0] != 0x25 {
        match percent_bytes(b.drop_first()) {
            Ok(r) => Ok(seq![b[0]] + r),
            Err(e) => Err(e),
        }
    } else if b.len() < 3 {
        Err(PinError::IncompleteEscape)
    } else {
        match (super::hex_value(b[1]), super::hex_value(b[2])) {
            (Some(h), Some(l)) => match percent_bytes(b.subrange(3, b.len() as int)) {
                Ok(r) => Ok(seq![(h * 16 + l) as u8] + r),
                Err(e) => Err(e),
            },
            _ => Err(PinError::InvalidEscape),
        }
    }
}

/// The text a percent-encoded path stands for.
pub open spec fn percent_text(v: Seq<char>) -> Result<Seq<char>, PinError> {
    match percent_bytes(encode_utf8(v)) {
        Err(e) => Err(e),
        Ok(b) => if valid_utf8(b) {
            Ok(decode_utf8(b))
        } else {
            Err(PinError::NotUtf8)
        },
    }
}

fn percent_decode(chars: &[char], start: usize, end: usize) -> (r: Result<Vec<char>, PinError>)
    requires
        start <= end <= chars@.len(),
    ensures
        match percent_text(chars@.subrange(start as int, end as int)) {
            Ok(t) => r matches Ok(v) && v@ == t,
            Err(e) => r == Err::<Vec<char>, PinError>(e),
        },
{
    let mut bytes: Vec<u8> = Vec::new();
    let mut i = start;
    while i < end
        invariant
            start <= i <= end <= chars@.len(),
            bytes@ == encode_utf8(chars@.subrange(start as int, i as int)),
        decreases end - i,
    {
        proof {
            crate::text::lemma_encode_push(chars@.subrange(start as int, i as int), chars@[i as int]);
            assert(chars@.subrange(start as int, i + 1) =~= chars@.subrange(start as int, i as int).push(chars@[i as int]));
        }
        crate::text::push_utf8(&mut bytes, chars[i]);
        i += 1;
    }
    let ghost b = bytes@;
    let n = bytes.len();
    let mut out: Vec<u8> = Vec::new();
    let mut k: usize = 0;
    assert(b.subrange(0, n as int) =~= b);
    while k < n
        invariant
            n == b.len(),
            bytes@ == b,
            start <= end <= chars@.len(),
            b == encode_utf8(chars@.subrange(start as int, end as int)),
            k <= n,
            percent_bytes(b) == (match percent_bytes(b.subrange(k as int, n as int)) {
                Ok(r) => Ok(out@ + r),
                Err(e) => Err(e),
            }),
        decreases n - k,
    {
        let ghost w = b.subrange(k as int, n as int);
        let ghost before = out@;
        if bytes[k] != 0x25 {
            assert(w.drop_first() =~= b.subrange(k + 1, n as int));
            out.push(bytes[k]);
            proof {
                match percent_bytes(b.subrange(k + 1, n as int)) {
                    Ok(r) => {
                        assert(before + (seq![b[k as int]] + r) =~= out@ + r);
                    },
                    Err(e) => {},
                }
            }
            k += 1;
            continue;
        }
        if n - k < 3 {
            return Err(PinError::IncompleteEscape);
        }
        let high = match super::hex(bytes[k + 1]) {
            Ok(h) => h,
            Err(_) => return Err(PinError::InvalidEscape),
        };
        let low = match super::hex(bytes[k + 2]) {
            Ok(l) => l,
            Err(_) => return Err(PinError::InvalidEscape),
        };
        assert(w.subrange(3, w.len() as int) =~= b.subrange(k + 3, n as int));
        out.push(high * 16 + low);
        proof {
            match percent_bytes(b.subrange(k + 3, n as int)) {
                Ok(r) => {
                    assert(before + (seq![(high * 16 + low) as u8] + r) =~= out@ + r);
                },
                Err(e) => {},
            }
        }
        k += 3;
    }
    assert(percent_bytes(b.subrange(k as int, n as int)) == Ok::<Seq<u8>, PinError>(Seq::empty()));
    assert(out@ + Seq::<u8>::empty() =~= out@);
    match String::from_utf8(out) {
        Ok(text) => Ok(chars_of(text.as_str())),
        Err(_) => Err(PinError::NotUtf8),
    }
}

/// The local POSIX path a `file://` URL (empty or `localhost` host) or a plain
/// absolute path names.
pub open spec fn local_path_of(value: Seq<char>) -> Result<Seq<char>, PinError> {
    let path = if super::has_prefix(value, "file://"@) {
        let rest = value.subrange("file://"@.len() as int, value.len() as int);
        match crate::text::find(rest, seq!['/']) {
            None => Err(PinError::NoLocalPath),
            Some(i) => {
                let host = rest.subrange(0, i);
                if !(host.len() == 0 || host == "localhost"@) {
                    Err(PinError::RemoteHost)
                } else {
                    match percent_text(rest.subrange(i, rest.len() as int)) {
                        Err(e) => Err(e),
                        Ok(d) => if d.len() > 0 && d[0] == '/' {
                            Ok(d)
                        } else {
                            Err(PinError::NotAbsolute)
                        },
                    }
                }
            },
        }
    } else if value.len() > 0 && value[0] == '/' {
        Ok(value)
    } else {
        Err(PinError::NotLocal)
    };
    match path {
        Err(e) => Err(e),
        Ok(p) => if byte_len(p) > MAX_PATH_BYTES {
            Err(PinError::PathTooLong)
        } else if !no_controls(p) {
            Err(PinError::PathControls)
        } else {
            Ok(p)
        },
    }
}

/// Decodes a `file://` URL (or a plain absolute Dock path) into a local path.
/// Remote, relative or malformed references fail closed.
pub fn local_path(value: &str) -> (r: Result<String, PinError>)
    ensures
        match local_path_of(value@) {
            Ok(p) => r matches Ok(s) && s@ == p,
            Err(e) => r == Err::<String, PinError>(e),
        },
{
    let chars = chars_of(value);
    let n = chars.len();
    assert(chars@.subrange(0, n as int) =~= chars@);
    let path: Vec<char> = if crate::text::starts_with_lit(chars.as_slice(), 0, n, "file://") {
        let skip = chars_of("file://").len();
        let ghost rest = chars@.subrange(skip as int, n as int);
        let slash = ['/'];
        assert(slash@ =~= seq!['/']);
        let found = crate::text::find_in(chars.as_slice(), skip, n, &slash);
        proof {
            let s = chars@.subrange(0, n as int);
            crate::text::lemma_find_shift(s, skip as int, seq!['/'], skip as int);
            assert(s.subrange(skip as int, s.len() as int) =~= rest);
            crate::text::lemma_find_from_bounds(rest, seq!['/'], 0);
        }
        let i = match found {
            None => return Err(PinError::NoLocalPath),
            Some(i) => i,
        };
        proof {
            let j = crate::text::find(rest, seq!['/'])->0;
            assert(i == j + skip);
            assert(rest.subrange(0, j) =~= chars@.subrange(skip as int, i as int));
            assert(rest.subrange(j, rest.len() as int) =~= chars@.subrange(i as int, n as int));
        }
        if !(i == skip || crate::text::eq_lit(chars.as_slice(), skip, i, "localhost")) {
            return Err(PinError::RemoteHost);
        }
        let decoded = match percent_decode(chars.as_slice(), i, n) {
            Err(e) => return Err(e),
            Ok(d) => d,
        };
        if !(decoded.len() > 0 && decoded[0] == '/') {
            return Err(PinError::NotAbsolute);
        }
        decoded
    } else if n > 0 && chars[0] == '/' {
        chars
    } else {
        return Err(PinError::NotLocal);
    };
    let m = path.len();
    assert(path@.subrange(0, m as int) =~= path@);
    proof {
        crate::text::lemma_byte_len_at_least_len(path@);
    }
    if m > MAX_PATH_BYTES {
        return Err(PinError::PathTooLong);
    }
    proof {
        crate::text::lemma_byte_len_at_most(path@);
    }
    if crate::text::utf8_len(path.as_slice(), 0, m) > MAX_PATH_BYTES {
        return Err(PinError::PathTooLong);
    }
    if !crate::text::controls_absent(path.as_slice(), 0, m) {
        return Err(PinError::PathControls);
    }
    Ok(crate::text::string_of(path.as_slice(), 0, m))
}

/// A bundle identifier: non-empty, no surrounding whitespace, at most 512
/// bytes, no control characters.
pub open spec fn is_bundle_id(id: Seq<char>) -> bool {
    id.len() > 0 && trim(id) == id && byte_len(id) <= MAX_BUNDLE_ID_BYTES && no_controls(id)
}

pub fn validate_id(id: &str) -> (r: Result<(), PinError>)
    ensures
        r is Ok <==> is_bundle_id(id@),
        r is Err ==> r == Err::<(), PinError>(PinError::UnsafeBundleId),
{
    let chars = chars_of(id);
    let n = chars.len();
    assert(chars@.subrange(0, n as int) =~= chars@);
    if n > 0 && crate::text::is_trimmed(chars.as_slice()) && crate::text::str_byte_len(id) <= MAX_BUNDLE_ID_BYTES
        && crate::text::controls_absent(chars.as_slice(), 0, n) {
        Ok(())
    } else {
        Err(PinError::UnsafeBundleId)
    }
}


/// A pin as plain values: its declared identity and its local path.
pub type PinView = (Option<Seq<char>>, Seq<char>);

pub open spec fn pin_view(c: PinCandidate) -> PinView {
    (match c.id { Some(s) => Some(s@), None => None }, c.path@)
}

pub open spec fn pin_views(v: Seq<PinCandidate>) -> Seq<PinView> {
    v.map_values(|c: PinCandidate| pin_view(c))
}

/// The text under `key`, if that value is a string.
pub open spec fn text_field(fields: Seq<(String, JsonValue)>, key: Seq<char>) -> Option<Seq<char>> {
    match field(fields, key) {
        Some(JsonValue::Text(s)) => Some(s@),
        _ => None,
    }
}

fn text_of<'a>(v: Option<&'a JsonValue>) -> (r: Option<&'a String>)
    ensures
        match v {
            Some(JsonValue::Text(s)) => r matches Some(x) && *x == s,
            _ => r is None,
        },
{
    match v {
        Some(JsonValue::Text(s)) => Some(s),
        _ => None,
    }
}

/// What one Dock `persistent-apps` tile contributes: a pin for a file tile,
/// nothing for spacer, directory, URL and other tiles.
pub open spec fn dock_tile(tile: JsonValue) -> Result<Option<PinView>, PinError> {
    match tile {
        JsonValue::Object(fields) => match text_field(fields@, "tile-type"@) {
            None => Err(PinError::NoTileType),
            Some(t) => if t != "file-tile"@ {
                Ok(None)
            } else {
                match field(fields@, "tile-data"@) {
                    Some(JsonValue::Object(data)) => {
                        let declared: Result<Option<Seq<char>>, PinError> = match field(data@, "bundle-identifier"@) {
                            None => Ok(None),
                            Some(JsonValue::Text(id)) => if is_bundle_id(id@) {
                                Ok(Some(id@))
                            } else {
                                Err(PinError::UnsafeBundleId)
                            },
                            Some(_) => Err(PinError::BundleIdNotText),
                        };
                        match declared {
                            Err(e) => Err(e),
                            Ok(d) => match field(data@, "file-data"@) {
                                Some(JsonValue::Object(file)) => match text_field(file@, "_CFURLString"@) {
                                    None => Err(PinError::NoFileUrl),
                                    Some(u) => match local_path_of(u) {
                                        Ok(p) => Ok(Some((d, p))),
                                        Err(_) => Err(PinError::InvalidFileUrl),
                                    },
                                },
                                _ => Err(PinError::NoFileData),
                            },
                        }
                    },
                    _ => Err(PinError::NoTileData),
                }
            },
        },
        _ => Err(PinError::TileNotObject),
    }
}

/// Some pin of `c` declares the identity `id`.
pub open spec fn declares(c: Seq<PinView>, id: Seq<char>) -> bool {
    exists|i: int| 0 <= i < c.len() && (#[trigger] c[i]).0 == Some(id)
}

/// The pins of the tiles `tiles`, in order; a later tile declaring an
/// identity already pinned is dropped.
pub open spec fn dock_scan(tiles: Seq<JsonValue>) -> Result<Seq<PinView>, PinError>
    decreases tiles.len(),
{
    if tiles.len() == 0 {
        Ok(Seq::empty())
    } else {
        match dock_scan(tiles.drop_last()) {
            Err(e) => Err(e),
            Ok(c) => match dock_tile(tiles.last()) {
                Err(e) => Err(e),
                Ok(None) => Ok(c),
                Ok(Some((d, p))) => if d is Some && declares(c, d->0) {
                    Ok(c)
                } else {
                    Ok(c.push((d, p)))
                },
            },
        }
    }
}

/// The pins of a Dock `persistent-apps` array.
pub open spec fn dock_pins_of(root: JsonValue) -> Result<Seq<PinView>, PinError> {
    match root {
        JsonValue::Array(tiles) => if tiles@.len() > MAX_RECORDS {
            Err(PinError::TooManyTiles)
        } else {
            dock_scan(tiles@)
        },
        _ => Err(PinError::DockNotArray),
    }
}

/// No two pins declare the same identity.
pub open spec fn declared_once(c: Seq<PinView>) -> bool {
    forall|i: int, j: int| 0 <= i < j < c.len() && (#[trigger] c[i]).0 is Some ==> c[i].0 != (#[trigger] c[j]).0
}

proof fn lemma_dock_scan_once(tiles: Seq<JsonValue>)
    ensures
        dock_scan(tiles) matches Ok(c) ==> declared_once(c),
    decreases tiles.len(),
{
    if tiles.len() > 0 {
        lemma_dock_scan_once(tiles.drop_last());
        match dock_scan(tiles.drop_last()) {
            Err(_) => {},
            Ok(c) => match dock_tile(tiles.last()) {
                Ok(Some((d, p))) => if !(d is Some && declares(c, d->0)) {
                    let out = c.push((d, p));
                    assert forall|i: int, j: int| 0 <= i < j < out.len() && (#[trigger] out[i]).0 is Some implies out[i].0 != (#[trigger] out[j]).0 by {
                        if j == c.len() {
                            assert(out[i] == c[i]);
                            if d is Some {
                                assert(c[i].0 != Some(d->0));
                            }
                        } else {
                            assert(out[i] == c[i] && out[j] == c[j]);
                        }
                    }
                },
                _ => {},
            },
        }
    }
}

/// The Dock pins declare each identity at most once.
pub proof fn lemma_dock_identities_once(root: JsonValue)
    ensures
        dock_pins_of(root) matches Ok(c) ==> declared_once(c),
{
    if let JsonValue::Array(tiles) = root {
        lemma_dock_scan_once(tiles@);
    }
}

fn dock_tile_pin(tile: &JsonValue) -> (r: Result<Option<PinCandidate>, PinError>)
    ensures
        match dock_tile(*tile) {
            Err(e) => r == Err::<Option<PinCandidate>, PinError>(e),
            Ok(None) => r matches Ok(None),
            Ok(Some(v)) => r matches Ok(Some(c)) && pin_view(c) == v,
        },
{
    let fields = match tile {
        JsonValue::Object(f) => f,
        _ => return Err(PinError::TileNotObject),
    };
    let kind = match text_of(get(fields, "tile-type")) {
        None => return Err(PinError::NoTileType),
        Some(k) => k,
    };
    if !str_eq(kind.as_str(), "file-tile") {
        return Ok(None);
    }
    let data = match get(fields, "tile-data") {
        Some(JsonValue::Object(d)) => d,
        _ => return Err(PinError::NoTileData),
    };
    let declared = match get(data, "bundle-identifier") {
        None => None,
        Some(JsonValue::Text(id)) => {
            match validate_id(id.as_str()) {
                Err(e) => return Err(e),
                Ok(()) => {},
            }
            Some(id.clone())
        },
        Some(_) => return Err(PinError::BundleIdNotText),
    };
    let file = match get(data, "file-data") {
        Some(JsonValue::Object(f)) => f,
        _ => return Err(PinError::NoFileData),
    };
    let url = match text_of(get(file, "_CFURLString")) {
        None => return Err(PinError::NoFileUrl),
        Some(u) => u,
    };
    let path = match local_path(url.as_str()) {
        Ok(p) => p,
        Err(_) => return Err(PinError::InvalidFileUrl),
    };
    Ok(Some(PinCandidate { id: declared, path }))
}

fn declared_in(c: &Vec<PinCandidate>, id: &str) -> (r: bool)
    ensures
        r == declares(pin_views(c@), id@),
{
    let mut i: usize = 0;
    while i < c.len()
        invariant
            i <= c@.len(),
            forall|k: int| 0 <= k < i ==> (#[trigger] pin_views(c@)[k]).0 != Some(id@),
        decreases c@.len() - i,
    {
        assert(pin_views(c@)[i as int] == pin_view(c@[i as int]));
        match &c[i].id {
            Some(x) => {
                if str_eq(x.as_str(), id) {
                    return true;
                }
            },
            None => {},
        }
        i += 1;
    }
    false
}

/// Parses the serialized Dock `persistent-apps` array. Only file tiles are
/// pins; spacer, directory, URL and unknown tiles are ignored and recent or
/// running applications are never made pins. A declared `bundle-identifier`
/// is confirmed against the installed bundle later; Dock labels are never
/// used. Wrong-typed required fields and non-local URLs fail the snapshot.
pub fn dock_pins(root: &JsonValue) -> (r: Result<Vec<PinCandidate>, PinError>)
    ensures
        match dock_pins_of(*root) {
            Err(e) => r == Err::<Vec<PinCandidate>, PinError>(e),
            Ok(v) => r matches Ok(c) && pin_views(c@) == v,
        },
{
    let tiles = match root {
        JsonValue::Array(t) => t,
        _ => return Err(PinError::DockNotArray),
    };
    if tiles.len() > MAX_RECORDS {
        return Err(PinError::TooManyTiles);
    }
    let mut out: Vec<PinCandidate> = Vec::new();
    let mut i: usize = 0;
    assert(tiles@.take(0) =~= Seq::<JsonValue>::empty());
    assert(pin_views(out@) =~= Seq::<PinView>::empty());
    while i < tiles.len()
        invariant
            i <= tiles@.len(),
            dock_pins_of(*root) == dock_scan(tiles@),
            dock_scan(tiles@.take(i as int)) == Ok::<Seq<PinView>, PinError>(pin_views(out@)),
        decreases tiles@.len() - i,
    {
        assert(tiles@.take(i + 1).drop_last() =~= tiles@.take(i as int));
        assert(tiles@.take(i + 1).last() == tiles@[i as int]);
        match dock_tile_pin(&tiles[i]) {
            Err(e) => {
                proof {
                    lemma_dock_error(tiles@, i + 1, e);
                }
                return Err(e);
            },
            Ok(None) => {},
            Ok(Some(pin)) => {
                let skip = match &pin.id {
                    Some(id) => declared_in(&out, id.as_str()),
                    None => false,
                };
                if !skip {
                    let ghost before = out@;
                    out.push(pin);
                    assert(pin_views(out@) =~= pin_views(before).push(pin_view(pin)));
                }
            },
        }
        i += 1;
    }
    assert(tiles@.take(i as int) =~= tiles@);
    Ok(out)
}

pub(crate) proof fn lemma_dock_error(tiles: Seq<JsonValue>, k: int, e: PinError)
    requires
        0 <= k <= tiles.len(),
        dock_scan(tiles.take(k)) == Err::<Seq<PinView>, PinError>(e),
    ensures
        dock_scan(tiles) == Err::<Seq<PinView>, PinError>(e),
    decreases tiles.len() - k,
{
    if k < tiles.len() {
        assert(tiles.take(k + 1).drop_last() =~= tiles.take(k));
        lemma_dock_error(tiles, k + 1, e);
    } else {
        assert(tiles.take(k) =~= tiles);
    }
}

/// A flag of a Sidebar record: absent means unset.
pub open spec fn flag_of(fields: Seq<(String, JsonValue)>, key: Seq<char>, err: PinError) -> Result<bool, PinError> {
    match field(fields, key) {
        None => Ok(false),
        Some(JsonValue::Bool(b)) => Ok(b),
        Some(_) => Err(err),
    }
}

fn flag(fields: &Vec<(String, JsonValue)>, key: &str, err: PinError) -> (r: Result<bool, PinError>)
    ensures
        r == flag_of(fields@, key@, err),
{
    match get(fields, key) {
        None => Ok(false),
        Some(JsonValue::Bool(b)) => Ok(*b),
        Some(_) => Err(err),
    }
}

pub open spec fn screen_entry(v: JsonValue) -> bool {
    v is Number || v is Text
}

/// Whether the record is pinned to particular screens.
pub open spec fn screens_of(fields: Seq<(String, JsonValue)>) -> Result<bool, PinError> {
    match field(fields, "pinnedScreens"@) {
        None => Ok(false),
        Some(JsonValue::Array(items)) => if forall|i: int| 0 <= i < items@.len() ==> screen_entry(#[trigger] items@[i]) {
            Ok(items@.len() > 0)
        } else {
            Err(PinError::PinnedScreensEntries)
        },
        Some(_) => Err(PinError::PinnedScreensNotList),
    }
}

fn screens(fields: &Vec<(String, JsonValue)>) -> (r: Result<bool, PinError>)
    ensures
        r == screens_of(fields@),
{
    match get(fields, "pinnedScreens") {
        None => Ok(false),
        Some(JsonValue::Array(items)) => {
            let mut i: usize = 0;
            while i < items.len()
                invariant
                    i <= items@.len(),
                    field(fields@, "pinnedScreens"@) == Some(JsonValue::Array(*items)),
                    forall|k: int| 0 <= k < i ==> screen_entry(#[trigger] items@[k]),
                decreases items@.len() - i,
            {
                match &items[i] {
                    JsonValue::Number(_) | JsonValue::Text(_) => {},
                    _ => {
                        assert(!screen_entry(items@[i as int]));
                        return Err(PinError::PinnedScreensEntries);
                    },
                }
                i += 1;
            }
            Ok(items.len() > 0)
        },
        Some(_) => Err(PinError::PinnedScreensNotList),
    }
}

/// The manual sort position of a record, if it has one.
pub open spec fn order_of(fields: Seq<(String, JsonValue)>) -> Result<Option<u64>, PinError> {
    match field(fields, "manualSortOrder"@) {
        None => Ok(None),
        Some(JsonValue::Null) => Ok(None),
        Some(JsonValue::Number(n)) => match n.order {
            Some(o) => Ok(Some(o)),
            None => Err(PinError::InvalidSortOrder),
        },
        Some(_) => Err(PinError::InvalidSortOrder),
    }
}

/// A visible Sidebar pin: its manual sort position, identity and path.
pub type SidebarPin = (Option<u64>, Seq<char>, Seq<char>);

/// Some pin of `c` has the identity `id`.
pub open spec fn has_identity(c: Seq<SidebarPin>, id: Seq<char>) -> bool {
    exists|i: int| 0 <= i < c.len() && (#[trigger] c[i]).1 == id
}

/// What one Sidebar record adds to the pins `c`: non-application items,
/// unpinned or hidden applications and identities already pinned add nothing.
pub open spec fn sidebar_record(c: Seq<SidebarPin>, record: JsonValue) -> Result<Option<SidebarPin>, PinError> {
    match record {
        JsonValue::Object(fields) => {
            let kind = match field(fields@, "type"@) {
                Some(JsonValue::Number(n)) => n.integer,
                _ => None,
            };
            match kind {
                None => Err(PinError::TypeNotInteger),
                Some(k) => if k != 0 {
                    Ok(None)
                } else {
                    match text_field(fields@, "id"@) {
                        None => Err(PinError::NoIdentity),
                        Some(id) => if !is_bundle_id(id) {
                            Err(PinError::UnsafeBundleId)
                        } else {
                            match flag_of(fields@, "keepInDock"@, PinError::KeepInDockNotBoolean) {
                                Err(e) => Err(e),
                                Ok(keep) => match flag_of(fields@, "pinnedToMainScreen"@, PinError::PinnedToMainNotBoolean) {
                                    Err(e) => Err(e),
                                    Ok(main) => match flag_of(fields@, "hiddenInDock"@, PinError::HiddenNotBoolean) {
                                        Err(e) => Err(e),
                                        Ok(hidden) => match screens_of(fields@) {
                                            Err(e) => Err(e),
                                            Ok(screens) => if !((keep || main || screens) && !hidden) || has_identity(c, id) {
                                                Ok(None)
                                            } else if c.len() >= MAX_PINS {
                                                Err(PinError::TooManyPins)
                                            } else {
                                                match text_field(fields@, "bundleURL"@) {
                                                    None => Err(PinError::NoBundleUrl),
                                                    Some(u) => match local_path_of(u) {
                                                        Err(_) => Err(PinError::InvalidBundleUrl),
                                                        Ok(p) => match order_of(fields@) {
                                                            Err(e) => Err(e),
                                                            Ok(o) => Ok(Some((o, id, p))),
                                                        },
                                                    },
                                                }
                                            },
                                        },
                                    },
                                },
                            }
                        },
                    }
                },
            }
        },
        _ => Err(PinError::RecordNotObject),
    }
}

/// The visible pins of the Sidebar records `records`, in order.
pub open spec fn sidebar_scan(records: Seq<JsonValue>) -> Result<Seq<SidebarPin>, PinError>
    decreases records.len(),
{
    if records.len() == 0 {
        Ok(Seq::empty())
    } else {
        match sidebar_scan(records.drop_last()) {
            Err(e) => Err(e),
            Ok(c) => match sidebar_record(c, records.last()) {
                Err(e) => Err(e),
                Ok(None) => Ok(c),
                Ok(Some(x)) => Ok(c.push(x)),
            },
        }
    }
}

/// The visible pins of a Sidebar configuration, in configuration order.
pub open spec fn sidebar_pins_of(root: JsonValue) -> Result<Seq<SidebarPin>, PinError> {
    match root {
        JsonValue::Array(records) => if records@.len() > MAX_RECORDS {
            Err(PinError::TooManyRecords)
        } else {
            sidebar_scan(records@)
        },
        _ => Err(PinError::SidebarNotArray),
    }
}

/// No two Sidebar pins have the same identity, and there are at most
/// `MAX_PINS` of them.
pub open spec fn identities_once(c: Seq<SidebarPin>) -> bool {
    &&& c.len() <= MAX_PINS
    &&& forall|i: int, j: int| 0 <= i < j < c.len() ==> (#[trigger] c[i]).1 != (#[trigger] c[j]).1
}

proof fn lemma_sidebar_scan_once(records: Seq<JsonValue>)
    ensures
        sidebar_scan(records) matches Ok(c) ==> identities_once(c),
    decreases records.len(),
{
    if records.len() > 0 {
        lemma_sidebar_scan_once(records.drop_last());
        match sidebar_scan(records.drop_last()) {
            Err(_) => {},
            Ok(c) => match sidebar_record(c, records.last()) {
                Ok(Some(x)) => {
                    assert(!has_identity(c, x.1) && c.len() < MAX_PINS);
                    let out = c.push(x);
                    assert forall|i: int, j: int| 0 <= i < j < out.len() implies (#[trigger] out[i]).1 != (#[trigger] out[j]).1 by {
                        assert(out[i] == c[i]);
                        if j < c.len() {
                            assert(out[j] == c[j]);
                        }
                    }
                },
                _ => {},
            },
        }
    }
}

/// The visible Sidebar pins have each identity once, and at most `MAX_PINS`
/// of them are read.
pub proof fn lemma_sidebar_identities_once(root: JsonValue)
    ensures
        sidebar_pins_of(root) matches Ok(c) ==> identities_once(c),
{
    if let JsonValue::Array(records) = root {
        if records@.len() <= MAX_RECORDS {
            lemma_sidebar_scan_once(records@);
        }
    }
}

pub open spec fn sidebar_view(x: SidebarPin) -> PinView {
    (Some(x.1), x.2)
}

pub open spec fn sidebar_views(s: Seq<SidebarPin>) -> Seq<PinView> {
    s.map_values(|x: SidebarPin| sidebar_view(x))
}

/// Every pin has a manual sort position.
pub open spec fn all_ordered(c: Seq<SidebarPin>) -> bool {
    forall|i: int| 0 <= i < c.len() ==> (#[trigger] c[i]).0 is Some
}

pub open spec fn order_key(x: SidebarPin) -> int {
    match x.0 {
        Some(o) => o as int,
        None => -1,
    }
}

/// The pins of `s` at sort position `k`, in order.
pub open spec fn order_class(s: Seq<SidebarPin>, k: int) -> Seq<SidebarPin>
    decreases s.len(),
{
    if s.len() == 0 {
        Seq::empty()
    } else {
        let before = order_class(s.drop_last(), k);
        if order_key(s.last()) == k {
            before.push(s.last())
        } else {
            before
        }
    }
}

/// `out` holds the pins of `s` by sort position, pins at the same position in
/// their order in `s`.
pub open spec fn stably_ordered(out: Seq<SidebarPin>, s: Seq<SidebarPin>) -> bool {
    &&& forall|i: int, j: int| 0 <= i < j < out.len() ==> order_key(#[trigger] out[i]) <= order_key(#[trigger] out[j])
    &&& forall|k: int| #[trigger] order_class(out, k) == order_class(s, k)
}

pub(crate) proof fn lemma_order_append(a: Seq<SidebarPin>, b: Seq<SidebarPin>, k: int)
    ensures
        order_class(a + b, k) == order_class(a, k) + order_class(b, k),
    decreases b.len(),
{
    if b.len() == 0 {
        assert(a + b =~= a);
        assert(order_class(a, k) + order_class(b, k) =~= order_class(a, k));
    } else {
        assert((a + b).drop_last() =~= a + b.drop_last());
        lemma_order_append(a, b.drop_last(), k);
        if order_key(b.last()) == k {
            assert(order_class(a, k) + order_class(b, k) =~= (order_class(a, k) + order_class(b.drop_last(), k)).push(b.last()));
        }
    }
}

pub(crate) proof fn lemma_order_none(s: Seq<SidebarPin>, k: int)
    requires
        forall|i: int| 0 <= i < s.len() ==> order_key(#[trigger] s[i]) != k,
    ensures
        order_class(s, k) == Seq::<SidebarPin>::empty(),
    decreases s.len(),
{
    if s.len() > 0 {
        lemma_order_none(s.drop_last(), k);
    }
}

pub(crate) proof fn lemma_order_insert(s: Seq<SidebarPin>, p: int, x: SidebarPin, k: int)
    requires
        0 <= p <= s.len(),
        forall|i: int| 0 <= i < p ==> order_key(#[trigger] s[i]) <= order_key(x),
        forall|i: int| p <= i < s.len() ==> order_key(#[trigger] s[i]) > order_key(x),
    ensures
        order_class(s.insert(p, x), k) == (if order_key(x) == k {
            order_class(s, k).push(x)
        } else {
            order_class(s, k)
        }),
{
    let head = s.take(p);
    let tail = s.skip(p);
    assert(s =~= head + tail);
    assert(s.insert(p, x) =~= head.push(x) + tail);
    lemma_order_append(head.push(x), tail, k);
    lemma_order_append(head, tail, k);
    assert(head.push(x).drop_last() =~= head);
    if order_key(x) == k {
        lemma_order_none(tail, k);
        assert(order_class(head, k) + order_class(tail, k) =~= order_class(head, k));
        assert(order_class(head.push(x), k) + order_class(tail, k) =~= order_class(head, k).push(x));
    }
}

/// A pin with its manual sort position.
pub struct OrderedPin {
    pub order: Option<u64>,
    pub pin: PinCandidate,
}

pub open spec fn ordered_view(p: OrderedPin) -> SidebarPin {
    (p.order, match p.pin.id { Some(s) => s@, None => Seq::empty() }, p.pin.path@)
}

pub open spec fn ordered_views(v: Seq<OrderedPin>) -> Seq<SidebarPin> {
    v.map_values(|p: OrderedPin| ordered_view(p))
}

fn sidebar_pin(c: &Vec<OrderedPin>, record: &JsonValue) -> (r: Result<Option<OrderedPin>, PinError>)
    requires
        forall|i: int| 0 <= i < c@.len() ==> (#[trigger] c@[i]).pin.id is Some,
    ensures
        match sidebar_record(ordered_views(c@), *record) {
            Err(e) => r == Err::<Option<OrderedPin>, PinError>(e),
            Ok(None) => r matches Ok(None),
            Ok(Some(x)) => r matches Ok(Some(p)) && ordered_view(p) == x && p.pin.id is Some,
        },
{
    let fields = match record {
        JsonValue::Object(f) => f,
        _ => return Err(PinError::RecordNotObject),
    };
    let kind = match get(fields, "type") {
        Some(JsonValue::Number(n)) => n.integer,
        _ => None,
    };
    let kind = match kind {
        None => return Err(PinError::TypeNotInteger),
        Some(k) => k,
    };
    if kind != 0 {
        return Ok(None);
    }
    let id = match text_of(get(fields, "id")) {
        None => return Err(PinError::NoIdentity),
        Some(i) => i,
    };
    match validate_id(id.as_str()) {
        Err(e) => return Err(e),
        Ok(()) => {},
    }
    let keep = match flag(fields, "keepInDock", PinError::KeepInDockNotBoolean) {
        Err(e) => return Err(e),
        Ok(b) => b,
    };
    let main = match flag(fields, "pinnedToMainScreen", PinError::PinnedToMainNotBoolean) {
        Err(e) => return Err(e),
        Ok(b) => b,
    };
    let hidden = match flag(fields, "hiddenInDock", PinError::HiddenNotBoolean) {
        Err(e) => return Err(e),
        Ok(b) => b,
    };
    let on_screens = match screens(fields) {
        Err(e) => return Err(e),
        Ok(b) => b,
    };
    let mut seen = false;
    let mut i: usize = 0;
    while i < c.len()
        invariant
            i <= c@.len(),
            forall|j: int| 0 <= j < c@.len() ==> (#[trigger] c@[j]).pin.id is Some,
            !seen ==> forall|j: int| 0 <= j < i ==> (#[trigger] ordered_views(c@)[j]).1 != id@,
            seen ==> has_identity(ordered_views(c@), id@),
        decreases c@.len() - i,
    {
        assert(ordered_views(c@)[i as int] == ordered_view(c@[i as int]));
        match &c[i].pin.id {
            Some(x) => {
                if str_eq(x.as_str(), id.as_str()) {
                    seen = true;
                }
            },
            None => {},
        }
        i += 1;
    }
    if !((keep || main || on_screens) && !hidden) || seen {
        return Ok(None);
    }
    if c.len() >= MAX_PINS {
        return Err(PinError::TooManyPins);
    }
    let url = match text_of(get(fields, "bundleURL")) {
        None => return Err(PinError::NoBundleUrl),
        Some(u) => u,
    };
    let path = match local_path(url.as_str()) {
        Err(_) => return Err(PinError::InvalidBundleUrl),
        Ok(p) => p,
    };
    let order = match get(fields, "manualSortOrder") {
        None => None,
        Some(JsonValue::Null) => None,
        Some(JsonValue::Number(n)) => match n.order {
            Some(o) => Some(o),
            None => return Err(PinError::InvalidSortOrder),
        },
        Some(_) => return Err(PinError::InvalidSortOrder),
    };
    Ok(Some(OrderedPin { order, pin: PinCandidate { id: Some(id.clone()), path } }))
}

pub(crate) proof fn lemma_sidebar_error(records: Seq<JsonValue>, k: int, e: PinError)
    requires
        0 <= k <= records.len(),
        sidebar_scan(records.take(k)) == Err::<Seq<SidebarPin>, PinError>(e),
    ensures
        sidebar_scan(records) == Err::<Seq<SidebarPin>, PinError>(e),
    decreases records.len() - k,
{
    if k < records.len() {
        assert(records.take(k + 1).drop_last() =~= records.take(k));
        lemma_sidebar_error(records, k + 1, e);
    } else {
        assert(records.take(k) =~= records);
    }
}

/// A pin with an identity and a manual sort position.
pub open spec fn complete_pin(p: OrderedPin) -> bool {
    p.order is Some && p.pin.id is Some
}

fn copy_pin(p: &OrderedPin) -> (r: OrderedPin)
    ensures
        ordered_view(r) == ordered_view(*p),
        r.order == p.order,
        r.pin.id is Some <==> p.pin.id is Some,
        pin_view(r.pin) == pin_view(p.pin),
{
    OrderedPin {
        order: p.order,
        pin: PinCandidate {
            id: match &p.pin.id {
                Some(s) => Some(s.clone()),
                None => None,
            },
            path: p.pin.path.clone(),
        },
    }
}

/// Inserts `x` after every pin sorted at or before its position.
fn insert_ordered(out: &mut Vec<OrderedPin>, x: OrderedPin)
    requires
        forall|i: int, j: int| 0 <= i < j < old(out)@.len() ==> order_key(#[trigger] ordered_views(old(out)@)[i]) <= order_key(#[trigger] ordered_views(old(out)@)[j]),
        forall|i: int| 0 <= i < old(out)@.len() ==> complete_pin(#[trigger] old(out)@[i]),
        complete_pin(x),
    ensures
        forall|i: int| 0 <= i < final(out)@.len() ==> complete_pin(#[trigger] final(out)@[i]),
        forall|i: int, j: int| 0 <= i < j < final(out)@.len() ==> order_key(#[trigger] ordered_views(final(out)@)[i]) <= order_key(#[trigger] ordered_views(final(out)@)[j]),
        forall|k: int| #[trigger] order_class(ordered_views(final(out)@), k) == (if order_key(ordered_view(x)) == k {
            order_class(ordered_views(old(out)@), k).push(ordered_view(x))
        } else {
            order_class(ordered_views(old(out)@), k)
        }),
{
    let ghost before = ordered_views(out@);
    let ghost y = ordered_view(x);
    let key = x.order.unwrap();
    let mut p: usize = 0;
    while p < out.len() && out[p].order.unwrap() <= key
        invariant
            p <= out@.len(),
            before == ordered_views(out@),
            y == ordered_view(x),
            x.order == Some(key),
            forall|i: int| 0 <= i < out@.len() ==> complete_pin(#[trigger] out@[i]),
            forall|j: int| 0 <= j < p ==> order_key(#[trigger] before[j]) <= order_key(y),
        decreases out@.len() - p,
    {
        assert(before[p as int] == ordered_view(out@[p as int]));
        p += 1;
    }
    proof {
        assert forall|j: int| p <= j < before.len() implies order_key(#[trigger] before[j]) > order_key(y) by {
            assert(before[p as int] == ordered_view(out@[p as int]));
            if j > p {
                assert(order_key(before[p as int]) <= order_key(before[j]));
            }
        }
        assert forall|k: int| #[trigger] order_class(before.insert(p as int, y), k) == (if order_key(y) == k {
            order_class(before, k).push(y)
        } else {
            order_class(before, k)
        }) by {
            lemma_order_insert(before, p as int, y, k);
        }
    }
    let ghost old_out = out@;
    out.insert(p, x);
    let ghost v = ordered_views(out@);
    assert(v =~= before.insert(p as int, y));
    assert forall|i: int| 0 <= i < out@.len() implies complete_pin(#[trigger] out@[i]) by {
        if i < p {
            assert(out@[i] == old_out[i]);
        } else if i > p {
            assert(out@[i] == old_out[i - 1]);
        }
    }
    assert forall|a: int, b: int| 0 <= a < b < v.len() implies order_key(#[trigger] v[a]) <= order_key(#[trigger] v[b]) by {
        if a < p && b < p {
        } else if a < p && b == p {
        } else if a < p {
            assert(v[b] == before[b - 1]);
        } else if a == p {
            assert(v[b] == before[b - 1]);
        } else {
            assert(v[a] == before[a - 1] && v[b] == before[b - 1]);
        }
    }
}

/// Parses the visible Sidebar application pins, each identity once. When
/// every pin has a `manualSortOrder` that order decides, pins at the same
/// position keeping their configuration order; otherwise configuration order
/// is kept rather than inventing positions for unranked pins. Missing pin
/// flags mean unpinned; malformed flags or non-local bundle URLs fail the
/// snapshot. Names and icons come from the installed bundle.
pub fn sidebar_pins(root: &JsonValue) -> (r: Result<Vec<PinCandidate>, PinError>)
    ensures
        match sidebar_pins_of(*root) {
            Err(e) => r == Err::<Vec<PinCandidate>, PinError>(e),
            Ok(c) => r matches Ok(out) && if all_ordered(c) {
                exists|sorted: Seq<SidebarPin>| stably_ordered(sorted, c) && #[trigger] sidebar_views(sorted) == pin_views(out@)
            } else {
                pin_views(out@) == sidebar_views(c)
            },
        },
{
    let records = match root {
        JsonValue::Array(v) => v,
        _ => return Err(PinError::SidebarNotArray),
    };
    if records.len() > MAX_RECORDS {
        return Err(PinError::TooManyRecords);
    }
    let mut found: Vec<OrderedPin> = Vec::new();
    let mut i: usize = 0;
    assert(records@.take(0) =~= Seq::<JsonValue>::empty());
    assert(ordered_views(found@) =~= Seq::<SidebarPin>::empty());
    while i < records.len()
        invariant
            i <= records@.len(),
            sidebar_pins_of(*root) == sidebar_scan(records@),
            sidebar_scan(records@.take(i as int)) == Ok::<Seq<SidebarPin>, PinError>(ordered_views(found@)),
            forall|j: int| 0 <= j < found@.len() ==> (#[trigger] found@[j]).pin.id is Some,
        decreases records@.len() - i,
    {
        assert(records@.take(i + 1).drop_last() =~= records@.take(i as int));
        assert(records@.take(i + 1).last() == records@[i as int]);
        match sidebar_pin(&found, &records[i]) {
            Err(e) => {
                proof {
                    lemma_sidebar_error(records@, i + 1, e);
                }
                return Err(e);
            },
            Ok(None) => {},
            Ok(Some(pin)) => {
                let ghost before = found@;
                found.push(pin);
                assert(ordered_views(found@) =~= ordered_views(before).push(ordered_view(pin)));
                assert forall|j: int| 0 <= j < found@.len() implies (#[trigger] found@[j]).pin.id is Some by {
                    if j < before.len() {
                        assert(found@[j] == before[j]);
                    }
                }
            },
        }
        i += 1;
    }
    assert(records@.take(i as int) =~= records@);
    let ghost c = ordered_views(found@);
    let mut complete = true;
    let mut k: usize = 0;
    while k < found.len()
        invariant
            k <= found@.len(),
            c == ordered_views(found@),
            complete <==> forall|j: int| 0 <= j < k ==> (#[trigger] c[j]).0 is Some,
        decreases found@.len() - k,
    {
        assert(c[k as int] == ordered_view(found@[k as int]));
        if found[k].order.is_none() {
            complete = false;
        }
        k += 1;
    }
    let mut ordered: Vec<OrderedPin> = Vec::new();
    if complete {
        let ghost mut acc: Seq<SidebarPin> = Seq::empty();
        let mut m: usize = 0;
        assert(ordered_views(ordered@) =~= Seq::<SidebarPin>::empty());
        while m < found.len()
            invariant
                m <= found@.len(),
                c == ordered_views(found@),
                forall|j: int| 0 <= j < c.len() ==> (#[trigger] c[j]).0 is Some,
                forall|j: int| 0 <= j < found@.len() ==> (#[trigger] found@[j]).pin.id is Some,
                acc == c.take(m as int),
                forall|j: int| 0 <= j < ordered@.len() ==> complete_pin(#[trigger] ordered@[j]),
                stably_ordered(ordered_views(ordered@), acc),
            decreases found@.len() - m,
        {
            let x = copy_pin(&found[m]);
            proof {
                assert(c[m as int] == ordered_view(found@[m as int]));
                assert(complete_pin(x));
            }
            insert_ordered(&mut ordered, x);
            proof {
                assert(c.take(m + 1) =~= acc.push(ordered_view(x)));
                assert(acc.push(ordered_view(x)).drop_last() =~= acc);
                acc = acc.push(ordered_view(x));
            }
            m += 1;
        }
        assert(acc =~= c);
    } else {
        ordered = found;
    }
    let ghost sorted = ordered_views(ordered@);
    let mut out: Vec<PinCandidate> = Vec::new();
    let mut q: usize = 0;
    assert(pin_views(out@) =~= sidebar_views(sorted.take(0)));
    while q < ordered.len()
        invariant
            q <= ordered@.len(),
            sorted == ordered_views(ordered@),
            forall|j: int| 0 <= j < ordered@.len() ==> (#[trigger] ordered@[j]).pin.id is Some,
            pin_views(out@) == sidebar_views(sorted.take(q as int)),
        decreases ordered@.len() - q,
    {
        let p = copy_pin(&ordered[q]);
        let ghost before = out@;
        out.push(p.pin);
        proof {
            assert(ordered@[q as int].pin.id is Some);
            assert(sorted[q as int] == ordered_view(ordered@[q as int]));
            assert(sidebar_view(sorted[q as int]) == pin_view(p.pin));
            assert(pin_views(out@) =~= pin_views(before).push(pin_view(p.pin)));
            assert(sidebar_views(sorted.take(q + 1)) =~= sidebar_views(sorted.take(q as int)).push(sidebar_view(sorted[q as int])));
        }
        q += 1;
    }
    assert(sorted.take(q as int) =~= sorted);
    proof {
        if complete {
            assert(all_ordered(c));
        } else {
            assert(!all_ordered(c));
        }
    }
    Ok(out)
}

/// `results` are, in order, what `resolve` answered for the first of the
/// `candidates`.
pub open spec fn answered<F: Fn(&PinCandidate) -> Result<Option<super::PinnedApp>, PinError>>(
    resolve: F,
    candidates: Seq<PinCandidate>,
    results: Seq<Result<Option<super::PinnedApp>, PinError>>,
) -> bool {
    &&& results.len() <= candidates.len()
    &&& forall|i: int| 0 <= i < results.len() ==> #[trigger] call_ensures(resolve, (&candidates[i],), results[i])
}

/// Some application of `apps` has the identity `id`.
pub open spec fn lists_app(apps: Seq<super::PinnedApp>, id: Seq<char>) -> bool {
    exists|k: int| 0 <= k < apps.len() && (#[trigger] apps[k]).id@ == id
}

/// The applications that the resolver's answers `results` give, in order:
/// a pin that was not found is omitted, an identity already listed is shown
/// once, a failed lookup fails the snapshot, and so does a `MAX_PINS + 1`-th
/// application.
pub open spec fn pins_from(results: Seq<Result<Option<super::PinnedApp>, PinError>>) -> Result<Seq<super::PinnedApp>, PinError>
    decreases results.len(),
{
    if results.len() == 0 {
        Ok(Seq::empty())
    } else {
        match pins_from(results.drop_last()) {
            Err(e) => Err(e),
            Ok(apps) => match results.last() {
                Err(e) => Err(e),
                Ok(None) => Ok(apps),
                Ok(Some(app)) => if lists_app(apps, app.id@) {
                    Ok(apps)
                } else if apps.len() >= MAX_PINS {
                    Err(PinError::TooManyApplications)
                } else {
                    Ok(apps.push(app))
                },
            },
        }
    }
}

/// Resolves pins in their configured order against the installed bundles.
/// A pin that `resolve` does not find is omitted; each identity is shown
/// once, and more than `MAX_PINS` applications fail the snapshot. Every pin
/// is resolved unless the snapshot fails first.
pub fn collect_pins<F: Fn(&PinCandidate) -> Result<Option<super::PinnedApp>, PinError>>(
    candidates: &Vec<PinCandidate>,
    resolve: F,
) -> (r: Result<Vec<super::PinnedApp>, PinError>)
    requires
        forall|c: &PinCandidate| call_requires(resolve, (c,)),
    ensures
        exists|results: Seq<Result<Option<super::PinnedApp>, PinError>>| {
            &&& #[trigger] answered(resolve, candidates@, results)
            &&& match r {
                Ok(apps) => results.len() == candidates@.len() && pins_from(results) == Ok::<Seq<super::PinnedApp>, PinError>(apps@),
                Err(e) => pins_from(results) == Err::<Seq<super::PinnedApp>, PinError>(e),
            }
        },
        r matches Ok(apps) ==> {
            &&& apps@.len() <= MAX_PINS
            &&& super::windows::distinct_app_ids(apps@)
        },
{
    let ghost mut results: Seq<Result<Option<super::PinnedApp>, PinError>> = Seq::empty();
    let mut apps: Vec<super::PinnedApp> = Vec::new();
    let mut i: usize = 0;
    assert(answered(resolve, candidates@, results));
    while i < candidates.len()
        invariant
            i <= candidates@.len(),
            forall|c: &PinCandidate| call_requires(resolve, (c,)),
            results.len() == i,
            answered(resolve, candidates@, results),
            pins_from(results) == Ok::<Seq<super::PinnedApp>, PinError>(apps@),
            apps@.len() <= MAX_PINS,
            super::windows::distinct_app_ids(apps@),
        decreases candidates@.len() - i,
    {
        let found = resolve(&candidates[i]);
        let ghost seen = found;
        let ghost before = results;
        proof {
            results = results.push(seen);
            assert(results.drop_last() =~= before);
            assert forall|j: int| 0 <= j < results.len() implies #[trigger] call_ensures(resolve, (&candidates@[j],), results[j]) by {
                if j < before.len() {
                    assert(results[j] == before[j]);
                }
            }
        }
        let app = match found {
            Err(e) => {
                assert(results.last() == seen);
                assert(pins_from(results) == Err::<Seq<super::PinnedApp>, PinError>(e));
                assert(answered(resolve, candidates@, results));
                return Err(e);
            },
            Ok(None) => {
                i += 1;
                continue;
            },
            Ok(Some(app)) => app,
        };
        if super::windows::has_app(&apps, app.id.as_str()) {
            assert(lists_app(apps@, app.id@));
            i += 1;
            continue;
        }
        assert(!lists_app(apps@, app.id@));
        if apps.len() >= MAX_PINS {
            assert(pins_from(results) == Err::<Seq<super::PinnedApp>, PinError>(PinError::TooManyApplications));
            assert(answered(resolve, candidates@, results));
            return Err(PinError::TooManyApplications);
        }
        let ghost prior = apps@;
        apps.push(app);
        proof {
            assert forall|a: int, b: int| 0 <= a < b < apps@.len() implies (#[trigger] apps@[a]).id@ != (#[trigger] apps@[b]).id@ by {
                if b < prior.len() {
                    assert(prior[a] == apps@[a] && prior[b] == apps@[b]);
                } else {
                    assert(apps@[a] == prior[a]);
                }
            }
        }
        i += 1;
    }
    Ok(apps)
}

} // verus!
