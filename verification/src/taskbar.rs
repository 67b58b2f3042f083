//! Bounded, read-only pinned-launcher metadata and opt-in notification examples.
use vstd::prelude::*;

pub mod macos;
pub mod windows;
use vstd::utf8::*;
use std::sync::Arc;
use crate::app_icons::AppIcon;
use crate::text::{
    byte_len, chars_of, controls_absent, lemma_byte_len_at_least_len, no_controls, push_utf8, trim,
    trim_bounds, contains_any, ends_with_lit, eq_lit, starts_with_lit, split, split_ranges, find,
    lines, control_char, ranges_eq, chars_eq, lemma_split_nonempty, find_in,
    utf8_len,
};

verus! {

pub const MAX_APPLETS_BYTES: usize = 1024 * 1024;
pub const MAX_DESKTOP_BYTES: usize = 64 * 1024;
pub const MAX_LAUNCHERS: usize = 64;
pub const MAX_LABEL_BYTES: usize = 128;

/// Why launcher metadata was refused.
#[derive(Clone, Copy, Debug, PartialEq, Eq, Structural)]
pub enum MetadataError {
    AppletsTooLarge,
    ControlCharacters,
    MalformedKey,
    InvalidListEscape,
    TooManyLaunchers,
    UnterminatedListEscape,
    MalformedGroup,
    MalformedIdentity,
    InvalidEscape,
    IncompleteKconfigEscape,
    IncompleteKconfigHexEscape,
    InvalidKconfigEscape,
    KconfigNotUtf8,
    IncompleteUriEscape,
    UriNotUtf8,
    InvalidLabel,
    UnsafeDesktopId,
    NotDesktopId,
    UnsafeRoutingId,
    MalformedEntryGroup,
    DuplicateEntryGroup,
    MalformedEntryKey,
    DuplicateEntryKey,
    InvalidHidden,
    MissingName,
    IncompleteEntryEscape,
    InvalidEntryEscape,
    InvalidCategories,
    InvalidPinnedId,
    UnsafeApplicationId,
    InvalidApplicationId,
    EntryUnreadable,
    EntryTooLarge,
    EntryNotUtf8,
}

impl MetadataError {
    pub fn message(self) -> (r: &'static str)
        ensures
            r@ == (match self {
                MetadataError::AppletsTooLarge => "Plasma applets configuration exceeds one MiB"@,
                MetadataError::ControlCharacters => "Plasma applets configuration contains control characters"@,
                MetadataError::MalformedKey => "Malformed task-manager metadata key"@,
                MetadataError::InvalidListEscape => "Invalid launcher list escape"@,
                MetadataError::TooManyLaunchers => "At most 64 unique pinned applications are supported"@,
                MetadataError::UnterminatedListEscape => "Unterminated launcher list escape"@,
                MetadataError::MalformedGroup => "Malformed Plasma applet group"@,
                MetadataError::MalformedIdentity => "Malformed applet identity"@,
                MetadataError::InvalidEscape => "Invalid metadata escape"@,
                MetadataError::IncompleteKconfigEscape => "Incomplete KConfig escape"@,
                MetadataError::IncompleteKconfigHexEscape => "Incomplete KConfig hex escape"@,
                MetadataError::InvalidKconfigEscape => "Invalid KConfig escape"@,
                MetadataError::KconfigNotUtf8 => "KConfig escape is not UTF-8"@,
                MetadataError::IncompleteUriEscape => "Incomplete launcher URI escape"@,
                MetadataError::UriNotUtf8 => "Launcher URI is not UTF-8"@,
                MetadataError::InvalidLabel => "Application labels must be 1–128 bytes without control characters or surrounding spaces"@,
                MetadataError::UnsafeDesktopId => "Unsafe desktop file ID"@,
                MetadataError::NotDesktopId => "Launcher is not a desktop file ID"@,
                MetadataError::UnsafeRoutingId => "Unsafe desktop routing ID"@,
                MetadataError::MalformedEntryGroup => "Malformed desktop entry group"@,
                MetadataError::DuplicateEntryGroup => "Duplicate Desktop Entry group"@,
                MetadataError::MalformedEntryKey => "Malformed desktop entry key"@,
                MetadataError::DuplicateEntryKey => "Duplicate desktop entry metadata key"@,
                MetadataError::InvalidHidden => "Invalid desktop entry Hidden value"@,
                MetadataError::MissingName => "Pinned desktop entry has no Name"@,
                MetadataError::IncompleteEntryEscape => "Incomplete desktop entry escape"@,
                MetadataError::InvalidEntryEscape => "Invalid desktop entry escape"@,
                MetadataError::InvalidCategories => "Invalid desktop entry categories"@,
                MetadataError::InvalidPinnedId => "Invalid pinned desktop file ID"@,
                MetadataError::UnsafeApplicationId => "Unsafe application routing ID"@,
                MetadataError::InvalidApplicationId => "Invalid application routing ID"@,
                MetadataError::EntryUnreadable => "Pinned-application metadata could not be read"@,
                MetadataError::EntryTooLarge => "Pinned-application metadata exceeds its size limit"@,
                MetadataError::EntryNotUtf8 => "Pinned-application metadata is not UTF-8"@,
            }),
    {
        match self {
            MetadataError::AppletsTooLarge => "Plasma applets configuration exceeds one MiB",
            MetadataError::ControlCharacters => "Plasma applets configuration contains control characters",
            MetadataError::MalformedKey => "Malformed task-manager metadata key",
            MetadataError::InvalidListEscape => "Invalid launcher list escape",
            MetadataError::TooManyLaunchers => "At most 64 unique pinned applications are supported",
            MetadataError::UnterminatedListEscape => "Unterminated launcher list escape",
            MetadataError::MalformedGroup => "Malformed Plasma applet group",
            MetadataError::MalformedIdentity => "Malformed applet identity",
            MetadataError::InvalidEscape => "Invalid metadata escape",
            MetadataError::IncompleteKconfigEscape => "Incomplete KConfig escape",
            MetadataError::IncompleteKconfigHexEscape => "Incomplete KConfig hex escape",
            MetadataError::InvalidKconfigEscape => "Invalid KConfig escape",
            MetadataError::KconfigNotUtf8 => "KConfig escape is not UTF-8",
            MetadataError::IncompleteUriEscape => "Incomplete launcher URI escape",
            MetadataError::UriNotUtf8 => "Launcher URI is not UTF-8",
            MetadataError::InvalidLabel => "Application labels must be 1–128 bytes without control characters or surrounding spaces",
            MetadataError::UnsafeDesktopId => "Unsafe desktop file ID",
            MetadataError::NotDesktopId => "Launcher is not a desktop file ID",
            MetadataError::UnsafeRoutingId => "Unsafe desktop routing ID",
            MetadataError::MalformedEntryGroup => "Malformed desktop entry group",
            MetadataError::DuplicateEntryGroup => "Duplicate Desktop Entry group",
            MetadataError::MalformedEntryKey => "Malformed desktop entry key",
            MetadataError::DuplicateEntryKey => "Duplicate desktop entry metadata key",
            MetadataError::InvalidHidden => "Invalid desktop entry Hidden value",
            MetadataError::MissingName => "Pinned desktop entry has no Name",
            MetadataError::IncompleteEntryEscape => "Incomplete desktop entry escape",
            MetadataError::InvalidEntryEscape => "Invalid desktop entry escape",
            MetadataError::InvalidCategories => "Invalid desktop entry categories",
            MetadataError::InvalidPinnedId => "Invalid pinned desktop file ID",
            MetadataError::UnsafeApplicationId => "Unsafe application routing ID",
            MetadataError::InvalidApplicationId => "Invalid application routing ID",
            MetadataError::EntryUnreadable => "Pinned-application metadata could not be read",
            MetadataError::EntryTooLarge => "Pinned-application metadata exceeds its size limit",
            MetadataError::EntryNotUtf8 => "Pinned-application metadata is not UTF-8",
        }
    }
}

#[derive(Clone, Copy, Debug, PartialEq, Eq, Structural)]
pub enum AppKind {
    Communication,
    Browser,
    Productivity,
    Utility,
}

pub struct PinnedApp {
    /// Routing ID: Linux desktop ID without its final suffix, or Windows AUMID.
    pub id: String,
    pub name: String,
    pub kind: AppKind,
    /// A useful example to offer, not discovered notification or media capability.
    pub suggested: bool,
    /// The declared local icon, once decoded.
    pub icon: Option<Arc<AppIcon>>,
}

/// Only communication and productivity applications are offered as examples.
pub open spec fn suggests(kind: AppKind) -> bool {
    kind == AppKind::Communication || kind == AppKind::Productivity
}

/// An application label: 1–128 bytes, no surrounding whitespace, no control
/// characters.
pub open spec fn is_label(v: Seq<char>) -> bool {
    &&& v.len() > 0
    &&& trim(v) == v
    &&& byte_len(v) <= MAX_LABEL_BYTES
    &&& no_controls(v)
}

pub open spec fn label_check(v: Seq<char>) -> Result<(), MetadataError> {
    if is_label(v) {
        Ok(())
    } else {
        Err(MetadataError::InvalidLabel)
    }
}

/// Whether `chars[start..end]` is an application label.
pub fn label_ok(chars: &[char], start: usize, end: usize) -> (r: bool)
    requires
        start <= end <= chars@.len(),
    ensures
        r == is_label(chars@.subrange(start as int, end as int)),
{
    let ghost v = chars@.subrange(start as int, end as int);
    if start == end {
        return false;
    }
    let (a, b) = trim_bounds(chars, start, end);
    if a != start || b != end {
        assert(chars@.subrange(a as int, b as int).len() != v.len());
        return false;
    }
    if !controls_absent(chars, start, end) {
        return false;
    }
    // The byte length is only computed once the characters are known to be few.
    if end - start > MAX_LABEL_BYTES {
        proof {
            lemma_byte_len_at_least_len(v);
        }
        return false;
    }
    proof {
        crate::text::lemma_byte_len_at_most(v);
    }
    utf8_len(chars, start, end) <= MAX_LABEL_BYTES
}

pub fn validate_label(value: &str) -> (r: Result<(), MetadataError>)
    ensures
        r == label_check(value@),
{
    let chars = chars_of(value);
    assert(chars@.subrange(0, chars@.len() as int) =~= chars@);
    if label_ok(&chars, 0, chars.len()) {
        Ok(())
    } else {
        Err(MetadataError::InvalidLabel)
    }
}

/// The value of an ASCII hexadecimal digit.
pub open spec fn hex_value(b: u8) -> Option<u8> {
    if 0x30 <= b && b <= 0x39 {
        Some((b - 0x30) as u8)
    } else if 0x61 <= b && b <= 0x66 {
        Some((b - 0x61 + 10) as u8)
    } else if 0x41 <= b && b <= 0x46 {
        Some((b - 0x41 + 10) as u8)
    } else {
        None
    }
}

pub fn hex(byte: u8) -> (r: Result<u8, MetadataError>)
    ensures
        r == (match hex_value(byte) {
            Some(v) => Ok::<u8, MetadataError>(v),
            None => Err(MetadataError::InvalidEscape),
        }),
{
    if 0x30 <= byte && byte <= 0x39 {
        Ok(byte - 0x30)
    } else if 0x61 <= byte && byte <= 0x66 {
        Ok(byte - 0x61 + 10)
    } else if 0x41 <= byte && byte <= 0x46 {
        Ok(byte - 0x41 + 10)
    } else {
        Err(MetadataError::InvalidEscape)
    }
}

/// The hexadecimal value of a character, read as the byte that begins its
/// UTF-8 encoding (only ASCII digits qualify).
pub open spec fn hex_char(c: char) -> Option<u8> {
    if (c as u32) < 0x80 {
        hex_value(c as u8)
    } else {
        None
    }
}

fn hex_of(c: char) -> (r: Result<u8, MetadataError>)
    ensures
        r == (match hex_char(c) {
            Some(v) => Ok::<u8, MetadataError>(v),
            None => Err(MetadataError::InvalidEscape),
        }),
{
    if (c as u32) < 0x80 {
        hex(c as u32 as u8)
    } else {
        Err(MetadataError::InvalidEscape)
    }
}

/// `p` followed by the bytes of `r`, or the error of `r`.
pub open spec fn prefixed(p: Seq<u8>, r: Result<Seq<u8>, MetadataError>) -> Result<Seq<u8>, MetadataError> {
    match r {
        Ok(b) => Ok(p + b),
        Err(e) => Err(e),
    }
}

pub(crate) proof fn lemma_prefixed_assoc(a: Seq<u8>, b: Seq<u8>, r: Result<Seq<u8>, MetadataError>)
    ensures
        prefixed(a, prefixed(b, r)) == prefixed(a + b, r),
{
    if let Ok(x) = r {
        assert(a + (b + x) =~= (a + b) + x);
    }
}

pub open spec fn has_prefix(v: Seq<char>, p: Seq<char>) -> bool {
    p.len() <= v.len() && v.subrange(0, p.len() as int) == p
}

pub open spec fn has_suffix(v: Seq<char>, p: Seq<char>) -> bool {
    p.len() <= v.len() && v.subrange(v.len() - p.len(), v.len() as int) == p
}

/// The bytes a KConfig value stands for: `\s \n \r \t \\` unescape, `\,` and
/// `\;` stay escaped for the list syntax, `\xHH` gives one byte.
pub open spec fn kconfig_bytes(v: Seq<char>) -> Result<Seq<u8>, MetadataError>
    decreases v.len(),
{
    if v.len() == 0 {
        Ok(Seq::empty())
    } else if v[0] != '\\' {
        prefixed(encode_scalar(v[0] as u32), kconfig_bytes(v.drop_first()))
    } else if v.len() < 2 {
        Err(MetadataError::IncompleteKconfigEscape)
    } else {
        let c = v[1];
        let rest = v.subrange(2, v.len() as int);
        if c == 's' {
            prefixed(seq![0x20u8], kconfig_bytes(rest))
        } else if c == 'n' {
            prefixed(seq![0x0au8], kconfig_bytes(rest))
        } else if c == 'r' {
            prefixed(seq![0x0du8], kconfig_bytes(rest))
        } else if c == 't' {
            prefixed(seq![0x09u8], kconfig_bytes(rest))
        } else if c == '\\' {
            prefixed(seq![0x5cu8], kconfig_bytes(rest))
        } else if c == ',' {
            prefixed(seq![0x5cu8, 0x2cu8], kconfig_bytes(rest))
        } else if c == ';' {
            prefixed(seq![0x5cu8, 0x3bu8], kconfig_bytes(rest))
        } else if c == 'x' {
            if v.len() < 3 {
                Err(MetadataError::IncompleteKconfigHexEscape)
            } else {
                match hex_char(v[2]) {
                    None => Err(MetadataError::InvalidEscape),
                    Some(high) => if v.len() < 4 {
                        Err(MetadataError::IncompleteKconfigHexEscape)
                    } else {
                        match hex_char(v[3]) {
                            None => Err(MetadataError::InvalidEscape),
                            Some(low) => prefixed(
                                seq![(high * 16 + low) as u8],
                                kconfig_bytes(v.subrange(4, v.len() as int)),
                            ),
                        }
                    },
                }
            }
        } else {
            Err(MetadataError::InvalidKconfigEscape)
        }
    }
}

/// A KConfig value, unescaped.
pub open spec fn kconfig_text(v: Seq<char>) -> Result<Seq<char>, MetadataError> {
    match kconfig_bytes(v) {
        Err(e) => Err(e),
        Ok(b) => if valid_utf8(b) {
            Ok(decode_utf8(b))
        } else {
            Err(MetadataError::KconfigNotUtf8)
        },
    }
}

/// Unescapes the KConfig value `chars[start..end]`.
pub fn decode_kconfig(chars: &[char], start: usize, end: usize) -> (r: Result<Vec<char>, MetadataError>)
    requires
        start <= end <= chars@.len(),
    ensures
        match kconfig_text(chars@.subrange(start as int, end as int)) {
            Ok(t) => r matches Ok(out) && out@ == t,
            Err(e) => r == Err::<Vec<char>, MetadataError>(e),
        },
{
    let ghost v = chars@.subrange(start as int, end as int);
    let mut out: Vec<u8> = Vec::new();
    let mut i = start;
    assert(v.subrange(0, v.len() as int) =~= v);
    while i < end
        invariant
            start <= i <= end <= chars@.len(),
            v == chars@.subrange(start as int, end as int),
            kconfig_bytes(v) == prefixed(out@, kconfig_bytes(chars@.subrange(i as int, end as int))),
        decreases end - i,
    {
        let ghost w = chars@.subrange(i as int, end as int);
        let c = chars[i];
        if c != '\\' {
            assert(w.drop_first() =~= chars@.subrange(i + 1, end as int));
            let ghost before = out@;
            push_utf8(&mut out, c);
            proof {
                lemma_prefixed_assoc(before, encode_scalar(c as u32), kconfig_bytes(chars@.subrange(i + 1, end as int)));
            }
            i += 1;
            continue;
        }
        if i + 1 >= end {
            return Err(MetadataError::IncompleteKconfigEscape);
        }
        let e = chars[i + 1];
        let ghost start_out = out@;
        assert(w.subrange(2, w.len() as int) =~= chars@.subrange(i + 2, end as int));
        if e == 's' {
            out.push(0x20);
        } else if e == 'n' {
            out.push(0x0a);
        } else if e == 'r' {
            out.push(0x0d);
        } else if e == 't' {
            out.push(0x09);
        } else if e == '\\' {
            out.push(0x5c);
        } else if e == ',' {
            out.push(0x5c);
            out.push(0x2c);
        } else if e == ';' {
            out.push(0x5c);
            out.push(0x3b);
        } else if e == 'x' {
            if i + 2 >= end {
                return Err(MetadataError::IncompleteKconfigHexEscape);
            }
            let high = match hex_of(chars[i + 2]) {
                Ok(h) => h,
                Err(e) => return Err(e),
            };
            if i + 3 >= end {
                return Err(MetadataError::IncompleteKconfigHexEscape);
            }
            let low = match hex_of(chars[i + 3]) {
                Ok(l) => l,
                Err(e) => return Err(e),
            };
            assert(w.subrange(4, w.len() as int) =~= chars@.subrange(i + 4, end as int));
            let ghost before = out@;
            out.push(high * 16 + low);
            proof {
                lemma_prefixed_assoc(before, seq![(high * 16 + low) as u8], kconfig_bytes(chars@.subrange(i + 4, end as int)));
                assert(before + seq![(high * 16 + low) as u8] =~= out@);
            }
            i += 4;
            continue;
        } else {
            return Err(MetadataError::InvalidKconfigEscape);
        }
        proof {
            let pushed = out@.subrange(start_out.len() as int, out@.len() as int);
            assert(out@ =~= start_out + pushed);
            lemma_prefixed_assoc(start_out, pushed, kconfig_bytes(chars@.subrange(i + 2, end as int)));
            if e == 's' {
                assert(pushed =~= seq![0x20u8]);
            } else if e == 'n' {
                assert(pushed =~= seq![0x0au8]);
            } else if e == 'r' {
                assert(pushed =~= seq![0x0du8]);
            } else if e == 't' {
                assert(pushed =~= seq![0x09u8]);
            } else if e == '\\' {
                assert(pushed =~= seq![0x5cu8]);
            } else if e == ',' {
                assert(pushed =~= seq![0x5cu8, 0x2cu8]);
            } else {
                assert(pushed =~= seq![0x5cu8, 0x3bu8]);
            }
        }
        i += 2;
    }
    assert(kconfig_bytes(chars@.subrange(i as int, end as int)) =~= Ok(Seq::<u8>::empty()));
    assert(out@ + Seq::<u8>::empty() =~= out@);
    match String::from_utf8(out) {
        Ok(text) => Ok(chars_of(text.as_str())),
        Err(_) => Err(MetadataError::KconfigNotUtf8),
    }
}

/// The bytes a percent-encoded URI path stands for.
pub open spec fn uri_bytes(v: Seq<char>) -> Result<Seq<u8>, MetadataError>
    decreases v.len(),
{
    if v.len() == 0 {
        Ok(Seq::empty())
    } else if v[0] == '%' {
        if v.len() < 2 {
            Err(MetadataError::IncompleteUriEscape)
        } else {
            match hex_char(v[1]) {
                None => Err(MetadataError::InvalidEscape),
                Some(high) => if v.len() < 3 {
                    Err(MetadataError::IncompleteUriEscape)
                } else {
                    match hex_char(v[2]) {
                        None => Err(MetadataError::InvalidEscape),
                        Some(low) => prefixed(
                            seq![(high * 16 + low) as u8],
                            uri_bytes(v.subrange(3, v.len() as int)),
                        ),
                    }
                },
            }
        }
    } else {
        prefixed(encode_scalar(v[0] as u32), uri_bytes(v.drop_first()))
    }
}

fn decode_uri(chars: &[char], start: usize, end: usize) -> (r: Result<Vec<u8>, MetadataError>)
    requires
        start <= end <= chars@.len(),
    ensures
        match uri_bytes(chars@.subrange(start as int, end as int)) {
            Ok(b) => r matches Ok(out) && out@ == b,
            Err(e) => r == Err::<Vec<u8>, MetadataError>(e),
        },
{
    let ghost v = chars@.subrange(start as int, end as int);
    let mut out: Vec<u8> = Vec::new();
    let mut i = start;
    assert(v.subrange(0, v.len() as int) =~= v);
    while i < end
        invariant
            start <= i <= end <= chars@.len(),
            v == chars@.subrange(start as int, end as int),
            uri_bytes(v) == prefixed(out@, uri_bytes(chars@.subrange(i as int, end as int))),
        decreases end - i,
    {
        let ghost w = chars@.subrange(i as int, end as int);
        let ghost before = out@;
        let c = chars[i];
        if c != '%' {
            assert(w.drop_first() =~= chars@.subrange(i + 1, end as int));
            push_utf8(&mut out, c);
            proof {
                lemma_prefixed_assoc(before, encode_scalar(c as u32), uri_bytes(chars@.subrange(i + 1, end as int)));
            }
            i += 1;
            continue;
        }
        if i + 1 >= end {
            return Err(MetadataError::IncompleteUriEscape);
        }
        let high = match hex_of(chars[i + 1]) {
            Ok(h) => h,
            Err(e) => return Err(e),
        };
        if i + 2 >= end {
            return Err(MetadataError::IncompleteUriEscape);
        }
        let low = match hex_of(chars[i + 2]) {
            Ok(l) => l,
            Err(e) => return Err(e),
        };
        assert(w.subrange(3, w.len() as int) =~= chars@.subrange(i + 3, end as int));
        out.push(high * 16 + low);
        proof {
            lemma_prefixed_assoc(before, seq![(high * 16 + low) as u8], uri_bytes(chars@.subrange(i + 3, end as int)));
            assert(before + seq![(high * 16 + low) as u8] =~= out@);
        }
        i += 3;
    }
    assert(uri_bytes(chars@.subrange(i as int, end as int)) =~= Ok(Seq::<u8>::empty()));
    assert(out@ + Seq::<u8>::empty() =~= out@);
    Ok(out)
}

/// Characters that never occur in a desktop file ID.
pub open spec fn unsafe_id_chars() -> Seq<char> {
    seq!['/', '\\', ':', '?', '#']
}

pub open spec fn has_any(v: Seq<char>, set: Seq<char>) -> bool {
    exists|i: int| 0 <= i < v.len() && set.contains(#[trigger] v[i])
}

/// Routing IDs that would name a directory or a wildcard.
pub open spec fn is_reserved_routing(r: Seq<char>) -> bool {
    r.len() == 0 || r == "."@ || r == ".."@ || r == "*"@
}

/// A desktop file ID checked as a launcher target.
pub open spec fn checked_desktop_id(id: Seq<char>) -> Result<Option<Seq<char>>, MetadataError> {
    if !is_label(id) {
        Err(MetadataError::InvalidLabel)
    } else if has_any(id, unsafe_id_chars()) {
        Err(MetadataError::UnsafeDesktopId)
    } else if !has_suffix(id, ".desktop"@) {
        Err(MetadataError::NotDesktopId)
    } else {
        let routing = id.subrange(0, id.len() - ".desktop"@.len());
        if is_reserved_routing(routing) {
            Err(MetadataError::UnsafeRoutingId)
        } else if !is_label(routing) {
            Err(MetadataError::InvalidLabel)
        } else {
            Ok(Some(id))
        }
    }
}

/// The desktop file ID of one launcher list item: `applications:` URIs are
/// percent-decoded, bare IDs kept, other URIs and empty items ignored.
pub open spec fn launcher(l: Seq<char>) -> Result<Option<Seq<char>>, MetadataError> {
    if l.len() == 0 {
        Ok(None)
    } else if has_prefix(l, "applications:"@) {
        match uri_bytes(l.subrange("applications:"@.len() as int, l.len() as int)) {
            Err(e) => Err(e),
            Ok(b) => if !valid_utf8(b) {
                Err(MetadataError::UriNotUtf8)
            } else {
                checked_desktop_id(decode_utf8(b))
            },
        }
    } else if l.contains(':') {
        Ok(None)
    } else {
        checked_desktop_id(l)
    }
}

fn is_reserved(chars: &[char], start: usize, end: usize) -> (r: bool)
    requires
        start <= end <= chars@.len(),
    ensures
        r == is_reserved_routing(chars@.subrange(start as int, end as int)),
{
    start == end || eq_lit(chars, start, end, ".") || eq_lit(chars, start, end, "..") || eq_lit(
        chars,
        start,
        end,
        "*",
    )
}

fn check_desktop_id(id: Vec<char>) -> (r: Result<Option<Vec<char>>, MetadataError>)
    ensures
        match checked_desktop_id(id@) {
            Ok(Some(t)) => r matches Ok(Some(out)) && out@ == t,
            Ok(None) => r matches Ok(None),
            Err(e) => r == Err::<Option<Vec<char>>, MetadataError>(e),
        },
{
    let n = id.len();
    assert(id@.subrange(0, n as int) =~= id@);
    if !label_ok(&id, 0, n) {
        return Err(MetadataError::InvalidLabel);
    }
    let unsafe_chars = ['/', '\\', ':', '?', '#'];
    assert(unsafe_chars@ =~= unsafe_id_chars());
    if contains_any(&id, 0, n, &unsafe_chars) {
        return Err(MetadataError::UnsafeDesktopId);
    }
    if !ends_with_lit(&id, 0, n, ".desktop") {
        return Err(MetadataError::NotDesktopId);
    }
    let suffix = chars_of(".desktop");
    let cut = n - suffix.len();
    if is_reserved(&id, 0, cut) {
        return Err(MetadataError::UnsafeRoutingId);
    }
    if !label_ok(&id, 0, cut) {
        return Err(MetadataError::InvalidLabel);
    }
    Ok(Some(id))
}

/// The desktop file ID named by the launcher list item `item`, if any.
pub fn launcher_id(item: &[char]) -> (r: Result<Option<Vec<char>>, MetadataError>)
    ensures
        match launcher(item@) {
            Ok(Some(t)) => r matches Ok(Some(out)) && out@ == t,
            Ok(None) => r matches Ok(None),
            Err(e) => r == Err::<Option<Vec<char>>, MetadataError>(e),
        },
{
    let n = item.len();
    if n == 0 {
        return Ok(None);
    }
    if starts_with_lit(item, 0, n, "applications:") {
        let prefix = chars_of("applications:");
        assert(item@.subrange(0, n as int) =~= item@);
        let bytes = match decode_uri(item, prefix.len(), n) {
            Ok(b) => b,
            Err(e) => return Err(e),
        };
        let text = match String::from_utf8(bytes) {
            Ok(t) => t,
            Err(_) => return Err(MetadataError::UriNotUtf8),
        };
        return check_desktop_id(chars_of(text.as_str()));
    }
    let colon = [':'];
    if contains_any(item, 0, n, &colon) {
        proof {
            let k = choose|k: int| 0 <= k < n && colon@.contains(#[trigger] item@[k]);
            assert(colon@[0] == ':');
            assert(item@[k] == ':');
        }
        return Ok(None);
    }
    proof {
        if item@.contains(':') {
            let k = choose|k: int| 0 <= k < item@.len() && item@[k] == ':';
            assert(colon@.contains(item@[k]));
        }
    }
    check_desktop_id(vstd::slice::slice_to_vec(item))
}

/// A non-empty run of ASCII digits.
pub open spec fn is_digits(v: Seq<char>) -> bool {
    v.len() > 0 && forall|i: int| 0 <= i < v.len() ==> '0' <= #[trigger] v[i] && v[i] <= '9'
}

fn digits_ok(chars: &[char], start: usize, end: usize) -> (r: bool)
    requires
        start <= end <= chars@.len(),
    ensures
        r == is_digits(chars@.subrange(start as int, end as int)),
{
    if start == end {
        return false;
    }
    let mut i = start;
    while i < end
        invariant
            start <= i <= end <= chars@.len(),
            forall|k: int| start <= k < i ==> '0' <= #[trigger] chars@[k] && chars@[k] <= '9',
        decreases end - i,
    {
        if !('0' <= chars[i] && chars[i] <= '9') {
            assert(!('0' <= chars@.subrange(start as int, end as int)[i - start] && chars@.subrange(start as int, end as int)[i - start] <= '9'));
            return false;
        }
        i += 1;
    }
    true
}

/// The applet a Plasma applets group header names, with whether it is the
/// applet's `Configuration/General` group; `None` for unrelated groups.
pub open spec fn applet_group_of(line: Seq<char>) -> Result<Option<(Seq<char>, Seq<char>, bool)>, MetadataError> {
    let l = if has_suffix(line, "[$i]"@) {
        line.subrange(0, line.len() - "[$i]"@.len())
    } else {
        line
    };
    if !(l.len() >= 2 && l[0] == '[' && l.last() == ']') {
        Err(MetadataError::MalformedGroup)
    } else {
        let parts = split(l.subrange(1, l.len() - 1), "]["@);
        if !(parts.len() >= 1 && parts[0] == "Containments"@) {
            Ok(None)
        } else if parts.len() < 2 {
            Ok(None)
        } else if !(parts.len() >= 3 && parts[2] == "Applets"@) {
            Ok(None)
        } else if parts.len() < 4 {
            Ok(None)
        } else if !(is_digits(parts[1]) && is_digits(parts[3])) {
            Err(MetadataError::MalformedIdentity)
        } else if parts.len() == 4 {
            Ok(Some((parts[1], parts[3], false)))
        } else if parts.len() == 6 && parts[4] == "Configuration"@ && parts[5] == "General"@ {
            Ok(Some((parts[1], parts[3], true)))
        } else {
            Ok(None)
        }
    }
}

/// A group header as ranges of the input: containment, applet, general.
pub type GroupRanges = ((usize, usize), (usize, usize), bool);

pub open spec fn group_view(chars: Seq<char>, g: GroupRanges) -> (Seq<char>, Seq<char>, bool) {
    (chars.subrange(g.0.0 as int, g.0.1 as int), chars.subrange(g.1.0 as int, g.1.1 as int), g.2)
}

pub open spec fn group_in(g: GroupRanges, len: nat) -> bool {
    g.0.0 <= g.0.1 <= len && g.1.0 <= g.1.1 <= len
}

fn applet_group(chars: &[char], start: usize, end: usize) -> (r: Result<Option<GroupRanges>, MetadataError>)
    requires
        start <= end <= chars@.len(),
    ensures
        match applet_group_of(chars@.subrange(start as int, end as int)) {
            Err(e) => r == Err::<Option<GroupRanges>, MetadataError>(e),
            Ok(None) => r matches Ok(None),
            Ok(Some(g)) => r matches Ok(Some(rg)) && group_in(rg, chars@.len()) && group_view(chars@, rg) == g,
        },
{
    let ghost line = chars@.subrange(start as int, end as int);
    let mut e = end;
    let suffixed = ends_with_lit(chars, start, end, "[$i]");
    proof {
        if "[$i]"@.len() <= line.len() {
            assert(line.subrange(line.len() - "[$i]"@.len(), line.len() as int) =~= chars@.subrange(
                end - "[$i]"@.len(),
                end as int,
            ));
        }
    }
    if suffixed {
        e = end - chars_of("[$i]").len();
    }
    assert(chars@.subrange(start as int, e as int) =~= (if has_suffix(line, "[$i]"@) {
        line.subrange(0, line.len() - "[$i]"@.len())
    } else {
        line
    }));
    if !(e - start >= 2 && chars[start] == '[' && chars[e - 1] == ']') {
        return Err(MetadataError::MalformedGroup);
    }
    let sep = chars_of("][");
    proof {
        reveal_strlit("][");
    }
    let parts = split_ranges(chars, start + 1, e - 1, &sep);
    let ghost inner = chars@.subrange(start + 1, e - 1);
    assert(chars@.subrange(start as int, e as int).subrange(1, (e - start) - 1) =~= inner);
    let n = parts.len();
    if !(n >= 1 && eq_lit(chars, parts[0].0, parts[0].1, "Containments")) {
        return Ok(None);
    }
    if n < 2 {
        return Ok(None);
    }
    if !(n >= 3 && eq_lit(chars, parts[2].0, parts[2].1, "Applets")) {
        return Ok(None);
    }
    if n < 4 {
        return Ok(None);
    }
    if !(digits_ok(chars, parts[1].0, parts[1].1) && digits_ok(chars, parts[3].0, parts[3].1)) {
        return Err(MetadataError::MalformedIdentity);
    }
    if n == 4 {
        return Ok(Some((parts[1], parts[3], false)));
    }
    if n == 6 && eq_lit(chars, parts[4].0, parts[4].1, "Configuration") && eq_lit(
        chars,
        parts[5].0,
        parts[5].1,
        "General",
    ) {
        return Ok(Some((parts[1], parts[3], true)));
    }
    Ok(None)
}

/// An applet identity: containment and applet numbers.
pub type AppletKey = (Seq<char>, Seq<char>);

/// Keyed values in first-insertion order.
pub type Entries = Seq<(AppletKey, Option<Seq<char>>)>;

/// Index of the entry for `key`, or -1.
pub open spec fn key_index(s: Entries, key: AppletKey) -> int
    decreases s.len(),
{
    if s.len() == 0 {
        -1
    } else {
        let j = key_index(s.drop_last(), key);
        if j >= 0 {
            j
        } else if s.last().0 == key {
            s.len() - 1
        } else {
            -1
        }
    }
}

/// `s` with the value for `key` replaced, or appended when absent.
pub open spec fn set_entry(s: Entries, key: AppletKey, value: Option<Seq<char>>) -> Entries {
    let j = key_index(s, key);
    if j >= 0 {
        s.update(j, (key, value))
    } else {
        s.push((key, value))
    }
}

/// The value stored for `key`, if any.
pub open spec fn entry(s: Entries, key: AppletKey) -> Option<Option<Seq<char>>> {
    let j = key_index(s, key);
    if j >= 0 {
        Some(s[j].1)
    } else {
        None
    }
}

/// What has been read of a Plasma applets file so far.
pub struct LauncherScan {
    pub group: Option<(Seq<char>, Seq<char>, bool)>,
    /// Launcher lists of `Configuration/General` groups, by applet.
    pub lists: Entries,
    /// Plugin names of applet groups, by applet.
    pub plugins: Entries,
}

/// `t` split at its first `=`, or all of `t` with an empty value.
pub open spec fn key_value(t: Seq<char>) -> (Seq<char>, Seq<char>) {
    match find(t, seq!['=']) {
        Some(k) => (t.subrange(0, k), t.subrange(k + 1, t.len() as int)),
        None => (t, Seq::empty()),
    }
}

/// Reads one line of a Plasma applets file.
pub open spec fn launcher_line(st: LauncherScan, line: Seq<char>) -> Result<LauncherScan, MetadataError> {
    let t = trim(line);
    if t.len() == 0 || t[0] == '#' {
        Ok(st)
    } else if t[0] == '[' {
        match applet_group_of(t) {
            Err(e) => Err(e),
            Ok(g) => Ok(LauncherScan { group: g, ..st }),
        }
    } else {
        match st.group {
            None => Ok(st),
            Some((containment, applet, general)) => {
                let key = trim(key_value(t).0);
                let expected = if general { "launchers"@ } else { "plugin"@ };
                if split(key, seq!['['])[0] != expected {
                    Ok(st)
                } else {
                    let supported = key == expected || key == expected + "[$i]"@;
                    if supported && find(t, seq!['=']) is None {
                        Err(MetadataError::MalformedKey)
                    } else {
                        let value = if supported { Some(trim(key_value(t).1)) } else { None };
                        if general {
                            Ok(LauncherScan { lists: set_entry(st.lists, (containment, applet), value), ..st })
                        } else {
                            Ok(LauncherScan { plugins: set_entry(st.plugins, (containment, applet), value), ..st })
                        }
                    }
                }
            },
        }
    }
}

/// Reads the lines `ls` in order.
pub open spec fn launcher_lines(ls: Seq<Seq<char>>) -> Result<LauncherScan, MetadataError>
    decreases ls.len(),
{
    if ls.len() == 0 {
        Ok(LauncherScan { group: None, lists: Seq::empty(), plugins: Seq::empty() })
    } else {
        match launcher_lines(ls.drop_last()) {
            Err(e) => Err(e),
            Ok(st) => launcher_line(st, ls.last()),
        }
    }
}

/// Splits a decoded launcher list at unescaped commas (`\,`, `\;` and `\\`
/// escape) and adds each new desktop file ID to `ids`, from index `i` on.
pub open spec fn scan_list(
    d: Seq<char>,
    i: int,
    ids: Seq<Seq<char>>,
    item: Seq<char>,
    quoted: bool,
) -> Result<Seq<Seq<char>>, MetadataError>
    decreases d.len() - i,
{
    if i < 0 || i >= d.len() {
        if !quoted && item.len() == 0 {
            Ok(ids)
        } else {
            Err(MetadataError::UnterminatedListEscape)
        }
    } else {
        let ch = d[i];
        if quoted {
            if ch == ',' || ch == ';' || ch == '\\' {
                scan_list(d, i + 1, ids, item.push(ch), false)
            } else {
                Err(MetadataError::InvalidListEscape)
            }
        } else if ch == '\\' {
            scan_list(d, i + 1, ids, item, true)
        } else if ch == ',' {
            match launcher(item) {
                Err(e) => Err(e),
                Ok(None) => scan_list(d, i + 1, ids, Seq::empty(), false),
                Ok(Some(id)) => if ids.contains(id) {
                    scan_list(d, i + 1, ids, Seq::empty(), false)
                } else if ids.len() >= MAX_LAUNCHERS {
                    Err(MetadataError::TooManyLaunchers)
                } else {
                    scan_list(d, i + 1, ids.push(id), Seq::empty(), false)
                },
            }
        } else {
            scan_list(d, i + 1, ids, item.push(ch), false)
        }
    }
}

/// Whether a decoded plugin name is a task manager.
pub open spec fn is_task_manager(p: Seq<char>) -> bool {
    p == "org.kde.plasma.taskmanager"@ || p == "org.kde.plasma.icontasks"@
}

/// Adds the launchers of the task-manager lists from index `i` on to `ids`.
pub open spec fn collect_launchers(lists: Entries, plugins: Entries, i: int, ids: Seq<Seq<char>>) -> Result<Seq<Seq<char>>, MetadataError>
    decreases lists.len() - i,
{
    if i < 0 || i >= lists.len() {
        Ok(ids)
    } else {
        let (key, value) = lists[i];
        match entry(plugins, key) {
            Some(Some(p)) => match kconfig_text(p) {
                Err(e) => Err(e),
                Ok(plugin) => if !is_task_manager(plugin) {
                    collect_launchers(lists, plugins, i + 1, ids)
                } else {
                    match value {
                        None => collect_launchers(lists, plugins, i + 1, ids),
                        Some(v) => match kconfig_text(v) {
                            Err(e) => Err(e),
                            Ok(d) => if d.len() == 0 || d == "\\0"@ {
                                collect_launchers(lists, plugins, i + 1, ids)
                            } else {
                                match scan_list(d.push(','), 0, ids, Seq::empty(), false) {
                                    Err(e) => Err(e),
                                    Ok(more) => collect_launchers(lists, plugins, i + 1, more),
                                }
                            },
                        },
                    }
                },
            },
            _ => collect_launchers(lists, plugins, i + 1, ids),
        }
    }
}

/// Control characters other than line breaks and tabs.
pub open spec fn is_forbidden_control(c: char) -> bool {
    control_char(c) && c != '\n' && c != '\r' && c != '\t'
}

/// The unique pinned desktop file IDs of the task managers of a complete
/// Plasma applets file, in list and section order.
pub open spec fn launchers_of(input: Seq<char>) -> Result<Seq<Seq<char>>, MetadataError> {
    if byte_len(input) > MAX_APPLETS_BYTES {
        Err(MetadataError::AppletsTooLarge)
    } else if exists|i: int| 0 <= i < input.len() && is_forbidden_control(#[trigger] input[i]) {
        Err(MetadataError::ControlCharacters)
    } else {
        match launcher_lines(lines(input)) {
            Err(e) => Err(e),
            Ok(st) => collect_launchers(st.lists, st.plugins, 0, Seq::empty()),
        }
    }
}

/// Splitting one list keeps the collected IDs unique and within the launcher limit.
proof fn lemma_scan_list_unique(d: Seq<char>, i: int, ids: Seq<Seq<char>>, item: Seq<char>, quoted: bool)
    requires
        ids.no_duplicates(),
        ids.len() <= MAX_LAUNCHERS,
    ensures
        scan_list(d, i, ids, item, quoted) matches Ok(out) ==> out.no_duplicates() && out.len() <= MAX_LAUNCHERS,
    decreases d.len() - i,
{
    if 0 <= i < d.len() {
        let ch = d[i];
        if quoted {
            lemma_scan_list_unique(d, i + 1, ids, item.push(ch), false);
        } else if ch == '\\' {
            lemma_scan_list_unique(d, i + 1, ids, item, true);
        } else if ch == ',' {
            match launcher(item) {
                Err(_) => {},
                Ok(None) => lemma_scan_list_unique(d, i + 1, ids, Seq::empty(), false),
                Ok(Some(id)) => {
                    if ids.contains(id) {
                        lemma_scan_list_unique(d, i + 1, ids, Seq::empty(), false);
                    } else if ids.len() < MAX_LAUNCHERS {
                        let more = ids.push(id);
                        assert forall|a: int, b: int| 0 <= a < b < more.len() implies more[a] != more[b] by {
                            if b == ids.len() {
                                assert(ids.contains(ids[a]));
                            }
                        }
                        lemma_scan_list_unique(d, i + 1, more, Seq::empty(), false);
                    }
                },
            }
        } else {
            lemma_scan_list_unique(d, i + 1, ids, item.push(ch), false);
        }
    }
}

proof fn lemma_collect_unique(lists: Entries, plugins: Entries, i: int, ids: Seq<Seq<char>>)
    requires
        ids.no_duplicates(),
        ids.len() <= MAX_LAUNCHERS,
    ensures
        collect_launchers(lists, plugins, i, ids) matches Ok(out) ==> out.no_duplicates() && out.len() <= MAX_LAUNCHERS,
    decreases lists.len() - i,
{
    if 0 <= i < lists.len() {
        let (key, value) = lists[i];
        match entry(plugins, key) {
            Some(Some(p)) => match kconfig_text(p) {
                Err(_) => {},
                Ok(plugin) => if !is_task_manager(plugin) {
                    lemma_collect_unique(lists, plugins, i + 1, ids);
                } else {
                    match value {
                        None => lemma_collect_unique(lists, plugins, i + 1, ids),
                        Some(v) => match kconfig_text(v) {
                            Err(_) => {},
                            Ok(d) => if d.len() == 0 || d == "\\0"@ {
                                lemma_collect_unique(lists, plugins, i + 1, ids);
                            } else {
                                lemma_scan_list_unique(d.push(','), 0, ids, Seq::empty(), false);
                                match scan_list(d.push(','), 0, ids, Seq::empty(), false) {
                                    Err(_) => {},
                                    Ok(more) => lemma_collect_unique(lists, plugins, i + 1, more),
                                }
                            },
                        },
                    }
                },
            },
            _ => lemma_collect_unique(lists, plugins, i + 1, ids),
        }
    }
}

/// The launchers read from an applets file are unique and at most
/// `MAX_LAUNCHERS` many.
pub proof fn lemma_launchers_unique(input: Seq<char>)
    ensures
        launchers_of(input) matches Ok(ids) ==> ids.no_duplicates() && ids.len() <= MAX_LAUNCHERS,
{
    match launcher_lines(lines(input)) {
        Err(_) => {},
        Ok(st) => lemma_collect_unique(st.lists, st.plugins, 0, Seq::empty()),
    }
}

pub(crate) proof fn lemma_key_index(s: Entries, key: AppletKey)
    ensures
        -1 <= key_index(s, key) < s.len(),
        key_index(s, key) >= 0 ==> s[key_index(s, key)].0 == key,
        forall|i: int| 0 <= i < s.len() && (i < key_index(s, key) || key_index(s, key) < 0) ==> (#[trigger] s[i]).0 != key,
    decreases s.len(),
{
    if s.len() > 0 {
        let t = s.drop_last();
        lemma_key_index(t, key);
        assert forall|i: int| 0 <= i < s.len() && (i < key_index(s, key) || key_index(s, key) < 0) implies (#[trigger] s[i]).0 != key by {
            if i < t.len() {
                assert(s[i] == t[i]);
            }
        }
    }
}

/// An entry as ranges of the input: applet key and optional value.
pub type EntryRanges = ((usize, usize), (usize, usize), Option<(usize, usize)>);

pub open spec fn opt_view(chars: Seq<char>, r: Option<(usize, usize)>) -> Option<Seq<char>> {
    match r {
        Some(v) => Some(chars.subrange(v.0 as int, v.1 as int)),
        None => None,
    }
}

pub open spec fn entries_view(chars: Seq<char>, v: Seq<EntryRanges>) -> Entries {
    v.map_values(|e: EntryRanges| ((chars.subrange(e.0.0 as int, e.0.1 as int), chars.subrange(e.1.0 as int, e.1.1 as int)), opt_view(chars, e.2)))
}

pub open spec fn entries_in(v: Seq<EntryRanges>, len: nat) -> bool {
    forall|i: int| 0 <= i < v.len() ==> {
        let e = #[trigger] v[i];
        &&& e.0.0 <= e.0.1 <= len
        &&& e.1.0 <= e.1.1 <= len
        &&& (e.2 matches Some(r) ==> r.0 <= r.1 <= len)
    }
}

/// Index of the entry whose key is `key`, as `key_index` gives it.
fn find_entry(chars: &[char], v: &Vec<EntryRanges>, key: ((usize, usize), (usize, usize))) -> (r: Option<usize>)
    requires
        entries_in(v@, chars@.len()),
        key.0.0 <= key.0.1 <= chars@.len(),
        key.1.0 <= key.1.1 <= chars@.len(),
    ensures
        ({
            let k = key_index(
                entries_view(chars@, v@),
                (chars@.subrange(key.0.0 as int, key.0.1 as int), chars@.subrange(key.1.0 as int, key.1.1 as int)),
            );
            match r {
                Some(j) => j == k,
                None => k == -1,
            }
        }),
{
    let ghost kv = (chars@.subrange(key.0.0 as int, key.0.1 as int), chars@.subrange(key.1.0 as int, key.1.1 as int));
    let ghost view = entries_view(chars@, v@);
    proof {
        lemma_key_index(view, kv);
    }
    let mut j: usize = 0;
    while j < v.len()
        invariant
            j <= v@.len(),
            entries_in(v@, chars@.len()),
            key.0.0 <= key.0.1 <= chars@.len(),
            key.1.0 <= key.1.1 <= chars@.len(),
            view == entries_view(chars@, v@),
            kv == (chars@.subrange(key.0.0 as int, key.0.1 as int), chars@.subrange(key.1.0 as int, key.1.1 as int)),
            forall|i: int| 0 <= i < j ==> (#[trigger] view[i]).0 != kv,
        decreases v@.len() - j,
    {
        let e = v[j];
        assert(view[j as int] == ((chars@.subrange(e.0.0 as int, e.0.1 as int), chars@.subrange(e.1.0 as int, e.1.1 as int)), opt_view(chars@, e.2)));
        assert(e.0.0 <= e.0.1 <= chars@.len() && e.1.0 <= e.1.1 <= chars@.len());
        let same_containment = ranges_eq(chars, e.0, key.0);
        let same_applet = ranges_eq(chars, e.1, key.1);
        if same_containment && same_applet {
            assert(view[j as int].0 == kv);
            proof {
                lemma_key_index(view, kv);
            }
            return Some(j);
        }
        assert(view[j as int].0 != kv);
        j += 1;
    }
    None
}

fn set_entry_exec(chars: &[char], v: &mut Vec<EntryRanges>, e: EntryRanges)
    requires
        entries_in(old(v)@, chars@.len()),
        entries_in(seq![e], chars@.len()),
    ensures
        entries_in(final(v)@, chars@.len()),
        entries_view(chars@, final(v)@) == set_entry(
            entries_view(chars@, old(v)@),
            (chars@.subrange(e.0.0 as int, e.0.1 as int), chars@.subrange(e.1.0 as int, e.1.1 as int)),
            opt_view(chars@, e.2),
        ),
{
    assert(entries_in(seq![e], chars@.len()) ==> {
        let x = seq![e][0];
        x.0.0 <= x.0.1 <= chars@.len() && x.1.0 <= x.1.1 <= chars@.len()
    });
    let found = find_entry(chars, v, (e.0, e.1));
    proof {
        lemma_key_index(entries_view(chars@, v@), (chars@.subrange(e.0.0 as int, e.0.1 as int), chars@.subrange(e.1.0 as int, e.1.1 as int)));
    }
    match found {
        Some(j) => {
            v.set(j, e);
        },
        None => {
            v.push(e);
        },
    }
    assert(entries_view(chars@, v@) =~= set_entry(
        entries_view(chars@, old(v)@),
        (chars@.subrange(e.0.0 as int, e.0.1 as int), chars@.subrange(e.1.0 as int, e.1.1 as int)),
        opt_view(chars@, e.2),
    ));
}

pub open spec fn scan_view(
    chars: Seq<char>,
    group: Option<GroupRanges>,
    lists: Seq<EntryRanges>,
    plugins: Seq<EntryRanges>,
) -> LauncherScan {
    LauncherScan {
        group: match group {
            Some(g) => Some(group_view(chars, g)),
            None => None,
        },
        lists: entries_view(chars, lists),
        plugins: entries_view(chars, plugins),
    }
}

pub open spec fn scan_in(group: Option<GroupRanges>, lists: Seq<EntryRanges>, plugins: Seq<EntryRanges>, len: nat) -> bool {
    &&& (group matches Some(g) ==> group_in(g, len))
    &&& entries_in(lists, len)
    &&& entries_in(plugins, len)
}

/// The first `=` of `chars[a..b]`, as `find` gives it on that text.
fn find_equals(chars: &[char], a: usize, b: usize) -> (r: Option<usize>)
    requires
        a <= b <= chars@.len(),
    ensures
        match find(chars@.subrange(a as int, b as int), seq!['=']) {
            Some(k) => 0 <= k && a + k < b && r == Some((k + a) as usize),
            None => r is None,
        },
{
    let pat = ['='];
    assert(pat@ =~= seq!['=']);
    let r = find_in(chars, a, b, &pat);
    proof {
        let s = chars@.subrange(0, b as int);
        crate::text::lemma_find_shift(s, a as int, seq!['='], a as int);
        assert(s.subrange(a as int, s.len() as int) =~= chars@.subrange(a as int, b as int));
        crate::text::lemma_find_from_bounds(chars@.subrange(a as int, b as int), seq!['='], 0);
    }
    r
}

fn launcher_line_exec(
    chars: &[char],
    a: usize,
    b: usize,
    group: &mut Option<GroupRanges>,
    lists: &mut Vec<EntryRanges>,
    plugins: &mut Vec<EntryRanges>,
) -> (r: Result<(), MetadataError>)
    requires
        a <= b <= chars@.len(),
        scan_in(*old(group), old(lists)@, old(plugins)@, chars@.len()),
    ensures
        scan_in(*final(group), final(lists)@, final(plugins)@, chars@.len()),
        match launcher_line(scan_view(chars@, *old(group), old(lists)@, old(plugins)@), chars@.subrange(a as int, b as int)) {
            Ok(st) => r is Ok && scan_view(chars@, *final(group), final(lists)@, final(plugins)@) == st,
            Err(e) => r == Err::<(), MetadataError>(e),
        },
{
    let ghost st = scan_view(chars@, *group, lists@, plugins@);
    let (ta, tb) = trim_bounds(chars, a, b);
    let ghost t = chars@.subrange(ta as int, tb as int);
    if ta == tb || chars[ta] == '#' {
        return Ok(());
    }
    assert(t[0] == chars@[ta as int]);
    if chars[ta] == '[' {
        match applet_group(chars, ta, tb) {
            Err(e) => return Err(e),
            Ok(g) => {
                *group = g;
                return Ok(());
            },
        }
    }
    let (c, ap, general) = match *group {
        None => return Ok(()),
        Some(g) => g,
    };
    let eq = find_equals(chars, ta, tb);
    proof {
        if let Some(k) = eq {
            assert(find(t, seq!['=']) is Some);
            let ks = find(t, seq!['='])->0;
            assert(eq == Some((ks + ta) as usize));
            assert(k < tb);
        }
    }
    let (ka, kb, va, vb) = match eq {
        Some(k) => (ta, k, k + 1, tb),
        None => (ta, tb, tb, tb),
    };
    proof {
        match find(t, seq!['=']) {
            Some(k) => {
                assert(kb == ta + k);
                assert(t.subrange(0, k) =~= chars@.subrange(ka as int, kb as int));
                assert(t.subrange(k + 1, t.len() as int) =~= chars@.subrange(va as int, vb as int));
            },
            None => {
                assert(chars@.subrange(va as int, vb as int) =~= Seq::<char>::empty());
            },
        }
    }
    let (ka, kb) = trim_bounds(chars, ka, kb);
    let bracket = ['['];
    assert(bracket@ =~= seq!['[']);
    let parts = split_ranges(chars, ka, kb, &bracket);
    proof {
        lemma_split_nonempty(chars@.subrange(ka as int, kb as int), seq!['[']);
        reveal_strlit("launchers");
        reveal_strlit("plugin");
        reveal_strlit("[$i]");
        reveal_strlit("launchers[$i]");
        reveal_strlit("plugin[$i]");
        assert("launchers[$i]"@ =~= "launchers"@ + "[$i]"@);
        assert("plugin[$i]"@ =~= "plugin"@ + "[$i]"@);
    }
    let head = parts[0];
    let named = if general {
        eq_lit(chars, head.0, head.1, "launchers")
    } else {
        eq_lit(chars, head.0, head.1, "plugin")
    };
    if !named {
        return Ok(());
    }
    let supported = if general {
        eq_lit(chars, ka, kb, "launchers") || eq_lit(chars, ka, kb, "launchers[$i]")
    } else {
        eq_lit(chars, ka, kb, "plugin") || eq_lit(chars, ka, kb, "plugin[$i]")
    };
    if supported && eq.is_none() {
        return Err(MetadataError::MalformedKey);
    }
    let value = if supported {
        let (x, y) = trim_bounds(chars, va, vb);
        Some((x, y))
    } else {
        None
    };
    let e: EntryRanges = (c, ap, value);
    if general {
        set_entry_exec(chars, lists, e);
    } else {
        set_entry_exec(chars, plugins, e);
    }
    Ok(())
}

pub open spec fn ids_view(v: Seq<Vec<char>>) -> Seq<Seq<char>> {
    v.map_values(|x: Vec<char>| x@)
}

fn ids_contain(ids: &Vec<Vec<char>>, id: &Vec<char>) -> (r: bool)
    ensures
        r == ids_view(ids@).contains(id@),
{
    let mut i: usize = 0;
    while i < ids.len()
        invariant
            i <= ids@.len(),
            forall|k: int| 0 <= k < i ==> (#[trigger] ids@[k])@ != id@,
        decreases ids@.len() - i,
    {
        if chars_eq(ids[i].as_slice(), id.as_slice()) {
            assert(ids_view(ids@)[i as int] == id@);
            return true;
        }
        i += 1;
    }
    proof {
        if ids_view(ids@).contains(id@) {
            let k = choose|k: int| 0 <= k < ids_view(ids@).len() && ids_view(ids@)[k] == id@;
            assert(ids@[k]@ == id@);
        }
    }
    false
}

fn scan_list_exec(d: &Vec<char>, ids: &mut Vec<Vec<char>>) -> (r: Result<(), MetadataError>)
    ensures
        match scan_list(d@, 0, ids_view(old(ids)@), Seq::empty(), false) {
            Ok(x) => r is Ok && ids_view(final(ids)@) == x,
            Err(e) => r == Err::<(), MetadataError>(e),
        },
{
    let ghost goal = scan_list(d@, 0, ids_view(ids@), Seq::empty(), false);
    let mut item: Vec<char> = Vec::new();
    let mut quoted = false;
    let mut i: usize = 0;
    while i < d.len()
        invariant
            i <= d@.len(),
            goal == scan_list(d@, 0, ids_view(old(ids)@), Seq::empty(), false),
            goal == scan_list(d@, i as int, ids_view(ids@), item@, quoted),
        decreases d@.len() - i,
    {
        let ch = d[i];
        if quoted {
            if ch == ',' || ch == ';' || ch == '\\' {
                item.push(ch);
                quoted = false;
            } else {
                return Err(MetadataError::InvalidListEscape);
            }
        } else if ch == '\\' {
            quoted = true;
        } else if ch == ',' {
            match launcher_id(item.as_slice()) {
                Err(e) => return Err(e),
                Ok(None) => {},
                Ok(Some(id)) => {
                    if !ids_contain(ids, &id) {
                        if ids.len() >= MAX_LAUNCHERS {
                            return Err(MetadataError::TooManyLaunchers);
                        }
                        let ghost before = ids_view(ids@);
                        ids.push(id);
                        assert(ids_view(ids@) =~= before.push(id@));
                    }
                },
            }
            item = Vec::new();
        } else {
            item.push(ch);
        }
        i += 1;
    }
    if quoted || item.len() != 0 {
        return Err(MetadataError::UnterminatedListEscape);
    }
    assert(item@ =~= Seq::<char>::empty());
    Ok(())
}

fn collect_exec(
    chars: &[char],
    lists: &Vec<EntryRanges>,
    plugins: &Vec<EntryRanges>,
) -> (r: Result<Vec<Vec<char>>, MetadataError>)
    requires
        entries_in(lists@, chars@.len()),
        entries_in(plugins@, chars@.len()),
    ensures
        match collect_launchers(entries_view(chars@, lists@), entries_view(chars@, plugins@), 0, Seq::empty()) {
            Ok(x) => r matches Ok(ids) && ids_view(ids@) == x,
            Err(e) => r == Err::<Vec<Vec<char>>, MetadataError>(e),
        },
{
    let ghost lv = entries_view(chars@, lists@);
    let ghost pv = entries_view(chars@, plugins@);
    let ghost goal = collect_launchers(lv, pv, 0, Seq::empty());
    let mut ids: Vec<Vec<char>> = Vec::new();
    assert(ids_view(ids@) =~= Seq::empty());
    let mut i: usize = 0;
    while i < lists.len()
        invariant
            i <= lists@.len(),
            entries_in(lists@, chars@.len()),
            entries_in(plugins@, chars@.len()),
            lv == entries_view(chars@, lists@),
            pv == entries_view(chars@, plugins@),
            goal == collect_launchers(lv, pv, 0, Seq::empty()),
            goal == collect_launchers(lv, pv, i as int, ids_view(ids@)),
        decreases lists@.len() - i,
    {
        let e = lists[i];
        assert(lv[i as int] == ((chars@.subrange(e.0.0 as int, e.0.1 as int), chars@.subrange(e.1.0 as int, e.1.1 as int)), opt_view(chars@, e.2)));
        assert(e.0.0 <= e.0.1 <= chars@.len() && e.1.0 <= e.1.1 <= chars@.len());
        let found = find_entry(chars, plugins, (e.0, e.1));
        proof {
            lemma_key_index(pv, lv[i as int].0);
        }
        let plugin = match found {
            None => {
                i += 1;
                continue;
            },
            Some(j) => plugins[j].2,
        };
        let p = match plugin {
            None => {
                i += 1;
                continue;
            },
            Some(p) => p,
        };
        assert(p.0 <= p.1 <= chars@.len());
        let name = match decode_kconfig(chars, p.0, p.1) {
            Err(err) => return Err(err),
            Ok(name) => name,
        };
        let n = name.len();
        assert(name@.subrange(0, n as int) =~= name@);
        if !(eq_lit(name.as_slice(), 0, n, "org.kde.plasma.taskmanager") || eq_lit(name.as_slice(), 0, n, "org.kde.plasma.icontasks")) {
            i += 1;
            continue;
        }
        let v = match e.2 {
            None => {
                i += 1;
                continue;
            },
            Some(v) => v,
        };
        let mut decoded = match decode_kconfig(chars, v.0, v.1) {
            Err(err) => return Err(err),
            Ok(d) => d,
        };
        let m = decoded.len();
        assert(decoded@.subrange(0, m as int) =~= decoded@);
        if m == 0 || eq_lit(decoded.as_slice(), 0, m, "\\0") {
            i += 1;
            continue;
        }
        decoded.push(',');
        match scan_list_exec(&decoded, &mut ids) {
            Err(err) => return Err(err),
            Ok(()) => {},
        }
        i += 1;
    }
    Ok(ids)
}

/// Parses a complete Plasma applets KConfig file. Only taskmanager/icontasks
/// `Configuration/General` launcher lists are read; the result holds the unique
/// desktop file IDs (including `.desktop`) in list and section order.
pub fn parse_launchers(input: &str) -> (r: Result<Vec<String>, MetadataError>)
    ensures
        match launchers_of(input@) {
            Ok(ids) => r matches Ok(out) && crate::text::texts(out@) == ids,
            Err(e) => r == Err::<Vec<String>, MetadataError>(e),
        },
{
    if crate::text::str_byte_len(input) > MAX_APPLETS_BYTES {
        return Err(MetadataError::AppletsTooLarge);
    }
    let chars = chars_of(input);
    let mut i: usize = 0;
    while i < chars.len()
        invariant
            i <= chars@.len(),
            chars@ == input@,
            byte_len(input@) <= MAX_APPLETS_BYTES,
            forall|k: int| 0 <= k < i ==> !is_forbidden_control(#[trigger] chars@[k]),
        decreases chars@.len() - i,
    {
        let c = chars[i];
        if crate::text::is_control(c) && c != '\n' && c != '\r' && c != '\t' {
            assert(is_forbidden_control(input@[i as int]));
            return Err(MetadataError::ControlCharacters);
        }
        i += 1;
    }
    let ranges = crate::text::line_ranges(chars.as_slice());
    let ghost ls = lines(chars@);
    let mut group: Option<GroupRanges> = None;
    let mut lists: Vec<EntryRanges> = Vec::new();
    let mut plugins: Vec<EntryRanges> = Vec::new();
    assert(ls.subrange(0, 0) =~= Seq::<Seq<char>>::empty());
    assert(entries_view(chars@, lists@) =~= Seq::empty());
    assert(entries_view(chars@, plugins@) =~= Seq::empty());
    let mut k: usize = 0;
    while k < ranges.len()
        invariant
            k <= ranges@.len(),
            chars@ == input@,
            byte_len(input@) <= MAX_APPLETS_BYTES,
            forall|x: int| 0 <= x < chars@.len() ==> !is_forbidden_control(#[trigger] chars@[x]),
            ranges@.len() == ls.len(),
            ls == lines(chars@),
            forall|j: int| 0 <= j < ranges@.len() ==> {
                let (a, b) = #[trigger] ranges@[j];
                &&& a <= b <= chars@.len()
                &&& chars@.subrange(a as int, b as int) == ls[j]
            },
            scan_in(group, lists@, plugins@, chars@.len()),
            launcher_lines(ls.subrange(0, k as int)) == Ok::<LauncherScan, MetadataError>(scan_view(chars@, group, lists@, plugins@)),
        decreases ranges@.len() - k,
    {
        let (a, b) = ranges[k];
        assert(ls.subrange(0, k + 1).drop_last() =~= ls.subrange(0, k as int));
        match launcher_line_exec(chars.as_slice(), a, b, &mut group, &mut lists, &mut plugins) {
            Err(e) => {
                proof {
                    lemma_launcher_lines_error(ls, k as int + 1, e);
                }
                return Err(e);
            },
            Ok(()) => {},
        }
        k += 1;
    }
    assert(ls.subrange(0, k as int) =~= ls);
    let ids = match collect_exec(chars.as_slice(), &lists, &plugins) {
        Err(e) => return Err(e),
        Ok(ids) => ids,
    };
    let mut out: Vec<String> = Vec::new();
    let mut j: usize = 0;
    while j < ids.len()
        invariant
            j <= ids@.len(),
            out@.len() == j,
            forall|x: int| 0 <= x < j ==> (#[trigger] out@[x])@ == ids@[x]@,
        decreases ids@.len() - j,
    {
        let n = ids[j].len();
        let s = crate::text::string_of(ids[j].as_slice(), 0, n);
        assert(ids@[j as int]@.subrange(0, n as int) =~= ids@[j as int]@);
        out.push(s);
        j += 1;
    }
    assert(crate::text::texts(out@) =~= ids_view(ids@));
    Ok(out)
}

/// An error in a prefix of the lines is the error of the whole file.
pub(crate) proof fn lemma_launcher_lines_error(ls: Seq<Seq<char>>, k: int, e: MetadataError)
    requires
        0 <= k <= ls.len(),
        launcher_lines(ls.subrange(0, k)) == Err::<LauncherScan, MetadataError>(e),
    ensures
        launcher_lines(ls) == Err::<LauncherScan, MetadataError>(e),
    decreases ls.len() - k,
{
    if k < ls.len() {
        assert(ls.subrange(0, k + 1).drop_last() =~= ls.subrange(0, k));
        lemma_launcher_lines_error(ls, k + 1, e);
    } else {
        assert(ls.subrange(0, k) =~= ls);
    }
}

/// A desktop entry string value: `\s \n \r \t \\` unescape; any other
/// escape is refused.
pub open spec fn desktop_text(v: Seq<char>) -> Result<Seq<char>, MetadataError>
    decreases v.len(),
{
    if v.len() == 0 {
        Ok(Seq::empty())
    } else if v[0] != '\\' {
        match desktop_text(v.drop_first()) {
            Ok(r) => Ok(seq![v[0]] + r),
            Err(e) => Err(e),
        }
    } else if v.len() < 2 {
        Err(MetadataError::IncompleteEntryEscape)
    } else {
        let c = v[1];
        let mapped = if c == 's' {
            Some(' ')
        } else if c == 'n' {
            Some('\n')
        } else if c == 'r' {
            Some('\r')
        } else if c == 't' {
            Some('\t')
        } else if c == '\\' {
            Some('\\')
        } else {
            None
        };
        match mapped {
            None => Err(MetadataError::InvalidEntryEscape),
            Some(m) => match desktop_text(v.subrange(2, v.len() as int)) {
                Ok(r) => Ok(seq![m] + r),
                Err(e) => Err(e),
            },
        }
    }
}

pub fn desktop_string(chars: &[char], start: usize, end: usize) -> (r: Result<Vec<char>, MetadataError>)
    requires
        start <= end <= chars@.len(),
    ensures
        match desktop_text(chars@.subrange(start as int, end as int)) {
            Ok(t) => r matches Ok(out) && out@ == t,
            Err(e) => r == Err::<Vec<char>, MetadataError>(e),
        },
{
    let ghost v = chars@.subrange(start as int, end as int);
    let mut out: Vec<char> = Vec::new();
    let mut i = start;
    assert(v.subrange(0, v.len() as int) =~= v);
    while i < end
        invariant
            start <= i <= end <= chars@.len(),
            v == chars@.subrange(start as int, end as int),
            desktop_text(v) == (match desktop_text(chars@.subrange(i as int, end as int)) {
                Ok(r) => Ok(out@ + r),
                Err(e) => Err(e),
            }),
        decreases end - i,
    {
        let ghost w = chars@.subrange(i as int, end as int);
        let ghost before = out@;
        let c = chars[i];
        if c != '\\' {
            assert(w.drop_first() =~= chars@.subrange(i + 1, end as int));
            out.push(c);
            proof {
                match desktop_text(chars@.subrange(i + 1, end as int)) {
                    Ok(r) => {
                        assert(before + (seq![c] + r) =~= out@ + r);
                    },
                    Err(e) => {},
                }
            }
            i += 1;
            continue;
        }
        if i + 1 >= end {
            return Err(MetadataError::IncompleteEntryEscape);
        }
        let e = chars[i + 1];
        let m = if e == 's' {
            ' '
        } else if e == 'n' {
            '\n'
        } else if e == 'r' {
            '\r'
        } else if e == 't' {
            '\t'
        } else if e == '\\' {
            '\\'
        } else {
            return Err(MetadataError::InvalidEntryEscape);
        };
        assert(w.subrange(2, w.len() as int) =~= chars@.subrange(i + 2, end as int));
        out.push(m);
        proof {
            match desktop_text(chars@.subrange(i + 2, end as int)) {
                Ok(r) => {
                    assert(before + (seq![m] + r) =~= out@ + r);
                },
                Err(e) => {},
            }
        }
        i += 2;
    }
    assert(desktop_text(chars@.subrange(i as int, end as int)) == Ok::<Seq<char>, MetadataError>(Seq::empty()));
    assert(out@ + Seq::<char>::empty() =~= out@);
    Ok(out)
}

/// ASCII upper-case letters lowered; every other character kept.
pub open spec fn ascii_lower(c: char) -> char {
    if 'A' <= c && c <= 'Z' {
        ((c as u32) + 32) as char
    } else {
        c
    }
}

/// Equality of texts ignoring ASCII case.
pub open spec fn eq_ignore_ascii_case(a: Seq<char>, b: Seq<char>) -> bool {
    a.len() == b.len() && forall|i: int| 0 <= i < a.len() ==> ascii_lower(#[trigger] a[i]) == ascii_lower(b[i])
}

pub(crate) fn lower(c: char) -> (r: char)
    ensures
        r == ascii_lower(c),
{
    if 'A' <= c && c <= 'Z' {
        let v = (c as u32) + 32;
        proof {
            vstd::utf8::char_u32_cast(c, c as u32);
        }
        char_from_ascii(v)
    } else {
        c
    }
}

fn char_from_ascii(v: u32) -> (r: char)
    requires
        v < 0x80,
    ensures
        r == v as char,
{
    (v as u8) as char
}

pub fn eq_ignore_case(chars: &[char], start: usize, end: usize, lit: &str) -> (r: bool)
    requires
        start <= end <= chars@.len(),
    ensures
        r == eq_ignore_ascii_case(chars@.subrange(start as int, end as int), lit@),
{
    let b = chars_of(lit);
    if b.len() != end - start {
        return false;
    }
    let mut i: usize = 0;
    while i < b.len()
        invariant
            b@ == lit@,
            b@.len() == end - start,
            start <= end <= chars@.len(),
            i <= b@.len(),
            forall|k: int| 0 <= k < i ==> ascii_lower(#[trigger] chars@[start + k]) == ascii_lower(b@[k]),
        decreases b@.len() - i,
    {
        if lower(chars[start + i]) != lower(b[i]) {
            assert(ascii_lower(chars@.subrange(start as int, end as int)[i as int]) != ascii_lower(lit@[i as int]));
            return false;
        }
        i += 1;
    }
    assert forall|k: int| 0 <= k < end - start implies ascii_lower(#[trigger] chars@.subrange(start as int, end as int)[k]) == ascii_lower(lit@[k]) by {
        assert(chars@.subrange(start as int, end as int)[k] == chars@[start + k]);
    }
    true
}

pub open spec fn str_views(v: Seq<&str>) -> Seq<Seq<char>> {
    v.map_values(|s: &str| s@)
}

/// Some `;`-separated category is one of `list`.
pub open spec fn has_category(categories: Seq<char>, list: Seq<Seq<char>>) -> bool {
    exists|i: int| 0 <= i < split(categories, seq![';']).len() && list.contains(#[trigger] split(categories, seq![';'])[i])
}

/// `id` is one of `list`, ignoring ASCII case.
pub open spec fn is_known(id: Seq<char>, list: Seq<Seq<char>>) -> bool {
    exists|i: int| 0 <= i < list.len() && eq_ignore_ascii_case(id, #[trigger] list[i])
}

pub open spec fn utility_categories() -> Seq<Seq<char>> {
    seq!["System"@, "Settings"@, "Security"@, "Accessibility"@]
}

pub open spec fn communication_categories() -> Seq<Seq<char>> {
    seq!["Email"@, "InstantMessaging"@, "Chat"@, "IRCClient"@, "Telephony"@, "VideoConference"@]
}

pub open spec fn browser_categories() -> Seq<Seq<char>> {
    seq!["WebBrowser"@]
}

pub open spec fn productivity_categories() -> Seq<Seq<char>> {
    seq!["Development"@, "IDE"@, "TextEditor"@, "Notes"@]
}

pub open spec fn communication_ids() -> Seq<Seq<char>> {
    seq!["signal"@, "org.signal.signal"@, "telegram"@, "org.telegram.desktop"@, "element"@, "im.riot.riot"@]
}

pub open spec fn browser_ids() -> Seq<Seq<char>> {
    seq!["firefox"@, "org.mozilla.firefox"@, "chromium"@]
}

pub open spec fn productivity_ids() -> Seq<Seq<char>> {
    seq!["code"@, "codium"@, "com.vscodium.codium"@, "obsidian"@, "md.obsidian.obsidian"@]
}

/// Example category of an application: declared desktop categories first,
/// then a small list of widely used IDs lacking specific categories.
pub open spec fn kind_of(id: Seq<char>, categories: Seq<char>) -> AppKind {
    if has_category(categories, utility_categories()) {
        AppKind::Utility
    } else if has_category(categories, communication_categories()) {
        AppKind::Communication
    } else if has_category(categories, browser_categories()) {
        AppKind::Browser
    } else if has_category(categories, productivity_categories()) {
        AppKind::Productivity
    } else if is_known(id, communication_ids()) {
        AppKind::Communication
    } else if is_known(id, browser_ids()) {
        AppKind::Browser
    } else if is_known(id, productivity_ids()) {
        AppKind::Productivity
    } else {
        AppKind::Utility
    }
}

/// `categories` declares the category `c`: one of its `;`-separated parts is `c`.
pub open spec fn declares(categories: Seq<char>, c: Seq<char>) -> bool {
    exists|i: int| 0 <= i < split(categories, seq![';']).len() && #[trigger] split(categories, seq![';'])[i] == c
}

/// Declared system categories win: an application declaring `System`,
/// `Settings`, `Security` or `Accessibility` is a utility, whatever else it
/// declares or is called.
pub proof fn lemma_system_categories_are_utilities(id: Seq<char>, categories: Seq<char>, c: Seq<char>)
    requires
        c == "System"@ || c == "Settings"@ || c == "Security"@ || c == "Accessibility"@,
        declares(categories, c),
    ensures
        kind_of(id, categories) == AppKind::Utility,
{
    let i = choose|i: int| 0 <= i < split(categories, seq![';']).len() && #[trigger] split(categories, seq![';'])[i] == c;
    assert(utility_categories()[0] == "System"@);
    assert(utility_categories()[1] == "Settings"@);
    assert(utility_categories()[2] == "Security"@);
    assert(utility_categories()[3] == "Accessibility"@);
    assert(utility_categories().contains(c));
}

/// Mail, chat, messaging, IRC, telephony and video-call clients are
/// communication applications: an application declaring one of `Email`,
/// `InstantMessaging`, `Chat`, `IRCClient`, `Telephony` or
/// `VideoConference`, and none of the system categories, is classified
/// `Communication`, whatever it is called.
pub proof fn lemma_messaging_categories_communicate(id: Seq<char>, categories: Seq<char>, c: Seq<char>)
    requires
        c == "Email"@ || c == "InstantMessaging"@ || c == "Chat"@ || c == "IRCClient"@ || c == "Telephony"@
            || c == "VideoConference"@,
        declares(categories, c),
        !declares(categories, "System"@),
        !declares(categories, "Settings"@),
        !declares(categories, "Security"@),
        !declares(categories, "Accessibility"@),
    ensures
        kind_of(id, categories) == AppKind::Communication,
{
    let parts = split(categories, seq![';']);
    let i = choose|i: int| 0 <= i < parts.len() && #[trigger] parts[i] == c;
    assert(communication_categories()[0] == "Email"@);
    assert(communication_categories()[1] == "InstantMessaging"@);
    assert(communication_categories()[2] == "Chat"@);
    assert(communication_categories()[3] == "IRCClient"@);
    assert(communication_categories()[4] == "Telephony"@);
    assert(communication_categories()[5] == "VideoConference"@);
    assert(communication_categories().contains(c));
    assert forall|j: int| 0 <= j < parts.len() implies !utility_categories().contains(#[trigger] parts[j]) by {
        if utility_categories().contains(parts[j]) {
            let u = choose|u: int| 0 <= u < utility_categories().len() && utility_categories()[u] == parts[j];
            assert(u == 0 || u == 1 || u == 2 || u == 3);
        }
    }
}

pub(crate) fn list_has(chars: &[char], start: usize, end: usize, list: &[&str]) -> (r: bool)
    requires
        start <= end <= chars@.len(),
    ensures
        r == str_views(list@).contains(chars@.subrange(start as int, end as int)),
{
    let mut j: usize = 0;
    while j < list.len()
        invariant
            j <= list@.len(),
            start <= end <= chars@.len(),
            forall|k: int| 0 <= k < j ==> (#[trigger] list@[k])@ != chars@.subrange(start as int, end as int),
        decreases list@.len() - j,
    {
        if eq_lit(chars, start, end, list[j]) {
            assert(str_views(list@)[j as int] == chars@.subrange(start as int, end as int));
            return true;
        }
        j += 1;
    }
    proof {
        if str_views(list@).contains(chars@.subrange(start as int, end as int)) {
            let k = choose|k: int| 0 <= k < str_views(list@).len() && str_views(list@)[k] == chars@.subrange(start as int, end as int);
            assert(list@[k]@ == chars@.subrange(start as int, end as int));
        }
    }
    false
}

fn has_category_exec(chars: &[char], start: usize, end: usize, list: &[&str]) -> (r: bool)
    requires
        start <= end <= chars@.len(),
    ensures
        r == has_category(chars@.subrange(start as int, end as int), str_views(list@)),
{
    let semicolon = [';'];
    assert(semicolon@ =~= seq![';']);
    let parts = split_ranges(chars, start, end, &semicolon);
    let ghost sp = split(chars@.subrange(start as int, end as int), seq![';']);
    let mut k: usize = 0;
    while k < parts.len()
        invariant
            k <= parts@.len(),
            start <= end <= chars@.len(),
            parts@.len() == sp.len(),
            sp == split(chars@.subrange(start as int, end as int), seq![';']),
            forall|x: int|
                0 <= x < parts@.len() ==> {
                    let (a, b) = #[trigger] parts@[x];
                    &&& start <= a <= b <= end
                    &&& chars@.subrange(a as int, b as int) == sp[x]
                },
            forall|x: int| 0 <= x < k ==> !str_views(list@).contains(#[trigger] sp[x]),
        decreases parts@.len() - k,
    {
        let (a, b) = parts[k];
        if list_has(chars, a, b, list) {
            assert(str_views(list@).contains(sp[k as int]));
            return true;
        }
        k += 1;
    }
    false
}

pub(crate) fn known_exec(chars: &[char], start: usize, end: usize, list: &[&str]) -> (r: bool)
    requires
        start <= end <= chars@.len(),
    ensures
        r == is_known(chars@.subrange(start as int, end as int), str_views(list@)),
{
    let mut j: usize = 0;
    while j < list.len()
        invariant
            j <= list@.len(),
            start <= end <= chars@.len(),
            forall|k: int| 0 <= k < j ==> !eq_ignore_ascii_case(chars@.subrange(start as int, end as int), (#[trigger] list@[k])@),
        decreases list@.len() - j,
    {
        if eq_ignore_case(chars, start, end, list[j]) {
            assert(eq_ignore_ascii_case(chars@.subrange(start as int, end as int), str_views(list@)[j as int]));
            return true;
        }
        j += 1;
    }
    proof {
        if is_known(chars@.subrange(start as int, end as int), str_views(list@)) {
            let k = choose|k: int| 0 <= k < str_views(list@).len() && eq_ignore_ascii_case(chars@.subrange(start as int, end as int), str_views(list@)[k]);
            assert(str_views(list@)[k] == list@[k]@);
        }
    }
    false
}

/// The example category of an application from its routing ID and its
/// declared desktop categories.
pub fn classify_chars(id: &[char], categories: &[char]) -> (r: AppKind)
    ensures
        r == kind_of(id@, categories@),
{
    let n = categories.len();
    let m = id.len();
    assert(categories@.subrange(0, n as int) =~= categories@);
    assert(id@.subrange(0, m as int) =~= id@);
    let utility = ["System", "Settings", "Security", "Accessibility"];
    assert(str_views(utility@) =~= utility_categories());
    if has_category_exec(categories, 0, n, &utility) {
        return AppKind::Utility;
    }
    let communication = ["Email", "InstantMessaging", "Chat", "IRCClient", "Telephony", "VideoConference"];
    assert(str_views(communication@) =~= communication_categories());
    if has_category_exec(categories, 0, n, &communication) {
        return AppKind::Communication;
    }
    let browser = ["WebBrowser"];
    assert(str_views(browser@) =~= browser_categories());
    if has_category_exec(categories, 0, n, &browser) {
        return AppKind::Browser;
    }
    let productivity = ["Development", "IDE", "TextEditor", "Notes"];
    assert(str_views(productivity@) =~= productivity_categories());
    if has_category_exec(categories, 0, n, &productivity) {
        return AppKind::Productivity;
    }
    let chat_ids = ["signal", "org.signal.signal", "telegram", "org.telegram.desktop", "element", "im.riot.riot"];
    assert(str_views(chat_ids@) =~= communication_ids());
    if known_exec(id, 0, m, &chat_ids) {
        return AppKind::Communication;
    }
    let web_ids = ["firefox", "org.mozilla.firefox", "chromium"];
    assert(str_views(web_ids@) =~= browser_ids());
    if known_exec(id, 0, m, &web_ids) {
        return AppKind::Browser;
    }
    let editor_ids = ["code", "codium", "com.vscodium.codium", "obsidian", "md.obsidian.obsidian"];
    assert(str_views(editor_ids@) =~= productivity_ids());
    if known_exec(id, 0, m, &editor_ids) {
        return AppKind::Productivity;
    }
    AppKind::Utility
}

/// The restrained color of a suggested rule for an application of `kind`
/// that has no icon.
pub open spec fn kind_color(kind: AppKind) -> [u8; 3] {
    match kind {
        AppKind::Communication => [85, 170, 150],
        AppKind::Browser => [95, 150, 215],
        AppKind::Productivity => [175, 140, 200],
        AppKind::Utility => [185, 160, 110],
    }
}

/// The color a suggested rule for `app` starts with: its icon's dominant
/// color, or the color of its kind when it has no icon.
pub fn suggested_color(app: &PinnedApp) -> (r: [u8; 3])
    ensures
        r == (match app.icon {
            Some(icon) => icon.dominant,
            None => kind_color(app.kind),
        }),
{
    match &app.icon {
        Some(icon) => icon.dominant,
        None => match app.kind {
            AppKind::Communication => [85, 170, 150],
            AppKind::Browser => [95, 150, 215],
            AppKind::Productivity => [175, 140, 200],
            AppKind::Utility => [185, 160, 110],
        },
    }
}

/// The example category of an application from its routing ID and its
/// declared desktop categories.
pub fn classify(id: &str, categories: &str) -> (r: AppKind)
    ensures
        r == kind_of(id@, categories@),
{
    let i = chars_of(id);
    let c = chars_of(categories);
    classify_chars(i.as_slice(), c.as_slice())
}

/// What has been read of a desktop entry so far.
pub struct EntryScan {
    pub active: bool,
    pub found: bool,
    pub name: Option<Seq<char>>,
    pub categories: Option<Seq<char>>,
    pub kind: Option<Seq<char>>,
    pub hidden: Option<Seq<char>>,
    pub icon: Option<Seq<char>>,
}

/// Sets a metadata key once; a second occurrence is refused.
pub open spec fn set_once(slot: Option<Seq<char>>, value: Seq<char>) -> Result<Option<Seq<char>>, MetadataError> {
    if slot is Some {
        Err(MetadataError::DuplicateEntryKey)
    } else {
        Ok(Some(value))
    }
}

/// Reads one line of a desktop entry file.
pub open spec fn entry_line(st: EntryScan, line: Seq<char>) -> Result<EntryScan, MetadataError> {
    let t = trim(line);
    if t.len() == 0 || t[0] == '#' {
        Ok(st)
    } else if t[0] == '[' {
        if t.last() != ']' {
            Err(MetadataError::MalformedEntryGroup)
        } else if t == "[Desktop Entry]"@ {
            if st.found {
                Err(MetadataError::DuplicateEntryGroup)
            } else {
                Ok(EntryScan { active: true, found: true, ..st })
            }
        } else {
            Ok(EntryScan { active: false, ..st })
        }
    } else if !st.active {
        Ok(st)
    } else {
        match find(t, seq!['=']) {
            None => Err(MetadataError::MalformedEntryKey),
            Some(k) => {
                let key = trim(t.subrange(0, k));
                let value = trim(t.subrange(k + 1, t.len() as int));
                if key == "Name"@ {
                    match set_once(st.name, value) {
                        Ok(v) => Ok(EntryScan { name: v, ..st }),
                        Err(e) => Err(e),
                    }
                } else if key == "Categories"@ {
                    match set_once(st.categories, value) {
                        Ok(v) => Ok(EntryScan { categories: v, ..st }),
                        Err(e) => Err(e),
                    }
                } else if key == "Type"@ {
                    match set_once(st.kind, value) {
                        Ok(v) => Ok(EntryScan { kind: v, ..st }),
                        Err(e) => Err(e),
                    }
                } else if key == "Hidden"@ {
                    match set_once(st.hidden, value) {
                        Ok(v) => Ok(EntryScan { hidden: v, ..st }),
                        Err(e) => Err(e),
                    }
                } else if key == "Icon"@ {
                    match set_once(st.icon, value) {
                        Ok(v) => Ok(EntryScan { icon: v, ..st }),
                        Err(e) => Err(e),
                    }
                } else {
                    Ok(st)
                }
            },
        }
    }
}

pub open spec fn entry_lines(ls: Seq<Seq<char>>) -> Result<EntryScan, MetadataError>
    decreases ls.len(),
{
    if ls.len() == 0 {
        Ok(EntryScan { active: false, found: false, name: None, categories: None, kind: None, hidden: None, icon: None })
    } else {
        match entry_lines(ls.drop_last()) {
            Err(e) => Err(e),
            Ok(st) => entry_line(st, ls.last()),
        }
    }
}

/// A resolved desktop entry: routing ID, name, example category and declared icon.
pub type EntryView = (Seq<char>, Seq<char>, AppKind, Option<Seq<char>>);

/// The application a pinned desktop entry describes. Hidden entries and
/// entries that are not of type Application give `None`.
pub open spec fn desktop_entry_of(desktop_id: Seq<char>, input: Seq<char>) -> Result<Option<EntryView>, MetadataError> {
    match entry_lines(lines(input)) {
        Err(e) => Err(e),
        Ok(st) => if st.hidden == Some("true"@) {
            Ok(None)
        } else if !(st.hidden is None || st.hidden == Some("false"@)) {
            Err(MetadataError::InvalidHidden)
        } else if st.kind != Some("Application"@) {
            Ok(None)
        } else {
            match st.name {
                None => Err(MetadataError::MissingName),
                Some(n) => match desktop_text(n) {
                    Err(e) => Err(e),
                    Ok(name) => if !is_label(name) {
                        Err(MetadataError::InvalidLabel)
                    } else {
                        match desktop_text(match st.categories { Some(c) => c, None => Seq::empty() }) {
                            Err(e) => Err(e),
                            Ok(categories) => if !no_controls(categories) {
                                Err(MetadataError::InvalidCategories)
                            } else if !has_suffix(desktop_id, ".desktop"@) {
                                Err(MetadataError::InvalidPinnedId)
                            } else {
                                let id = desktop_id.subrange(0, desktop_id.len() - ".desktop"@.len());
                                let icon = match st.icon {
                                    Some(v) => match desktop_text(v) {
                                        Ok(x) => Some(x),
                                        Err(_) => None,
                                    },
                                    None => None,
                                };
                                Ok(Some((id, name, kind_of(id, categories), icon)))
                            },
                        }
                    },
                },
            }
        },
    }
}

/// A line opens a group other than `[Desktop Entry]`, such as a desktop action.
pub open spec fn other_group_header(line: Seq<char>) -> bool {
    let t = trim(line);
    &&& t.len() > 0
    &&& t[0] == '['
    &&& t.last() == ']'
    &&& t != "[Desktop Entry]"@
}

/// A line that is no group header at all: a key, a comment or a blank line.
pub open spec fn not_header(line: Seq<char>) -> bool {
    let t = trim(line);
    t.len() == 0 || t[0] != '['
}

/// The scan `st` with the entry group closed.
pub open spec fn closed_scan(r: Result<EntryScan, MetadataError>) -> Result<EntryScan, MetadataError> {
    match r {
        Ok(st) => Ok(EntryScan { active: false, ..st }),
        Err(e) => Err(e),
    }
}

proof fn lemma_other_groups_ignored(ls: Seq<Seq<char>>, extra: Seq<Seq<char>>, j: int)
    requires
        1 <= j <= extra.len(),
        other_group_header(extra[0]),
        forall|k: int| 0 < k < extra.len() ==> other_group_header(#[trigger] extra[k]) || not_header(extra[k]),
    ensures
        entry_lines(ls + extra.take(j)) == closed_scan(entry_lines(ls)),
    decreases j,
{
    let all = ls + extra.take(j);
    assert(all.drop_last() =~= ls + extra.take(j - 1));
    assert(all.last() == extra[j - 1]);
    if j == 1 {
        assert(extra.take(0) =~= Seq::<Seq<char>>::empty());
        assert(ls + extra.take(0) =~= ls);
    } else {
        lemma_other_groups_ignored(ls, extra, j - 1);
    }
    let t = trim(extra[j - 1]);
    if j > 1 && not_header(extra[j - 1]) {
        assert(t.len() == 0 || t[0] != '[');
    }
}

/// Only the `[Desktop Entry]` group describes the application: lines from
/// any other group on, such as the `[Desktop Action ...]` groups that follow
/// it (whatever keys they set), change nothing. When the lines of `longer`
/// are those of `input` followed by another group, parsing either gives the
/// same entry or the same error.
pub proof fn lemma_desktop_actions_ignored(desktop_id: Seq<char>, input: Seq<char>, longer: Seq<char>, extra: Seq<Seq<char>>)
    requires
        lines(longer) == lines(input) + extra,
        extra.len() >= 1,
        other_group_header(extra[0]),
        forall|k: int| 0 < k < extra.len() ==> other_group_header(#[trigger] extra[k]) || not_header(extra[k]),
    ensures
        desktop_entry_of(desktop_id, longer) == desktop_entry_of(desktop_id, input),
{
    lemma_other_groups_ignored(lines(input), extra, extra.len() as int);
    assert(extra.take(extra.len() as int) =~= extra);
}

/// A parsed pinned desktop entry: the application, without its icon, and the
/// icon value the entry declares.
pub struct DesktopEntry {
    pub app: PinnedApp,
    pub icon: Option<String>,
}

pub open spec fn entry_view(e: DesktopEntry) -> EntryView {
    (e.app.id@, e.app.name@, e.app.kind, match e.icon { Some(s) => Some(s@), None => None })
}

pub struct EntryRangesScan {
    pub active: bool,
    pub found: bool,
    pub name: Option<(usize, usize)>,
    pub categories: Option<(usize, usize)>,
    pub kind: Option<(usize, usize)>,
    pub hidden: Option<(usize, usize)>,
    pub icon: Option<(usize, usize)>,
}

pub open spec fn opt_in(r: Option<(usize, usize)>, len: nat) -> bool {
    r matches Some(v) ==> v.0 <= v.1 <= len
}

pub open spec fn entry_scan_in(s: EntryRangesScan, len: nat) -> bool {
    opt_in(s.name, len) && opt_in(s.categories, len) && opt_in(s.kind, len) && opt_in(s.hidden, len) && opt_in(s.icon, len)
}

pub open spec fn entry_scan_view(chars: Seq<char>, s: EntryRangesScan) -> EntryScan {
    EntryScan {
        active: s.active,
        found: s.found,
        name: opt_view(chars, s.name),
        categories: opt_view(chars, s.categories),
        kind: opt_view(chars, s.kind),
        hidden: opt_view(chars, s.hidden),
        icon: opt_view(chars, s.icon),
    }
}

fn entry_line_exec(chars: &[char], a: usize, b: usize, st: &mut EntryRangesScan) -> (r: Result<(), MetadataError>)
    requires
        a <= b <= chars@.len(),
        entry_scan_in(*old(st), chars@.len()),
    ensures
        entry_scan_in(*final(st), chars@.len()),
        match entry_line(entry_scan_view(chars@, *old(st)), chars@.subrange(a as int, b as int)) {
            Ok(s) => r is Ok && entry_scan_view(chars@, *final(st)) == s,
            Err(e) => r == Err::<(), MetadataError>(e),
        },
{
    let (ta, tb) = trim_bounds(chars, a, b);
    let ghost t = chars@.subrange(ta as int, tb as int);
    if ta == tb || chars[ta] == '#' {
        return Ok(());
    }
    assert(t[0] == chars@[ta as int]);
    if chars[ta] == '[' {
        assert(t.last() == chars@[tb - 1]);
        if chars[tb - 1] != ']' {
            return Err(MetadataError::MalformedEntryGroup);
        }
        if eq_lit(chars, ta, tb, "[Desktop Entry]") {
            if st.found {
                return Err(MetadataError::DuplicateEntryGroup);
            }
            st.active = true;
            st.found = true;
        } else {
            st.active = false;
        }
        return Ok(());
    }
    if !st.active {
        return Ok(());
    }
    let eq = find_equals(chars, ta, tb);
    let k = match eq {
        None => return Err(MetadataError::MalformedEntryKey),
        Some(k) => k,
    };
    proof {
        let ks = find(t, seq!['='])->0;
        assert(k == ks + ta);
        assert(t.subrange(0, ks) =~= chars@.subrange(ta as int, k as int));
        assert(t.subrange(ks + 1, t.len() as int) =~= chars@.subrange(k + 1, tb as int));
    }
    let (ka, kb) = trim_bounds(chars, ta, k);
    let (va, vb) = trim_bounds(chars, k + 1, tb);
    let value = Some((va, vb));
    if eq_lit(chars, ka, kb, "Name") {
        if st.name.is_some() {
            return Err(MetadataError::DuplicateEntryKey);
        }
        st.name = value;
    } else if eq_lit(chars, ka, kb, "Categories") {
        if st.categories.is_some() {
            return Err(MetadataError::DuplicateEntryKey);
        }
        st.categories = value;
    } else if eq_lit(chars, ka, kb, "Type") {
        if st.kind.is_some() {
            return Err(MetadataError::DuplicateEntryKey);
        }
        st.kind = value;
    } else if eq_lit(chars, ka, kb, "Hidden") {
        if st.hidden.is_some() {
            return Err(MetadataError::DuplicateEntryKey);
        }
        st.hidden = value;
    } else if eq_lit(chars, ka, kb, "Icon") {
        if st.icon.is_some() {
            return Err(MetadataError::DuplicateEntryKey);
        }
        st.icon = value;
    }
    Ok(())
}

/// Whether the optional range holds exactly `lit`.
fn opt_is(chars: &[char], r: Option<(usize, usize)>, lit: &str) -> (b: bool)
    requires
        opt_in(r, chars@.len()),
    ensures
        b == (opt_view(chars@, r) == Some(lit@)),
{
    match r {
        None => false,
        Some((x, y)) => eq_lit(chars, x, y, lit),
    }
}

/// Parses a pinned desktop entry. Exec keys, desktop actions and every key
/// other than Name, Categories, Type, Hidden and Icon are ignored.
pub fn parse_desktop_entry(desktop_id: &str, input: &str) -> (r: Result<Option<DesktopEntry>, MetadataError>)
    ensures
        match desktop_entry_of(desktop_id@, input@) {
            Ok(Some(v)) => r matches Ok(Some(e)) && entry_view(e) == v && e.app.icon is None
                && e.app.suggested == suggests(e.app.kind),
            Ok(None) => r matches Ok(None),
            Err(e) => r == Err::<Option<DesktopEntry>, MetadataError>(e),
        },
{
    let chars = chars_of(input);
    let ranges = crate::text::line_ranges(chars.as_slice());
    let ghost ls = lines(chars@);
    let mut st = EntryRangesScan { active: false, found: false, name: None, categories: None, kind: None, hidden: None, icon: None };
    assert(ls.subrange(0, 0) =~= Seq::<Seq<char>>::empty());
    let mut k: usize = 0;
    while k < ranges.len()
        invariant
            k <= ranges@.len(),
            chars@ == input@,
            ranges@.len() == ls.len(),
            ls == lines(chars@),
            forall|j: int| 0 <= j < ranges@.len() ==> {
                let (a, b) = #[trigger] ranges@[j];
                &&& a <= b <= chars@.len()
                &&& chars@.subrange(a as int, b as int) == ls[j]
            },
            entry_scan_in(st, chars@.len()),
            entry_lines(ls.subrange(0, k as int)) == Ok::<EntryScan, MetadataError>(entry_scan_view(chars@, st)),
        decreases ranges@.len() - k,
    {
        let (a, b) = ranges[k];
        assert(ls.subrange(0, k + 1).drop_last() =~= ls.subrange(0, k as int));
        match entry_line_exec(chars.as_slice(), a, b, &mut st) {
            Err(e) => {
                proof {
                    lemma_entry_lines_error(ls, k as int + 1, e);
                }
                return Err(e);
            },
            Ok(()) => {},
        }
        k += 1;
    }
    assert(ls.subrange(0, k as int) =~= ls);
    let c = chars.as_slice();
    if opt_is(c, st.hidden, "true") {
        return Ok(None);
    }
    if !(st.hidden.is_none() || opt_is(c, st.hidden, "false")) {
        return Err(MetadataError::InvalidHidden);
    }
    if !opt_is(c, st.kind, "Application") {
        return Ok(None);
    }
    let (na, nb) = match st.name {
        None => return Err(MetadataError::MissingName),
        Some(n) => n,
    };
    let name = match desktop_string(c, na, nb) {
        Err(e) => return Err(e),
        Ok(n) => n,
    };
    let name_len = name.len();
    assert(name@.subrange(0, name_len as int) =~= name@);
    if !label_ok(name.as_slice(), 0, name_len) {
        return Err(MetadataError::InvalidLabel);
    }
    let categories = match st.categories {
        Some((x, y)) => desktop_string(c, x, y),
        None => {
            let empty: Vec<char> = Vec::new();
            assert(desktop_text(Seq::<char>::empty()) == Ok::<Seq<char>, MetadataError>(Seq::empty()));
            Ok(empty)
        },
    };
    let categories = match categories {
        Err(e) => return Err(e),
        Ok(v) => v,
    };
    let cat_len = categories.len();
    assert(categories@.subrange(0, cat_len as int) =~= categories@);
    if !controls_absent(categories.as_slice(), 0, cat_len) {
        return Err(MetadataError::InvalidCategories);
    }
    let id_chars = chars_of(desktop_id);
    let id_len = id_chars.len();
    assert(id_chars@.subrange(0, id_len as int) =~= id_chars@);
    if !ends_with_lit(id_chars.as_slice(), 0, id_len, ".desktop") {
        return Err(MetadataError::InvalidPinnedId);
    }
    let cut = id_len - chars_of(".desktop").len();
    let id = crate::text::string_of(id_chars.as_slice(), 0, cut);
    let id_view = chars_of(id.as_str());
    let kind = classify_chars(id_view.as_slice(), categories.as_slice());
    let icon = match st.icon {
        None => None,
        Some((x, y)) => match desktop_string(c, x, y) {
            Ok(v) => {
                let n = v.len();
                assert(v@.subrange(0, n as int) =~= v@);
                Some(crate::text::string_of(v.as_slice(), 0, n))
            },
            Err(_) => None,
        },
    };
    let name = crate::text::string_of(name.as_slice(), 0, name_len);
    let suggested = match kind {
        AppKind::Communication | AppKind::Productivity => true,
        _ => false,
    };
    Ok(Some(DesktopEntry { app: PinnedApp { id, name, kind, suggested, icon: None }, icon }))
}

pub(crate) proof fn lemma_entry_lines_error(ls: Seq<Seq<char>>, k: int, e: MetadataError)
    requires
        0 <= k <= ls.len(),
        entry_lines(ls.subrange(0, k)) == Err::<EntryScan, MetadataError>(e),
    ensures
        entry_lines(ls) == Err::<EntryScan, MetadataError>(e),
    decreases ls.len() - k,
{
    if k < ls.len() {
        assert(ls.subrange(0, k + 1).drop_last() =~= ls.subrange(0, k));
        lemma_entry_lines_error(ls, k + 1, e);
    } else {
        assert(ls.subrange(0, k) =~= ls);
    }
}


/// The desktop file ID that the application routing ID `id` names: exactly one
/// `.desktop` suffix is appended, even to an ID that already ends in one.
pub open spec fn routing_desktop_id(id: Seq<char>) -> Result<Seq<char>, MetadataError> {
    if !is_label(id) {
        Err(MetadataError::InvalidLabel)
    } else if has_any(id, unsafe_id_chars()) || id == "."@ || id == ".."@ || id == "*"@ {
        Err(MetadataError::UnsafeApplicationId)
    } else {
        match launcher(id + ".desktop"@) {
            Err(e) => Err(e),
            Ok(None) => Err(MetadataError::InvalidApplicationId),
            Ok(Some(d)) => Ok(d),
        }
    }
}

/// The desktop file ID for the routing ID `id`, or why `id` cannot name one.
pub fn routing_desktop_file(id: &str) -> (r: Result<String, MetadataError>)
    ensures
        match routing_desktop_id(id@) {
            Ok(d) => r matches Ok(s) && s@ == d,
            Err(e) => r == Err::<String, MetadataError>(e),
        },
{
    match validate_label(id) {
        Err(e) => return Err(e),
        Ok(()) => {},
    }
    let mut item = chars_of(id);
    let n = item.len();
    assert(item@.subrange(0, n as int) =~= item@);
    let unsafe_chars = ['/', '\\', ':', '?', '#'];
    assert(unsafe_chars@ =~= unsafe_id_chars());
    if contains_any(&item, 0, n, &unsafe_chars) || eq_lit(&item, 0, n, ".") || eq_lit(&item, 0, n, "..")
        || eq_lit(&item, 0, n, "*") {
        return Err(MetadataError::UnsafeApplicationId);
    }
    let suffix = chars_of(".desktop");
    let mut i: usize = 0;
    while i < suffix.len()
        invariant
            i <= suffix@.len(),
            suffix@ == ".desktop"@,
            item@ == id@ + suffix@.subrange(0, i as int),
        decreases suffix@.len() - i,
    {
        item.push(suffix[i]);
        i += 1;
        assert(item@ =~= id@ + suffix@.subrange(0, i as int));
    }
    assert(suffix@.subrange(0, i as int) =~= suffix@);
    match launcher_id(item.as_slice()) {
        Err(e) => Err(e),
        Ok(None) => Err(MetadataError::InvalidApplicationId),
        Ok(Some(d)) => Ok(crate::text::string_of(d.as_slice(), 0, d.len())),
    }
}

/// What a lookup gave for one desktop file ID: the bytes of the entry that
/// masks every other copy, `None` when no application directory holds one, or
/// why it could not be read.
pub open spec fn read_view(read: Result<Option<Vec<u8>>, MetadataError>) -> Result<Option<Seq<u8>>, MetadataError> {
    match read {
        Err(e) => Err(e),
        Ok(None) => Ok(None),
        Ok(Some(b)) => Ok(Some(b@)),
    }
}

/// The application that the desktop file `desktop_id` describes, given what
/// its lookup gave.
pub open spec fn entry_outcome(desktop_id: Seq<char>, read: Result<Option<Seq<u8>>, MetadataError>) -> Result<Option<EntryView>, MetadataError> {
    match read {
        Err(e) => Err(e),
        Ok(None) => Ok(None),
        Ok(Some(bytes)) => if bytes.len() > MAX_DESKTOP_BYTES {
            Err(MetadataError::EntryTooLarge)
        } else if !valid_utf8(bytes) {
            Err(MetadataError::EntryNotUtf8)
        } else {
            desktop_entry_of(desktop_id, decode_utf8(bytes))
        },
    }
}

pub open spec fn entry_result(r: Result<Option<DesktopEntry>, MetadataError>) -> Result<Option<EntryView>, MetadataError> {
    match r {
        Err(e) => Err(e),
        Ok(None) => Ok(None),
        Ok(Some(e)) => Ok(Some(entry_view(e))),
    }
}

/// A parsed entry carries no decoded icon yet, and is suggested exactly when
/// its kind is.
pub open spec fn fresh_entry(e: DesktopEntry) -> bool {
    e.app.icon is None && e.app.suggested == suggests(e.app.kind)
}

/// The application described by the desktop file `desktop_id`, given what its
/// lookup gave: entries over the size limit or not in UTF-8 are refused.
pub fn entry_from(desktop_id: &str, read: Result<Option<Vec<u8>>, MetadataError>) -> (r: Result<Option<DesktopEntry>, MetadataError>)
    ensures
        entry_result(r) == entry_outcome(desktop_id@, read_view(read)),
        r matches Ok(Some(e)) ==> fresh_entry(e),
{
    let bytes = match read {
        Err(e) => return Err(e),
        Ok(None) => return Ok(None),
        Ok(Some(b)) => b,
    };
    if bytes.len() > MAX_DESKTOP_BYTES {
        return Err(MetadataError::EntryTooLarge);
    }
    let text = match String::from_utf8(bytes) {
        Ok(t) => t,
        Err(_) => return Err(MetadataError::EntryNotUtf8),
    };
    parse_desktop_entry(desktop_id, text.as_str())
}

/// Looks up one application by its exact routing ID, pinned or not, with the
/// same Hidden and metadata rules as pinned entries. `lookup` is handed the
/// desktop file ID; nothing is launched or enumerated.
pub fn application_at<F>(id: &str, lookup: F) -> (r: Result<Option<DesktopEntry>, MetadataError>) where
    F: Fn(&str) -> Result<Option<Vec<u8>>, MetadataError>,

    requires
        forall|d: &str| call_requires(lookup, (d,)),
    ensures
        match routing_desktop_id(id@) {
            Err(e) => r == Err::<Option<DesktopEntry>, MetadataError>(e),
            Ok(d) => exists|arg: &str, read: Result<Option<Vec<u8>>, MetadataError>|
                #[trigger] call_ensures(lookup, (arg,), read) && arg@ == d
                    && entry_result(r) == entry_outcome(d, read_view(read)),
        },
        r matches Ok(Some(e)) ==> fresh_entry(e),
{
    let desktop_id = match routing_desktop_file(id) {
        Err(e) => return Err(e),
        Ok(d) => d,
    };
    let read = lookup(desktop_id.as_str());
    entry_from(desktop_id.as_str(), read)
}

/// Whether `reads` are, in order, what `lookup` gave when it was handed
/// `args`, the first desktop file IDs of `ids`.
pub open spec fn looked_up<'a, F: Fn(&str) -> Result<Option<Vec<u8>>, MetadataError>>(
    lookup: F,
    ids: Seq<Seq<char>>,
    args: Seq<&'a str>,
    reads: Seq<Result<Option<Vec<u8>>, MetadataError>>,
) -> bool {
    &&& reads.len() == args.len()
    &&& reads.len() <= ids.len()
    &&& forall|i: int| 0 <= i < reads.len() ==> (#[trigger] args[i])@ == ids[i] && call_ensures(lookup, (args[i],), reads[i])
}

/// The applications of the pinned desktop file IDs `ids`, given what the
/// lookups of the first of them gave: missing entries are omitted and the
/// first refused entry fails the whole snapshot.
pub open spec fn entries_of(ids: Seq<Seq<char>>, reads: Seq<Result<Option<Vec<u8>>, MetadataError>>) -> Result<Seq<EntryView>, MetadataError>
    decreases reads.len(),
{
    if reads.len() == 0 {
        Ok(Seq::empty())
    } else {
        match entries_of(ids, reads.drop_last()) {
            Err(e) => Err(e),
            Ok(v) => match entry_outcome(ids[reads.len() - 1], read_view(reads.last())) {
                Err(e) => Err(e),
                Ok(None) => Ok(v),
                Ok(Some(x)) => Ok(v.push(x)),
            },
        }
    }
}

pub open spec fn entries_result(r: Result<Vec<DesktopEntry>, MetadataError>) -> Result<Seq<EntryView>, MetadataError> {
    match r {
        Err(e) => Err(e),
        Ok(v) => Ok(v@.map_values(|e: DesktopEntry| entry_view(e))),
    }
}

/// Resolves the pinned desktop entries of a Plasma applets configuration, in
/// launcher order. `lookup` is handed each pinned desktop file ID in turn.
pub fn discover_at<F>(applets: &str, lookup: F) -> (r: Result<Vec<DesktopEntry>, MetadataError>) where
    F: Fn(&str) -> Result<Option<Vec<u8>>, MetadataError>,

    requires
        forall|d: &str| call_requires(lookup, (d,)),
    ensures
        match launchers_of(applets@) {
            Err(e) => r == Err::<Vec<DesktopEntry>, MetadataError>(e),
            Ok(ids) => exists|args: Seq<&str>, reads: Seq<Result<Option<Vec<u8>>, MetadataError>>|
                #[trigger] looked_up(lookup, ids, args, reads)
                    && (r is Ok ==> reads.len() == ids.len())
                    && entries_result(r) == entries_of(ids, reads),
        },
        r matches Ok(v) ==> forall|k: int| 0 <= k < v@.len() ==> fresh_entry(#[trigger] v@[k]),
{
    let ids = match parse_launchers(applets) {
        Err(e) => return Err(e),
        Ok(v) => v,
    };
    let ghost idv = crate::text::texts(ids@);
    let ghost mut reads: Seq<Result<Option<Vec<u8>>, MetadataError>> = Seq::empty();
    let ghost mut args: Seq<&str> = Seq::empty();
    let mut apps: Vec<DesktopEntry> = Vec::new();
    assert(apps@.map_values(|e: DesktopEntry| entry_view(e)) =~= Seq::<EntryView>::empty());
    let mut i: usize = 0;
    while i < ids.len()
        invariant
            forall|d: &str| call_requires(lookup, (d,)),
            idv == crate::text::texts(ids@),
            launchers_of(applets@) == Ok::<Seq<Seq<char>>, MetadataError>(idv),
            i <= ids@.len(),
            reads.len() == i,
            looked_up(lookup, idv, args, reads),
            entries_of(idv, reads) == entries_result(Ok::<Vec<DesktopEntry>, MetadataError>(apps)),
            forall|k: int| 0 <= k < apps@.len() ==> fresh_entry(#[trigger] apps@[k]),
        decreases ids@.len() - i,
    {
        let name = ids[i].as_str();
        let read = lookup(name);
        let ghost seen = read;
        let ghost before = reads;
        let ghost before_args = args;
        proof {
            reads = reads.push(seen);
            args = args.push(name);
            assert(reads.drop_last() =~= before);
            assert forall|j: int| 0 <= j < reads.len() implies (#[trigger] args[j])@ == idv[j] && call_ensures(lookup, (args[j],), reads[j]) by {
                if j < before.len() {
                    assert(reads[j] == before[j] && args[j] == before_args[j]);
                } else {
                    assert(idv[j] == ids@[j]@);
                }
            }
        }
        match entry_from(name, read) {
            Err(e) => {
                let r: Result<Vec<DesktopEntry>, MetadataError> = Err(e);
                assert(entries_result(r) == entries_of(idv, reads));
                assert(looked_up(lookup, idv, args, reads));
                // The first refused entry fails the snapshot.
                assert(match launchers_of(applets@) {
                    Err(e) => r == Err::<Vec<DesktopEntry>, MetadataError>(e),
                    Ok(ids) => exists|args: Seq<&str>, reads: Seq<Result<Option<Vec<u8>>, MetadataError>>|
                        #[trigger] looked_up(lookup, ids, args, reads)
                            && (r is Ok ==> reads.len() == ids.len())
                            && entries_result(r) == entries_of(ids, reads),
                });
                return r;
            },
            Ok(None) => {},
            Ok(Some(entry)) => {
                let ghost old_apps = apps@;
                apps.push(entry);
                assert(apps@.map_values(|e: DesktopEntry| entry_view(e)) =~= old_apps.map_values(|e: DesktopEntry| entry_view(e)).push(entry_view(entry)));
            },
        }
        i += 1;
    }
    assert(looked_up(lookup, idv, args, reads));
    Ok(apps)
}

/// Whether the `-` at `k` may separate a subdirectory name from the rest of
/// a desktop file ID: the name before it is neither empty, `.` nor `..`.
pub open spec fn splits_at(id: Seq<char>, k: int) -> bool {
    &&& 0 <= k < id.len()
    &&& id[k] == '-'
    &&& k > 0
    &&& id.subrange(0, k) != "."@
    &&& id.subrange(0, k) != ".."@
}

/// The subdirectories that the desktop file ID `id` may name, each with the
/// ID that remains below it, for the hyphens before position `k`, in order.
pub open spec fn nested_splits(id: Seq<char>, k: int) -> Seq<(Seq<char>, Seq<char>)>
    decreases k,
{
    if k <= 0 {
        Seq::empty()
    } else {
        let before = nested_splits(id, k - 1);
        if splits_at(id, k - 1) {
            before.push((id.subrange(0, k - 1), id.subrange(k, id.len() as int)))
        } else {
            before
        }
    }
}

pub open spec fn pair_views(v: Seq<(String, String)>) -> Seq<(Seq<char>, Seq<char>)> {
    v.map_values(|p: (String, String)| (p.0@, p.1@))
}

/// A desktop file ID names `a-b.desktop` as `b.desktop` in subdirectory `a`:
/// the subdirectory and remaining ID for each hyphen of `id`, in order. Only
/// these prefixes of the ID are ever probed; nothing is enumerated.
pub fn nested_entry_candidates(id: &str) -> (r: Vec<(String, String)>)
    ensures
        pair_views(r@) == nested_splits(id@, id@.len() as int),
{
    let chars = chars_of(id);
    let n = chars.len();
    let mut out: Vec<(String, String)> = Vec::new();
    let mut k: usize = 0;
    assert(pair_views(out@) =~= nested_splits(id@, 0));
    while k < n
        invariant
            k <= n,
            n == chars@.len(),
            chars@ == id@,
            pair_views(out@) == nested_splits(id@, k as int),
        decreases n - k,
    {
        if chars[k] == '-' && k > 0 && !eq_lit(&chars, 0, k, ".") && !eq_lit(&chars, 0, k, "..") {
            let dir = crate::text::string_of(&chars, 0, k);
            let rest = crate::text::string_of(&chars, k + 1, n);
            let ghost before = out@;
            out.push((dir, rest));
            assert(pair_views(out@) =~= pair_views(before).push((id@.subrange(0, k as int), id@.subrange(k + 1, n as int))));
        }
        k += 1;
    }
    out
}

} // verus!
