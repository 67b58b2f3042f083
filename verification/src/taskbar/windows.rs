//! Read-only Windows 11 Taskband snapshot interpretation.
//!
//! `Favorites` is Explorer's current pinned ITEMIDLIST sequence. Unknown
//! framing fails closed rather than inventing pins.
use vstd::prelude::*;
use super::{AppKind, PinnedApp, eq_ignore_ascii_case, eq_ignore_case, is_known, kind_of, str_views};
use crate::text::{byte_len, chars_of, no_controls, trim, utf16_decode};

verus! {

pub const MAX_TASKBAND_BYTES: usize = 1024 * 1024;
pub const MAX_PIDL_BYTES: usize = 64 * 1024;
pub const MAX_PINS: usize = 64;

/// UTF-16 code units that encode `c`.
pub open spec fn utf16_width(c: char) -> nat {
    if (c as u32) >= 0x10000 {
        2
    } else {
        1
    }
}

/// Number of UTF-16 code units that encode `s`.
pub open spec fn utf16_len(s: Seq<char>) -> nat
    decreases s.len(),
{
    if s.len() == 0 {
        0
    } else {
        utf16_len(s.drop_last()) + utf16_width(s.last())
    }
}

/// A Windows AppUserModelID as notifications and media report it: non-empty,
/// not `*`, at most 512 UTF-8 bytes and 128 UTF-16 units, no surrounding
/// whitespace, no control characters.
pub open spec fn is_app_id(id: Seq<char>) -> bool {
    &&& id.len() > 0
    &&& id != "*"@
    &&& byte_len(id) <= 512
    &&& trim(id) == id
    &&& no_controls(id)
    &&& utf16_len(id) <= 128
}

/// The identity itself when it is a canonical AppUserModelID.
pub fn canonical_app_id(id: &str) -> (r: Option<&str>)
    ensures
        r == (if is_app_id(id@) {
            Some(id)
        } else {
            None
        }),
{
    let chars = chars_of(id);
    let n = chars.len();
    assert(chars@.subrange(0, n as int) =~= chars@);
    if n == 0 || crate::text::eq_lit(chars.as_slice(), 0, n, "*") {
        return None;
    }
    if crate::text::str_byte_len(id) > 512 {
        return None;
    }
    if !crate::text::is_trimmed(chars.as_slice()) || !crate::text::controls_absent(chars.as_slice(), 0, n) {
        return None;
    }
    proof {
        crate::text::lemma_byte_len_at_least_len(chars@);
    }
    let mut units: usize = 0;
    let mut i: usize = 0;
    while i < n
        invariant
            i <= n == chars@.len(),
            n <= 512,
            units == utf16_len(chars@.subrange(0, i as int)),
            units <= 2 * i,
        decreases n - i,
    {
        assert(chars@.subrange(0, i + 1).drop_last() =~= chars@.subrange(0, i as int));
        if (chars[i] as u32) >= 0x10000 {
            units = units + 2;
        } else {
            units = units + 1;
        }
        i += 1;
    }
    if units <= 128 {
        Some(id)
    } else {
        None
    }
}

pub open spec fn communication_names() -> Seq<Seq<char>> {
    seq!["Signal"@, "Telegram"@, "Ferdium"@, "Betterbird"@, "Thunderbird"@, "Proton Mail"@, "Outlook"@, "Microsoft Teams"@, "Slack"@, "Discord"@, "Element"@]
}

pub open spec fn communication_app_ids() -> Seq<Seq<char>> {
    seq!["org.whispersystems.signal-desktop"@, "org.ferdium.ferdium-app"@, "com.squirrel.proton_mail.ProtonMail"@, "Microsoft.OutlookForWindows_8wekyb3d8bbwe!Microsoft.OutlookforWindows"@, "MSTeams_8wekyb3d8bbwe!MSTeams"@]
}

pub open spec fn browser_names() -> Seq<Seq<char>> {
    seq!["Microsoft Edge"@, "Google Chrome"@, "Firefox"@, "Mozilla Firefox"@, "Floorp"@, "Brave"@, "Vivaldi"@]
}

pub open spec fn browser_app_ids() -> Seq<Seq<char>> {
    seq!["MSEdge"@, "Chrome"@]
}

pub open spec fn productivity_names() -> Seq<Seq<char>> {
    seq!["Visual Studio Code"@, "VSCodium"@, "ClickUp"@, "Obsidian"@, "Notion"@]
}

pub open spec fn productivity_app_ids() -> Seq<Seq<char>> {
    seq!["Microsoft.VisualStudioCode"@, "com.clickup.desktop-app"@]
}

/// Example category from an exact application identity or, ignoring ASCII
/// case, a display name; otherwise as a desktop entry without categories.
pub open spec fn app_kind_of(id: Seq<char>, name: Seq<char>) -> AppKind {
    if communication_app_ids().contains(id) || is_known(name, communication_names()) {
        AppKind::Communication
    } else if browser_app_ids().contains(id) || is_known(name, browser_names()) {
        AppKind::Browser
    } else if productivity_app_ids().contains(id) || is_known(name, productivity_names()) {
        AppKind::Productivity
    } else {
        kind_of(id, Seq::empty())
    }
}

fn one_of(chars: &[char], list: &[&str]) -> (r: bool)
    ensures
        r == str_views(list@).contains(chars@),
{
    let n = chars.len();
    assert(chars@.subrange(0, n as int) =~= chars@);
    super::list_has(chars, 0, n, list)
}

fn named(chars: &[char], list: &[&str]) -> (r: bool)
    ensures
        r == is_known(chars@, str_views(list@)),
{
    let n = chars.len();
    assert(chars@.subrange(0, n as int) =~= chars@);
    super::known_exec(chars, 0, n, list)
}

pub fn classify_app(id: &str, name: &str) -> (r: AppKind)
    ensures
        r == app_kind_of(id@, name@),
{
    let i = chars_of(id);
    let n = chars_of(name);
    let chat_ids = ["org.whispersystems.signal-desktop", "org.ferdium.ferdium-app", "com.squirrel.proton_mail.ProtonMail", "Microsoft.OutlookForWindows_8wekyb3d8bbwe!Microsoft.OutlookforWindows", "MSTeams_8wekyb3d8bbwe!MSTeams"];
    assert(str_views(chat_ids@) =~= communication_app_ids());
    let chat_names = ["Signal", "Telegram", "Ferdium", "Betterbird", "Thunderbird", "Proton Mail", "Outlook", "Microsoft Teams", "Slack", "Discord", "Element"];
    assert(str_views(chat_names@) =~= communication_names());
    if one_of(i.as_slice(), &chat_ids) || named(n.as_slice(), &chat_names) {
        return AppKind::Communication;
    }
    let web_ids = ["MSEdge", "Chrome"];
    assert(str_views(web_ids@) =~= browser_app_ids());
    let web_names = ["Microsoft Edge", "Google Chrome", "Firefox", "Mozilla Firefox", "Floorp", "Brave", "Vivaldi"];
    assert(str_views(web_names@) =~= browser_names());
    if one_of(i.as_slice(), &web_ids) || named(n.as_slice(), &web_names) {
        return AppKind::Browser;
    }
    let work_ids = ["Microsoft.VisualStudioCode", "com.clickup.desktop-app"];
    assert(str_views(work_ids@) =~= productivity_app_ids());
    let work_names = ["Visual Studio Code", "VSCodium", "ClickUp", "Obsidian", "Notion"];
    assert(str_views(work_names@) =~= productivity_names());
    if one_of(i.as_slice(), &work_ids) || named(n.as_slice(), &work_names) {
        return AppKind::Productivity;
    }
    let empty: Vec<char> = Vec::new();
    super::classify_chars(i.as_slice(), empty.as_slice())
}

/// Why a Taskband value was refused.
#[derive(Clone, Copy, Debug, PartialEq, Eq, Structural)]
pub enum TaskbandError {
    TooLarge,
    TooManyPins,
    UnsupportedFraming,
    InvalidPidlSize,
    TruncatedPidl,
    UnterminatedPidl,
    TrailingPidlData,
    InvalidItemLength,
    InvalidExtensionSize,
    TruncatedExtension,
    UnsupportedExtension,
    UnterminatedIdentity,
    InvalidUtf16,
    InvalidIdentity,
    ConflictingIdentities,
}

impl TaskbandError {
    pub fn message(self) -> (r: &'static str)
        ensures
            r@ == (match self {
                TaskbandError::TooLarge => "Taskband metadata exceeds one MiB"@,
                TaskbandError::TooManyPins => "Too many taskbar pins"@,
                TaskbandError::UnsupportedFraming => "Unsupported Taskband record framing"@,
                TaskbandError::InvalidPidlSize => "Invalid Taskband PIDL size"@,
                TaskbandError::TruncatedPidl => "Truncated Taskband PIDL"@,
                TaskbandError::UnterminatedPidl => "Unterminated Taskband PIDL"@,
                TaskbandError::TrailingPidlData => "Trailing Taskband PIDL data"@,
                TaskbandError::InvalidItemLength => "Invalid Taskband shell item length"@,
                TaskbandError::InvalidExtensionSize => "Invalid Taskband identity extension size"@,
                TaskbandError::TruncatedExtension => "Truncated Taskband identity extension"@,
                TaskbandError::UnsupportedExtension => "Unsupported Taskband identity extension"@,
                TaskbandError::UnterminatedIdentity => "Unterminated Taskband application identity"@,
                TaskbandError::InvalidUtf16 => "Invalid UTF-16 taskbar identity"@,
                TaskbandError::InvalidIdentity => "Invalid taskbar application identity"@,
                TaskbandError::ConflictingIdentities => "Conflicting taskbar application identities"@,
            }),
    {
        match self {
            TaskbandError::TooLarge => "Taskband metadata exceeds one MiB",
            TaskbandError::TooManyPins => "Too many taskbar pins",
            TaskbandError::UnsupportedFraming => "Unsupported Taskband record framing",
            TaskbandError::InvalidPidlSize => "Invalid Taskband PIDL size",
            TaskbandError::TruncatedPidl => "Truncated Taskband PIDL",
            TaskbandError::UnterminatedPidl => "Unterminated Taskband PIDL",
            TaskbandError::TrailingPidlData => "Trailing Taskband PIDL data",
            TaskbandError::InvalidItemLength => "Invalid Taskband shell item length",
            TaskbandError::InvalidExtensionSize => "Invalid Taskband identity extension size",
            TaskbandError::TruncatedExtension => "Truncated Taskband identity extension",
            TaskbandError::UnsupportedExtension => "Unsupported Taskband identity extension",
            TaskbandError::UnterminatedIdentity => "Unterminated Taskband application identity",
            TaskbandError::InvalidUtf16 => "Invalid UTF-16 taskbar identity",
            TaskbandError::InvalidIdentity => "Invalid taskbar application identity",
            TaskbandError::ConflictingIdentities => "Conflicting taskbar application identities",
        }
    }
}

/// Little-endian 16-bit value at `i`.
pub open spec fn le16(b: Seq<u8>, i: int) -> int {
    b[i] as int + 256 * (b[i + 1] as int)
}

/// The little-endian UTF-16 code units of `b`.
pub open spec fn le16_units(b: Seq<u8>) -> Seq<u16> {
    Seq::new(b.len() / 2, |k: int| (b[2 * k] as int + 256 * (b[2 * k + 1] as int)) as u16)
}

/// Reads the identity extension blocks of a shell item from `offset` on
/// (word-aligned, signature BEEF001D); every block must name the same identity.
pub open spec fn item_scan(item: Seq<u8>, offset: int, identity: Option<Seq<char>>) -> Result<Option<Seq<char>>, TaskbandError>
    decreases item.len() - offset,
{
    if offset < 0 || offset + 7 >= item.len() {
        Ok(identity)
    } else if !(item[offset + 4] == 0x1d && item[offset + 5] == 0 && item[offset + 6] == 0xef
        && item[offset + 7] == 0xbe) {
        item_scan(item, offset + 2, identity)
    } else {
        let length = le16(item, offset);
        if !(length >= 14 && length % 2 == 0) {
            Err(TaskbandError::InvalidExtensionSize)
        } else if offset + length > item.len() {
            Err(TaskbandError::TruncatedExtension)
        } else {
            let ext = item.subrange(offset, offset + length);
            if !(ext[2] == 0 && ext[3] == 0 && ext[8] == 2 && ext[9] == 0) {
                Err(TaskbandError::UnsupportedExtension)
            } else if !(ext[length - 4] == 0 && ext[length - 3] == 0) {
                Err(TaskbandError::UnterminatedIdentity)
            } else {
                match utf16_decode(le16_units(ext.subrange(10, length - 4))) {
                    None => Err(TaskbandError::InvalidUtf16),
                    Some(id) => if !is_app_id(id) {
                        Err(TaskbandError::InvalidIdentity)
                    } else {
                        match identity {
                            Some(prev) => if prev != id {
                                Err(TaskbandError::ConflictingIdentities)
                            } else {
                                item_scan(item, offset + 2, identity)
                            },
                            None => item_scan(item, offset + 2, Some(id)),
                        }
                    },
                }
            }
        }
    }
}

/// Reads the shell items of an ITEMIDLIST from index `i` on.
pub open spec fn pidl_scan(p: Seq<u8>, i: int, identity: Option<Seq<char>>) -> Result<Option<Seq<char>>, TaskbandError>
    decreases p.len() - i,
{
    if i < 0 || i > p.len() || p.len() - i < 2 {
        Err(TaskbandError::UnterminatedPidl)
    } else {
        let size = le16(p, i);
        if size == 0 {
            if p.len() - i == 2 {
                Ok(identity)
            } else {
                Err(TaskbandError::TrailingPidlData)
            }
        } else if !(size >= 2 && size <= p.len() - i) {
            Err(TaskbandError::InvalidItemLength)
        } else {
            match item_scan(p.subrange(i, i + size), 2, identity) {
                Err(e) => Err(e),
                Ok(id) => pidl_scan(p, i + size, id),
            }
        }
    }
}

/// The explicit application identity of an ITEMIDLIST, if it carries one.
pub open spec fn pidl_identity(p: Seq<u8>) -> Result<Option<Seq<char>>, TaskbandError> {
    pidl_scan(p, 0, None)
}

/// A pin as plain values: its ITEMIDLIST bytes and its identity.
pub type PinView = (Seq<u8>, Option<Seq<char>>);

/// Reads the Favorites records from index `i` on.
pub open spec fn taskband_scan(b: Seq<u8>, i: int, pins: Seq<PinView>) -> Result<Seq<PinView>, TaskbandError>
    decreases b.len() - i,
{
    if i < 0 || i > b.len() {
        Err(TaskbandError::UnsupportedFraming)
    } else if b.len() - i == 1 && b[i] == 0xff {
        Ok(pins)
    } else if pins.len() >= MAX_PINS {
        Err(TaskbandError::TooManyPins)
    } else if !(b.len() - i >= 5 && b[i] == 0) {
        Err(TaskbandError::UnsupportedFraming)
    } else {
        let len = b[i + 1] as int + 256 * (b[i + 2] as int) + 65536 * (b[i + 3] as int) + 16777216 * (b[i + 4] as int);
        if !(2 <= len && len <= MAX_PIDL_BYTES) {
            Err(TaskbandError::InvalidPidlSize)
        } else if b.len() - i - 5 < len {
            Err(TaskbandError::TruncatedPidl)
        } else {
            let pidl = b.subrange(i + 5, i + 5 + len);
            match pidl_identity(pidl) {
                Err(e) => Err(e),
                Ok(id) => taskband_scan(b, i + 5 + len, pins.push((pidl, id))),
            }
        }
    }
}

/// The pinned records of a complete `Taskband\Favorites` version-3 value.
pub open spec fn taskband_of(b: Seq<u8>) -> Result<Seq<PinView>, TaskbandError> {
    if b.len() > MAX_TASKBAND_BYTES {
        Err(TaskbandError::TooLarge)
    } else {
        taskband_scan(b, 0, Seq::empty())
    }
}

#[derive(Debug)]
pub struct TaskbandPin<'a> {
    /// Validated, terminated ITEMIDLIST bytes.
    pub pidl: &'a [u8],
    /// Explorer's explicit identity extension, including generated Win32 IDs.
    pub app_id: Option<String>,
}

pub open spec fn pin_view(p: TaskbandPin) -> PinView {
    (p.pidl@, match p.app_id { Some(s) => Some(s@), None => None })
}

pub open spec fn pin_views(v: Seq<TaskbandPin>) -> Seq<PinView> {
    v.map_values(|p: TaskbandPin| pin_view(p))
}

pub open spec fn opt_chars(o: Option<Vec<char>>) -> Option<Seq<char>> {
    match o {
        Some(v) => Some(v@),
        None => None,
    }
}

fn item_identity(item: &[u8], known: Option<Vec<char>>) -> (r: Result<Option<Vec<char>>, TaskbandError>)
    ensures
        match item_scan(item@, 2, opt_chars(known)) {
            Ok(Some(t)) => r matches Ok(Some(v)) && v@ == t,
            Ok(None) => r matches Ok(None),
            Err(e) => r == Err::<Option<Vec<char>>, TaskbandError>(e),
        },
{
    let ghost goal = item_scan(item@, 2, opt_chars(known));
    let mut identity = known;
    let mut offset: usize = 2;
    let n = item.len();
    while offset < n && n - offset > 7
        invariant
            n == item@.len(),
            2 <= offset,
            goal == item_scan(item@, 2, opt_chars(known)),
            goal == item_scan(item@, offset as int, opt_chars(identity)),
        decreases n - offset,
    {
        if !(item[offset + 4] == 0x1d && item[offset + 5] == 0 && item[offset + 6] == 0xef && item[offset + 7] == 0xbe) {
            offset += 2;
            continue;
        }
        let length = item[offset] as usize + 256 * (item[offset + 1] as usize);
        if !(length >= 14 && length % 2 == 0) {
            return Err(TaskbandError::InvalidExtensionSize);
        }
        if length > n - offset {
            return Err(TaskbandError::TruncatedExtension);
        }
        let ext = vstd::slice::slice_subrange(item, offset, offset + length);
        if !(ext[2] == 0 && ext[3] == 0 && ext[8] == 2 && ext[9] == 0) {
            return Err(TaskbandError::UnsupportedExtension);
        }
        if !(ext[length - 4] == 0 && ext[length - 3] == 0) {
            return Err(TaskbandError::UnterminatedIdentity);
        }
        let mut units: Vec<u16> = Vec::new();
        let mut k: usize = 10;
        while k + 1 < length - 4
            invariant
                10 <= k <= length - 4,
                length <= ext@.len(),
                length >= 14,
                (k - 10) % 2 == 0,
                length % 2 == 0,
                units@ == le16_units(ext@.subrange(10, length - 4)).subrange(0, (k - 10) / 2),
            decreases length - k,
        {
            let unit = ext[k] as u16 + 256 * (ext[k + 1] as u16);
            units.push(unit);
            proof {
                let enc = ext@.subrange(10, length - 4);
                assert(le16_units(enc)[(k - 10) / 2] == unit);
                assert(le16_units(enc).subrange(0, (k - 10) / 2 + 1) =~= le16_units(enc).subrange(0, (k - 10) / 2).push(unit));
            }
            k += 2;
        }
        assert(units@ =~= le16_units(ext@.subrange(10, length - 4)));
        let id = match crate::text::decode_utf16(units.as_slice()) {
            None => return Err(TaskbandError::InvalidUtf16),
            Some(id) => id,
        };
        let text = crate::text::string_of(id.as_slice(), 0, id.len());
        assert(id@.subrange(0, id@.len() as int) =~= id@);
        if canonical_app_id(text.as_str()).is_none() {
            return Err(TaskbandError::InvalidIdentity);
        }
        match identity {
            Some(prev) => {
                if !crate::text::chars_eq(prev.as_slice(), id.as_slice()) {
                    return Err(TaskbandError::ConflictingIdentities);
                }
                identity = Some(prev);
            },
            None => {
                identity = Some(id);
            },
        }
        offset += 2;
    }
    identity_result(identity)
}

fn identity_result(identity: Option<Vec<char>>) -> (r: Result<Option<Vec<char>>, TaskbandError>)
    ensures
        match identity {
            Some(v) => r matches Ok(Some(w)) && w@ == v@,
            None => r matches Ok(None),
        },
{
    Ok(identity)
}

fn parse_pidl(pidl: &[u8]) -> (r: Result<Option<String>, TaskbandError>)
    ensures
        match pidl_identity(pidl@) {
            Ok(Some(t)) => r matches Ok(Some(v)) && v@ == t,
            Ok(None) => r matches Ok(None),
            Err(e) => r == Err::<Option<String>, TaskbandError>(e),
        },
{
    let ghost goal = pidl_identity(pidl@);
    let n = pidl.len();
    let mut identity: Option<Vec<char>> = None;
    let mut i: usize = 0;
    loop
        invariant
            n == pidl@.len(),
            i <= n,
            goal == pidl_identity(pidl@),
            goal == pidl_scan(pidl@, i as int, opt_chars(identity)),
        decreases n - i,
    {
        if n - i < 2 {
            return Err(TaskbandError::UnterminatedPidl);
        }
        let size = pidl[i] as usize + 256 * (pidl[i + 1] as usize);
        if size == 0 {
            if n - i != 2 {
                return Err(TaskbandError::TrailingPidlData);
            }
            return match identity {
                Some(v) => {
                    let s = crate::text::string_of(v.as_slice(), 0, v.len());
                    assert(v@.subrange(0, v@.len() as int) =~= v@);
                    Ok(Some(s))
                },
                None => Ok(None),
            };
        }
        if !(size >= 2 && size <= n - i) {
            return Err(TaskbandError::InvalidItemLength);
        }
        let item = vstd::slice::slice_subrange(pidl, i, i + size);
        identity = match item_identity(item, identity) {
            Err(e) => return Err(e),
            Ok(id) => id,
        };
        i = i + size;
    }
}

/// Parses a complete `Taskband\Favorites` version-3 value into its pinned
/// records, in order. Tombstones and cached entries do not participate.
pub fn parse_taskband(bytes: &[u8]) -> (r: Result<Vec<TaskbandPin<'_>>, TaskbandError>)
    ensures
        match taskband_of(bytes@) {
            Ok(pins) => r matches Ok(v) && pin_views(v@) == pins,
            Err(e) => r == Err::<Vec<TaskbandPin<'_>>, TaskbandError>(e),
        },
{
    if bytes.len() > MAX_TASKBAND_BYTES {
        return Err(TaskbandError::TooLarge);
    }
    let ghost goal = taskband_of(bytes@);
    let n = bytes.len();
    let mut pins: Vec<TaskbandPin<'_>> = Vec::new();
    let mut i: usize = 0;
    assert(pin_views(pins@) =~= Seq::<PinView>::empty());
    loop
        invariant
            n == bytes@.len(),
            n <= MAX_TASKBAND_BYTES,
            i <= n,
            goal == taskband_of(bytes@),
            goal == taskband_scan(bytes@, i as int, pin_views(pins@)),
        decreases n - i,
    {
        if n - i == 1 && bytes[i] == 0xff {
            return Ok(pins);
        }
        if pins.len() >= MAX_PINS {
            return Err(TaskbandError::TooManyPins);
        }
        if !(n - i >= 5 && bytes[i] == 0) {
            return Err(TaskbandError::UnsupportedFraming);
        }
        let len = bytes[i + 1] as usize + 256 * (bytes[i + 2] as usize) + 65536 * (bytes[i + 3] as usize) + 16777216 * (bytes[i + 4] as usize);
        if !(2 <= len && len <= MAX_PIDL_BYTES) {
            return Err(TaskbandError::InvalidPidlSize);
        }
        if n - i - 5 < len {
            return Err(TaskbandError::TruncatedPidl);
        }
        let pidl = vstd::slice::slice_subrange(bytes, i + 5, i + 5 + len);
        let app_id = match parse_pidl(pidl) {
            Err(e) => return Err(e),
            Ok(id) => id,
        };
        let ghost before = pin_views(pins@);
        let pin = TaskbandPin { pidl, app_id };
        assert(pin_view(pin) == (bytes@.subrange(i + 5, i + 5 + len), pidl_identity(pidl@)->Ok_0));
        pins.push(pin);
        assert(pin_views(pins@) =~= before.push(pin_view(pin)));
        i = i + 5 + len;
    }
}

/// A display name usable in the workbench: 1–128 bytes, no control characters.
pub open spec fn is_display_name(name: Seq<char>) -> bool {
    name.len() > 0 && byte_len(name) <= 128 && no_controls(name)
}

/// No two applications share an identity.
pub open spec fn distinct_app_ids(apps: Seq<PinnedApp>) -> bool {
    forall|a: int, b: int| 0 <= a < b < apps.len() ==> (#[trigger] apps[a]).id@ != (#[trigger] apps[b]).id@
}

pub(crate) fn has_app(apps: &Vec<PinnedApp>, id: &str) -> (r: bool)
    ensures
        r == exists|k: int| 0 <= k < apps@.len() && (#[trigger] apps@[k]).id@ == id@,
{
    let mut k: usize = 0;
    while k < apps.len()
        invariant
            k <= apps@.len(),
            forall|j: int| 0 <= j < k ==> (#[trigger] apps@[j]).id@ != id@,
        decreases apps@.len() - k,
    {
        if crate::text::str_eq(apps[k].id.as_str(), id) {
            return true;
        }
        k += 1;
    }
    false
}

fn name_ok(name: &str) -> (r: bool)
    ensures
        r == is_display_name(name@),
{
    let chars = chars_of(name);
    let n = chars.len();
    assert(chars@.subrange(0, n as int) =~= chars@);
    n > 0 && crate::text::str_byte_len(name) <= 128 && crate::text::controls_absent(chars.as_slice(), 0, n)
}

/// Some application of `apps` has the identity `id`.
pub open spec fn lists_id(apps: Seq<PinnedApp>, id: Seq<char>) -> bool {
    exists|k: int| 0 <= k < apps.len() && (#[trigger] apps[k]).id@ == id
}

/// The pin's explicit identity, where Explorer recorded one, is the
/// application's identity.
pub open spec fn identified(pin: TaskbandPin, app: PinnedApp) -> PinnedApp {
    match pin.app_id {
        Some(id) => PinnedApp { id, ..app },
        None => app,
    }
}

/// The applications that the first `answers.len()` pins give, where
/// `answers[i]` is what the resolver answered for pin `i`, or `None` when it
/// was not asked. An application is kept when its identity is canonical, its
/// name usable and its identity not listed yet.
pub open spec fn band_apps<'a>(pins: Seq<TaskbandPin<'a>>, answers: Seq<Option<Option<PinnedApp>>>) -> Seq<PinnedApp>
    decreases answers.len(),
{
    if answers.len() == 0 || pins.len() < answers.len() {
        Seq::empty()
    } else {
        let apps = band_apps(pins, answers.drop_last());
        match answers.last() {
            Some(Some(app)) => {
                let a = identified(pins[answers.len() - 1], app);
                if is_app_id(a.id@) && is_display_name(a.name@) && !lists_id(apps, a.id@) {
                    apps.push(a)
                } else {
                    apps
                }
            },
            _ => apps,
        }
    }
}

/// The resolver is asked about a pin exactly when the pin's explicit
/// identity is not listed already, and `answers` records what it answered.
pub open spec fn band_answered<'a, F: Fn(&TaskbandPin<'a>) -> Option<PinnedApp>>(
    resolve: F,
    pins: Seq<TaskbandPin<'a>>,
    answers: Seq<Option<Option<PinnedApp>>>,
) -> bool {
    &&& answers.len() <= pins.len()
    &&& forall|i: int| 0 <= i < answers.len() ==> {
        &&& (#[trigger] answers[i] is None <==> (pins[i].app_id matches Some(id) && lists_id(band_apps(pins, answers.take(i)), id@)))
        &&& answers[i] matches Some(o) ==> call_ensures(resolve, (&pins[i],), o)
    }
}

/// Resolves the actual pinned records, preserving their order. A stale or
/// unresolvable shell item is omitted; duplicate identities are shown once. The
/// resolver must only retrieve metadata, never activate the target; whatever it
/// returns, every reported application has a canonical identity, a usable
/// name, and an identity no earlier application has.
pub fn resolve_taskband<F: Fn(&TaskbandPin<'_>) -> Option<PinnedApp>>(bytes: &[u8], resolve: F) -> (r: Result<Vec<PinnedApp>, TaskbandError>)
    requires
        forall|p: &TaskbandPin<'_>| call_requires(resolve, (p,)),
    ensures
        match taskband_of(bytes@) {
            Err(e) => r == Err::<Vec<PinnedApp>, TaskbandError>(e),
            Ok(views) => r matches Ok(apps) && {
                &&& exists|pins: Seq<TaskbandPin<'_>>, answers: Seq<Option<Option<PinnedApp>>>| {
                    &&& pin_views(pins) == views
                    &&& #[trigger] band_answered(resolve, pins, answers)
                    &&& answers.len() == pins.len()
                    &&& apps@ == band_apps(pins, answers)
                }
                &&& apps@.len() <= views.len()
                &&& distinct_app_ids(apps@)
                &&& forall|k: int| 0 <= k < apps@.len() ==> is_app_id((#[trigger] apps@[k]).id@) && is_display_name(apps@[k].name@)
            },
        },
{
    let pins = match parse_taskband(bytes) {
        Err(e) => return Err(e),
        Ok(p) => p,
    };
    let ghost mut answers: Seq<Option<Option<PinnedApp>>> = Seq::empty();
    let mut apps: Vec<PinnedApp> = Vec::new();
    let mut i: usize = 0;
    while i < pins.len()
        invariant
            forall|p: &TaskbandPin<'_>| call_requires(resolve, (p,)),
            i <= pins@.len(),
            answers.len() == i,
            band_answered(resolve, pins@, answers),
            apps@ == band_apps(pins@, answers),
            apps@.len() <= i,
            distinct_app_ids(apps@),
            forall|k: int| 0 <= k < apps@.len() ==> is_app_id((#[trigger] apps@[k]).id@) && is_display_name(apps@[k].name@),
        decreases pins@.len() - i,
    {
        let pin = &pins[i];
        let ghost before = answers;
        let ghost prior = apps@;
        let mut asked = true;
        if let Some(id) = &pin.app_id {
            if has_app(&apps, id.as_str()) {
                asked = false;
            }
        }
        let mut answer: Option<PinnedApp> = None;
        if asked {
            answer = resolve(pin);
        }
        let ghost record = if asked { Some(answer) } else { None };
        proof {
            answers = before.push(record);
            assert(answers.drop_last() =~= before);
            assert(answers.take(i as int) =~= before);
        }
        if let Some(found) = answer {
            let mut app = found;
            if let Some(id) = &pin.app_id {
                app.id = id.clone();
            }
            assert(app == identified(pins@[i as int], found));
            if canonical_app_id(app.id.as_str()).is_some() && name_ok(app.name.as_str()) && !has_app(&apps, app.id.as_str()) {
                apps.push(app);
                proof {
                    assert forall|a: int, b: int| 0 <= a < b < apps@.len() implies (#[trigger] apps@[a]).id@ != (#[trigger] apps@[b]).id@ by {
                        if b < prior.len() {
                            assert(prior[a] == apps@[a] && prior[b] == apps@[b]);
                        } else {
                            assert(apps@[a] == prior[a]);
                        }
                    }
                }
            }
        }
        proof {
            assert forall|j: int| 0 <= j < answers.len() implies {
                &&& (#[trigger] answers[j] is None <==> (pins@[j].app_id matches Some(id) && lists_id(band_apps(pins@, answers.take(j)), id@)))
                &&& answers[j] matches Some(o) ==> call_ensures(resolve, (&pins@[j],), o)
            } by {
                if j < i {
                    assert(answers[j] == before[j]);
                    assert(answers.take(j) =~= before.take(j));
                } else {
                    assert(answers.take(j) =~= before);
                }
            }
        }
        i += 1;
    }
    Ok(apps)
}

} // verus!
