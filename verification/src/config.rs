//! Device target validation and the shared label rules of the configuration.
use vstd::prelude::*;
use crate::text::{byte_len, no_controls, trim};

verus! {

pub const MAX_LEDS: usize = 8192;
pub const MAX_SCREENS: usize = 16;
pub const MAX_POINTS: usize = 64;
pub const MAX_RULES: usize = 128;
pub const MAX_ROOM_VERTICES: usize = 12;
pub const CURRENT_CONFIG_VERSION: u32 = 2;

/// An IPv4 address by its octets, most significant first.
#[derive(Clone, Copy, Debug, PartialEq, Eq, Structural)]
pub struct Ipv4(pub u8, pub u8, pub u8, pub u8);

/// The WLED device that lighting frames are sent to.
#[derive(Clone, Copy, Debug, PartialEq, Eq, Structural)]
pub struct DeviceConfig {
    pub address: Ipv4,
    pub led_count: usize,
}

/// Why a device target was refused.
#[derive(Clone, Copy, Debug, PartialEq, Eq, Structural)]
pub enum DeviceError {
    /// Not a private LAN, link-local or loopback address.
    NotLocal,
    /// A broadcast or unspecified address.
    NotTarget,
    /// The LED count lies outside 1–`MAX_LEDS`.
    LedCount,
}

impl DeviceError {
    pub fn message(self) -> (r: &'static str)
        ensures
            r@ == (match self {
                DeviceError::NotLocal => "Use a private LAN, link-local or loopback IPv4 address"@,
                DeviceError::NotTarget => "Broadcast and unspecified addresses are not device targets"@,
                DeviceError::LedCount => "LED count must be 1–8192"@,
            }),
    {
        match self {
            DeviceError::NotLocal => "Use a private LAN, link-local or loopback IPv4 address",
            DeviceError::NotTarget => "Broadcast and unspecified addresses are not device targets",
            DeviceError::LedCount => "LED count must be 1–8192",
        }
    }
}

/// 10.0.0.0/8, 172.16.0.0/12 or 192.168.0.0/16.
pub open spec fn is_private(a: Ipv4) -> bool {
    a.0 == 10 || (a.0 == 172 && 16 <= a.1 && a.1 <= 31) || (a.0 == 192 && a.1 == 168)
}

/// 127.0.0.0/8.
pub open spec fn is_loopback(a: Ipv4) -> bool {
    a.0 == 127
}

/// 169.254.0.0/16.
pub open spec fn is_link_local(a: Ipv4) -> bool {
    a.0 == 169 && a.1 == 254
}

/// 0.0.0.0.
pub open spec fn is_unspecified(a: Ipv4) -> bool {
    a.0 == 0 && a.1 == 0 && a.2 == 0 && a.3 == 0
}

/// The first rule that a device target breaks, if any.
pub open spec fn device_error(d: DeviceConfig) -> Option<DeviceError> {
    if !(is_private(d.address) || is_loopback(d.address) || is_link_local(d.address)) {
        Some(DeviceError::NotLocal)
    } else if d.address.3 == 255 || is_unspecified(d.address) {
        Some(DeviceError::NotTarget)
    } else if !(1 <= d.led_count && d.led_count <= MAX_LEDS) {
        Some(DeviceError::LedCount)
    } else {
        None
    }
}

impl DeviceConfig {
    /// Accepts only local unicast targets with 1–`MAX_LEDS` LEDs.
    pub fn validate(&self) -> (r: Result<(), DeviceError>)
        ensures
            match device_error(*self) {
                None => r is Ok,
                Some(e) => r == Err::<(), DeviceError>(e),
            },
    {
        let a = self.address;
        let private = a.0 == 10 || (a.0 == 172 && 16 <= a.1 && a.1 <= 31) || (a.0 == 192 && a.1
            == 168);
        if !(private || a.0 == 127 || (a.0 == 169 && a.1 == 254)) {
            return Err(DeviceError::NotLocal);
        }
        if a.3 == 255 || (a.0 == 0 && a.1 == 0 && a.2 == 0 && a.3 == 0) {
            return Err(DeviceError::NotTarget);
        }
        if !(1 <= self.led_count && self.led_count <= MAX_LEDS) {
            return Err(DeviceError::LedCount);
        }
        Ok(())
    }
}

/// A user-visible label: not blank, no surrounding whitespace, at most 128
/// bytes and no control characters.
pub open spec fn is_valid_label(value: Seq<char>) -> bool {
    &&& trim(value).len() > 0
    &&& trim(value) == value
    &&& byte_len(value) <= 128
    &&& no_controls(value)
}

pub fn valid_label(value: &str) -> (r: bool)
    ensures
        r == is_valid_label(value@),
{
    let chars = crate::text::chars_of(value);
    assert(chars@.subrange(0, chars@.len() as int) =~= chars@);
    let (a, b) = crate::text::trim_bounds(&chars, 0, chars.len());
    a < b && crate::text::is_trimmed(&chars) && crate::text::str_byte_len(value) <= 128
        && crate::text::controls_absent(&chars, 0, chars.len())
}

/// LED anchors are either absent or one strictly ascending LED index per strip
/// point, from the first LED to the last.
pub open spec fn valid_anchors(anchors: Seq<usize>, points: nat, led_count: usize) -> bool {
    anchors.len() == 0 || (anchors.len() == points && anchors[0] == 0 && anchors.last()
        == led_count - 1 && forall|i: int| 0 <= i < anchors.len() - 1 ==> #[trigger] anchors[i]
        < anchors[i + 1])
}

pub fn anchors_valid(anchors: &[usize], points: usize, led_count: usize) -> (r: bool)
    ensures
        r == valid_anchors(anchors@, points as nat, led_count),
{
    if anchors.len() == 0 {
        return true;
    }
    if anchors.len() != points || anchors[0] != 0 || led_count == 0 || anchors[anchors.len() - 1]
        != led_count - 1 {
        return false;
    }
    let mut i: usize = 0;
    while i < anchors.len() - 1
        invariant
            anchors@.len() >= 1,
            i + 1 <= anchors@.len(),
            forall|k: int| 0 <= k < i ==> #[trigger] anchors@[k] < anchors@[k + 1],
        decreases anchors@.len() - i,
    {
        if anchors[i] >= anchors[i + 1] {
            return false;
        }
        i += 1;
    }
    true
}

/// The first rule at or after `i` whose application names `app`, ignoring
/// ASCII case.
pub open spec fn named_rule(rules: Seq<(&str, bool)>, app: Seq<char>, i: int) -> Option<int>
    decreases rules.len() - i,
{
    if i < 0 || i >= rules.len() {
        None
    } else if crate::taskbar::eq_ignore_ascii_case(app, rules[i].0@) {
        Some(i)
    } else {
        named_rule(rules, app, i + 1)
    }
}

/// The first fallback rule, `*`, at or after `i`.
pub open spec fn fallback_rule(rules: Seq<(&str, bool)>, i: int) -> Option<int>
    decreases rules.len() - i,
{
    if i < 0 || i >= rules.len() {
        None
    } else if rules[i].0@ == "*"@ {
        Some(i)
    } else {
        fallback_rule(rules, i + 1)
    }
}

/// The rule that an application's events follow: the first rule naming it,
/// ignoring ASCII case, else the first `*` rule. An explicitly disabled
/// matching rule suppresses the source, the fallback included.
pub open spec fn rule_index_of(rules: Seq<(&str, bool)>, app: Seq<char>) -> Option<int> {
    let chosen = match named_rule(rules, app, 0) {
        Some(i) => Some(i),
        None => fallback_rule(rules, 0),
    };
    match chosen {
        Some(i) => if rules[i].1 { Some(i) } else { None },
        None => None,
    }
}

pub(crate) proof fn lemma_rule_bounds(rules: Seq<(&str, bool)>, app: Seq<char>, i: int)
    requires
        0 <= i,
    ensures
        named_rule(rules, app, i) matches Some(k) ==> i <= k < rules.len(),
        fallback_rule(rules, i) matches Some(k) ==> i <= k < rules.len(),
    decreases rules.len() - i,
{
    if i < rules.len() {
        lemma_rule_bounds(rules, app, i + 1);
    }
}

proof fn lemma_named_first(rules: Seq<(&str, bool)>, app: Seq<char>, i: int, k: int)
    requires
        0 <= i <= k < rules.len(),
        crate::taskbar::eq_ignore_ascii_case(app, rules[k].0@),
        forall|j: int| i <= j < k ==> !crate::taskbar::eq_ignore_ascii_case(app, #[trigger] rules[j].0@),
    ensures
        named_rule(rules, app, i) == Some(k),
    decreases k - i,
{
    if i < k {
        lemma_named_first(rules, app, i + 1, k);
    }
}

proof fn lemma_named_none(rules: Seq<(&str, bool)>, app: Seq<char>, i: int)
    requires
        0 <= i,
        forall|j: int| 0 <= j < rules.len() ==> !crate::taskbar::eq_ignore_ascii_case(app, #[trigger] rules[j].0@),
    ensures
        named_rule(rules, app, i) is None,
    decreases rules.len() - i,
{
    if i < rules.len() {
        lemma_named_none(rules, app, i + 1);
    }
}

proof fn lemma_fallback_first(rules: Seq<(&str, bool)>, i: int, k: int)
    requires
        0 <= i <= k < rules.len(),
        rules[k].0@ == "*"@,
        forall|j: int| i <= j < k ==> (#[trigger] rules[j]).0@ != "*"@,
    ensures
        fallback_rule(rules, i) == Some(k),
    decreases k - i,
{
    if i < k {
        lemma_fallback_first(rules, i + 1, k);
    }
}

proof fn lemma_fallback_none(rules: Seq<(&str, bool)>, i: int)
    requires
        0 <= i,
        forall|j: int| 0 <= j < rules.len() ==> (#[trigger] rules[j]).0@ != "*"@,
    ensures
        fallback_rule(rules, i) is None,
    decreases rules.len() - i,
{
    if i < rules.len() {
        lemma_fallback_none(rules, i + 1);
    }
}

/// Routing follows only enabled rules: the rule an application's events
/// follow is always an enabled one. The first rule naming the application,
/// ignoring ASCII case, decides: enabled, it routes; disabled, nothing
/// routes, the fallback included. Only an application that no rule names
/// falls back to the first `*` rule, and only while that rule is enabled.
pub proof fn lemma_routing_follows_enabled_rules(rules: Seq<(&str, bool)>, app: Seq<char>)
    ensures
        rule_index_of(rules, app) matches Some(i) ==> 0 <= i < rules.len() && rules[i].1,
        forall|k: int| #![trigger rules[k]]
            0 <= k < rules.len() && crate::taskbar::eq_ignore_ascii_case(app, rules[k].0@)
            && (forall|j: int| 0 <= j < k ==> !crate::taskbar::eq_ignore_ascii_case(app, #[trigger] rules[j].0@))
            ==> rule_index_of(rules, app) == (if rules[k].1 { Some(k) } else { None }),
        (forall|j: int| 0 <= j < rules.len() ==> !crate::taskbar::eq_ignore_ascii_case(app, #[trigger] rules[j].0@)) ==> {
            &&& forall|k: int| #![trigger rules[k]]
                0 <= k < rules.len() && rules[k].0@ == "*"@ && (forall|j: int| 0 <= j < k ==> (#[trigger] rules[j]).0@ != "*"@)
                ==> rule_index_of(rules, app) == (if rules[k].1 { Some(k) } else { None })
            &&& (forall|j: int| 0 <= j < rules.len() ==> (#[trigger] rules[j]).0@ != "*"@) ==> rule_index_of(rules, app) is None
        },
{
    lemma_rule_bounds(rules, app, 0);
    assert forall|k: int| #![trigger rules[k]]
        0 <= k < rules.len() && crate::taskbar::eq_ignore_ascii_case(app, rules[k].0@)
        && (forall|j: int| 0 <= j < k ==> !crate::taskbar::eq_ignore_ascii_case(app, #[trigger] rules[j].0@))
        implies rule_index_of(rules, app) == (if rules[k].1 { Some(k) } else { None }) by {
        lemma_named_first(rules, app, 0, k);
    }
    if forall|j: int| 0 <= j < rules.len() ==> !crate::taskbar::eq_ignore_ascii_case(app, #[trigger] rules[j].0@) {
        lemma_named_none(rules, app, 0);
        assert forall|k: int| #![trigger rules[k]]
            0 <= k < rules.len() && rules[k].0@ == "*"@ && (forall|j: int| 0 <= j < k ==> (#[trigger] rules[j]).0@ != "*"@)
            implies rule_index_of(rules, app) == (if rules[k].1 { Some(k) } else { None }) by {
            lemma_fallback_first(rules, 0, k);
        }
        if forall|j: int| 0 <= j < rules.len() ==> (#[trigger] rules[j]).0@ != "*"@ {
            lemma_fallback_none(rules, 0);
        }
    }
}

/// The rule that events of `application` follow, given each rule's
/// application and whether it is enabled.
pub fn rule_index_for(rules: &[(&str, bool)], application: &str) -> (r: Option<usize>)
    ensures
        match rule_index_of(rules@, application@) {
            Some(i) => r == Some(i as usize),
            None => r is None,
        },
{
    proof {
        lemma_rule_bounds(rules@, application@, 0);
    }
    let app = crate::text::chars_of(application);
    assert(app@.subrange(0, app@.len() as int) =~= app@);
    let mut chosen: Option<usize> = None;
    let mut i: usize = 0;
    while i < rules.len() && chosen.is_none()
        invariant
            i <= rules@.len(),
            app@ == application@,
            app@.subrange(0, app@.len() as int) == app@,
            chosen is None ==> named_rule(rules@, application@, 0) == named_rule(rules@, application@, i as int),
            chosen matches Some(k) ==> named_rule(rules@, application@, 0) == Some(k as int) && k < rules@.len(),
        decreases rules@.len() - i + (if chosen is None { 1int } else { 0int }),
    {
        if crate::taskbar::eq_ignore_case(&app, 0, app.len(), rules[i].0) {
            chosen = Some(i);
        } else {
            i += 1;
        }
    }
    if chosen.is_none() {
        let mut j: usize = 0;
        while j < rules.len() && chosen.is_none()
            invariant
                j <= rules@.len(),
                named_rule(rules@, application@, 0) is None,
                chosen is None ==> fallback_rule(rules@, 0) == fallback_rule(rules@, j as int),
                chosen matches Some(k) ==> fallback_rule(rules@, 0) == Some(k as int) && k < rules@.len(),
            decreases rules@.len() - j + (if chosen is None { 1int } else { 0int }),
        {
            if crate::text::str_eq(rules[j].0, "*") {
                chosen = Some(j);
            } else {
                j += 1;
            }
        }
    }
    match chosen {
        Some(k) => if rules[k].1 { Some(k) } else { None },
        None => None,
    }
}


/// How a rule's notifications light the strip: a steady glow or a ripple
/// that sweeps outward.
#[derive(Clone, Copy, Debug, PartialEq, Eq, Structural)]
pub enum EffectKind {
    Glow,
    Ripple,
}

/// The unit of a rule's light range: metres in the room or LEDs on the strip.
#[derive(Clone, Copy, Debug, PartialEq, Eq, Structural)]
pub enum RangeUnit {
    Room,
    Leds,
}

/// Whether a rule's notifications light once or stay lit until dismissed.
#[derive(Clone, Copy, Debug, PartialEq, Eq, Structural)]
pub enum NotificationMode {
    OneOff,
    Persistent,
}

/// Why a floating-point position was refused: as the geometry checks report it.
#[derive(Clone, Copy, Debug, PartialEq, Eq, Structural)]
pub enum PointFault {
    NotFinite,
    Outside,
}

/// Why a pair of adjacent strip points was refused.
#[derive(Clone, Copy, Debug, PartialEq, Eq, Structural)]
pub enum SegmentFault {
    LeavesRoom,
    TooClose,
}

/// Why a configuration was refused. The first failing check decides.
#[derive(Clone, Copy, Debug, PartialEq, Eq, Structural)]
pub enum ConfigError {
    Version(u32),
    Device(DeviceError),
    RoomWidth,
    RoomDepth,
    RoomHeight,
    Outline,
    Brightness,
    ScreenCount,
    PointCount,
    Anchors,
    DuplicateScreen,
    ScreenName,
    Connector,
    AspectRatio,
    Position(PointFault),
    ScreenWidth,
    ScreenAngle,
    Segment(SegmentFault),
    RuleCount,
    Application,
    Urgency,
    Intensity,
    DuplicateApplication,
    MissingScreen,
    Duration,
    NotificationPosition,
    RangeMetres,
    RangeLeds,
    Gradient,
}

/// A screen as validation sees it: its identifier and labels, and how its
/// floating-point geometry fared (aspect ratio, position, width, angle).
pub struct ScreenFacts {
    pub id: u32,
    pub name: String,
    pub connector: Option<String>,
    pub aspect_ok: bool,
    pub position: Option<PointFault>,
    pub width_ok: bool,
    pub angle_ok: bool,
}

/// An application rule as validation sees it: its application, urgency,
/// screen and gradient length, and how its floating-point values fared.
pub struct RuleFacts {
    pub application: String,
    pub minimum_urgency: u8,
    pub intensity_ok: bool,
    pub screen_id: u32,
    pub duration_ok: bool,
    pub position_ok: bool,
    pub range_unit: RangeUnit,
    pub range_ok: bool,
    pub gradient_len: usize,
    /// The stops start at 0, end at 1, lie in 0..=1 and strictly ascend.
    pub stops_ok: bool,
}

/// A configuration as validation sees it. The geometry of the room, the
/// screens and the strip is floating point and arrives checked: `room_size`
/// (width, depth, height), `outline_ok`, `brightness_ok`, the first failing
/// strip point and the first failing strip segment.
pub struct ConfigFacts {
    pub version: u32,
    pub device: DeviceConfig,
    pub room_size: (bool, bool, bool),
    pub outline_ok: bool,
    pub brightness_ok: bool,
    pub screens: Vec<ScreenFacts>,
    pub strip_points: usize,
    pub anchors: Vec<usize>,
    pub strip_point: Option<PointFault>,
    pub strip_segment: Option<SegmentFault>,
    pub rules: Vec<RuleFacts>,
}

/// Unicode lowercase of `s`, as `str::to_lowercase` gives it.
pub uninterp spec fn lowercase_of(s: Seq<char>) -> Seq<char>;

/// `str::to_lowercase`: the Unicode lowercase mapping of each character.
#[verifier::external_body]
fn lowercase(s: &str) -> (r: String)
    ensures
        r@ == lowercase_of(s@),
{
    s.to_lowercase()
}

/// Some screen before position `i` has the identifier `id`.
pub open spec fn id_before(screens: Seq<ScreenFacts>, id: u32, i: int) -> bool {
    exists|j: int| 0 <= j < i && (#[trigger] screens[j]).id == id
}

/// What is wrong with the screen at position `i`, checked in order.
pub open spec fn screen_error(screens: Seq<ScreenFacts>, i: int) -> Option<ConfigError> {
    let s = screens[i];
    if id_before(screens, s.id, i) {
        Some(ConfigError::DuplicateScreen)
    } else if !is_valid_label(s.name@) {
        Some(ConfigError::ScreenName)
    } else if s.connector matches Some(c) && !is_valid_label(c@) {
        Some(ConfigError::Connector)
    } else if !s.aspect_ok {
        Some(ConfigError::AspectRatio)
    } else if s.position is Some {
        Some(ConfigError::Position(s.position->0))
    } else if !s.width_ok {
        Some(ConfigError::ScreenWidth)
    } else if !s.angle_ok {
        Some(ConfigError::ScreenAngle)
    } else {
        None
    }
}

/// The first error among the screens from position `i` on.
pub open spec fn screens_error(screens: Seq<ScreenFacts>, i: int) -> Option<ConfigError>
    decreases screens.len() - i,
{
    if i < 0 || i >= screens.len() {
        None
    } else {
        match screen_error(screens, i) {
            Some(e) => Some(e),
            None => screens_error(screens, i + 1),
        }
    }
}

/// Some rule before position `i` names the same application, ignoring case.
pub open spec fn application_before(rules: Seq<RuleFacts>, i: int) -> bool {
    exists|j: int| 0 <= j < i && lowercase_of((#[trigger] rules[j]).application@) == lowercase_of(rules[i].application@)
}

/// Some screen has the identifier `id`.
pub open spec fn has_screen(screens: Seq<ScreenFacts>, id: u32) -> bool {
    exists|j: int| 0 <= j < screens.len() && (#[trigger] screens[j]).id == id
}

/// What is wrong with the rule at position `i`, checked in order.
pub open spec fn rule_error(rules: Seq<RuleFacts>, screens: Seq<ScreenFacts>, i: int) -> Option<ConfigError> {
    let r = rules[i];
    if !is_valid_label(r.application@) {
        Some(ConfigError::Application)
    } else if r.minimum_urgency > 2 {
        Some(ConfigError::Urgency)
    } else if !r.intensity_ok {
        Some(ConfigError::Intensity)
    } else if application_before(rules, i) {
        Some(ConfigError::DuplicateApplication)
    } else if !has_screen(screens, r.screen_id) {
        Some(ConfigError::MissingScreen)
    } else if !r.duration_ok {
        Some(ConfigError::Duration)
    } else if !r.position_ok {
        Some(ConfigError::NotificationPosition)
    } else if !r.range_ok {
        Some(if r.range_unit == RangeUnit::Leds { ConfigError::RangeLeds } else { ConfigError::RangeMetres })
    } else if !(r.gradient_len == 0 || (2 <= r.gradient_len <= 8 && r.stops_ok)) {
        Some(ConfigError::Gradient)
    } else {
        None
    }
}

/// The first error among the rules from position `i` on.
pub open spec fn rules_error(rules: Seq<RuleFacts>, screens: Seq<ScreenFacts>, i: int) -> Option<ConfigError>
    decreases rules.len() - i,
{
    if i < 0 || i >= rules.len() {
        None
    } else {
        match rule_error(rules, screens, i) {
            Some(e) => Some(e),
            None => rules_error(rules, screens, i + 1),
        }
    }
}

/// The first error of a configuration: its version, device, room, screen
/// and point counts, LED anchors, each screen, the strip, then each rule.
pub open spec fn config_error(f: ConfigFacts) -> Option<ConfigError> {
    if f.version != CURRENT_CONFIG_VERSION {
        Some(ConfigError::Version(f.version))
    } else if device_error(f.device) is Some {
        Some(ConfigError::Device(device_error(f.device)->0))
    } else if !f.room_size.0 {
        Some(ConfigError::RoomWidth)
    } else if !f.room_size.1 {
        Some(ConfigError::RoomDepth)
    } else if !f.room_size.2 {
        Some(ConfigError::RoomHeight)
    } else if !f.outline_ok {
        Some(ConfigError::Outline)
    } else if !f.brightness_ok {
        Some(ConfigError::Brightness)
    } else if f.screens@.len() == 0 || f.screens@.len() > MAX_SCREENS {
        Some(ConfigError::ScreenCount)
    } else if !(2 <= f.strip_points <= MAX_POINTS) {
        Some(ConfigError::PointCount)
    } else if !valid_anchors(f.anchors@, f.strip_points as nat, f.device.led_count) {
        Some(ConfigError::Anchors)
    } else if screens_error(f.screens@, 0) is Some {
        screens_error(f.screens@, 0)
    } else if f.strip_point is Some {
        Some(ConfigError::Position(f.strip_point->0))
    } else if f.strip_segment is Some {
        Some(ConfigError::Segment(f.strip_segment->0))
    } else if f.rules@.len() > MAX_RULES {
        Some(ConfigError::RuleCount)
    } else {
        rules_error(f.rules@, f.screens@, 0)
    }
}

fn screen_error_at(screens: &Vec<ScreenFacts>, i: usize) -> (r: Option<ConfigError>)
    requires
        i < screens@.len(),
    ensures
        r == screen_error(screens@, i as int),
{
    let s = &screens[i];
    let mut j: usize = 0;
    while j < i
        invariant
            j <= i < screens@.len(),
            s == screens@[i as int],
            forall|k: int| 0 <= k < j ==> (#[trigger] screens@[k]).id != s.id,
        decreases i - j,
    {
        if screens[j].id == s.id {
            assert(id_before(screens@, s.id, i as int));
            return Some(ConfigError::DuplicateScreen);
        }
        j += 1;
    }
    if !valid_label(s.name.as_str()) {
        return Some(ConfigError::ScreenName);
    }
    if let Some(c) = &s.connector {
        if !valid_label(c.as_str()) {
            return Some(ConfigError::Connector);
        }
    }
    if !s.aspect_ok {
        return Some(ConfigError::AspectRatio);
    }
    if let Some(f) = s.position {
        return Some(ConfigError::Position(f));
    }
    if !s.width_ok {
        return Some(ConfigError::ScreenWidth);
    }
    if !s.angle_ok {
        return Some(ConfigError::ScreenAngle);
    }
    None
}

fn rule_error_at(rules: &Vec<RuleFacts>, screens: &Vec<ScreenFacts>, i: usize) -> (r: Option<ConfigError>)
    requires
        i < rules@.len(),
    ensures
        r == rule_error(rules@, screens@, i as int),
{
    let r = &rules[i];
    if !valid_label(r.application.as_str()) {
        return Some(ConfigError::Application);
    }
    if r.minimum_urgency > 2 {
        return Some(ConfigError::Urgency);
    }
    if !r.intensity_ok {
        return Some(ConfigError::Intensity);
    }
    let key = lowercase(r.application.as_str());
    let mut j: usize = 0;
    while j < i
        invariant
            j <= i < rules@.len(),
            r == rules@[i as int],
            is_valid_label(r.application@),
            r.minimum_urgency <= 2,
            r.intensity_ok,
            key@ == lowercase_of(r.application@),
            forall|k: int| 0 <= k < j ==> lowercase_of((#[trigger] rules@[k]).application@) != key@,
        decreases i - j,
    {
        let other = lowercase(rules[j].application.as_str());
        if crate::text::str_eq(other.as_str(), key.as_str()) {
            assert(lowercase_of(rules@[j as int].application@) == lowercase_of(rules@[i as int].application@));
            assert(application_before(rules@, i as int));
            return Some(ConfigError::DuplicateApplication);
        }
        j += 1;
    }
    let mut k: usize = 0;
    let mut found = false;
    while k < screens.len()
        invariant
            k <= screens@.len(),
            found ==> has_screen(screens@, r.screen_id),
            !found ==> forall|m: int| 0 <= m < k ==> (#[trigger] screens@[m]).id != r.screen_id,
        decreases screens@.len() - k,
    {
        if screens[k].id == r.screen_id {
            found = true;
        }
        k += 1;
    }
    if !found {
        return Some(ConfigError::MissingScreen);
    }
    if !r.duration_ok {
        return Some(ConfigError::Duration);
    }
    if !r.position_ok {
        return Some(ConfigError::NotificationPosition);
    }
    if !r.range_ok {
        return Some(match r.range_unit {
            RangeUnit::Leds => ConfigError::RangeLeds,
            RangeUnit::Room => ConfigError::RangeMetres,
        });
    }
    if !(r.gradient_len == 0 || (2 <= r.gradient_len && r.gradient_len <= 8 && r.stops_ok)) {
        return Some(ConfigError::Gradient);
    }
    None
}

/// Checks a whole configuration; the first failing check decides the error.
pub fn validate_config(f: &ConfigFacts) -> (r: Result<(), ConfigError>)
    ensures
        r == (match config_error(*f) {
            Some(e) => Err::<(), ConfigError>(e),
            None => Ok(()),
        }),
{
    if f.version != CURRENT_CONFIG_VERSION {
        return Err(ConfigError::Version(f.version));
    }
    if let Err(e) = f.device.validate() {
        return Err(ConfigError::Device(e));
    }
    if !f.room_size.0 {
        return Err(ConfigError::RoomWidth);
    }
    if !f.room_size.1 {
        return Err(ConfigError::RoomDepth);
    }
    if !f.room_size.2 {
        return Err(ConfigError::RoomHeight);
    }
    if !f.outline_ok {
        return Err(ConfigError::Outline);
    }
    if !f.brightness_ok {
        return Err(ConfigError::Brightness);
    }
    if f.screens.len() == 0 || f.screens.len() > MAX_SCREENS {
        return Err(ConfigError::ScreenCount);
    }
    if !(2 <= f.strip_points && f.strip_points <= MAX_POINTS) {
        return Err(ConfigError::PointCount);
    }
    if !anchors_valid(f.anchors.as_slice(), f.strip_points, f.device.led_count) {
        return Err(ConfigError::Anchors);
    }
    let mut i: usize = 0;
    while i < f.screens.len()
        invariant
            i <= f.screens@.len(),
            screens_error(f.screens@, 0) == screens_error(f.screens@, i as int),
            screens_error(f.screens@, 0) is Some ==> config_error(*f) == screens_error(f.screens@, 0),
        decreases f.screens@.len() - i,
    {
        if let Some(e) = screen_error_at(&f.screens, i) {
            assert(screens_error(f.screens@, i as int) == Some(e));
            return Err(e);
        }
        i += 1;
    }
    if let Some(p) = f.strip_point {
        return Err(ConfigError::Position(p));
    }
    if let Some(g) = f.strip_segment {
        return Err(ConfigError::Segment(g));
    }
    if f.rules.len() > MAX_RULES {
        return Err(ConfigError::RuleCount);
    }
    let mut k: usize = 0;
    while k < f.rules.len()
        invariant
            k <= f.rules@.len(),
            rules_error(f.rules@, f.screens@, 0) == rules_error(f.rules@, f.screens@, k as int),
            config_error(*f) == rules_error(f.rules@, f.screens@, 0),
        decreases f.rules@.len() - k,
    {
        if let Some(e) = rule_error_at(&f.rules, &f.screens, k) {
            assert(rules_error(f.rules@, f.screens@, k as int) == Some(e));
            return Err(e);
        }
        k += 1;
    }
    Ok(())
}

} // verus!
