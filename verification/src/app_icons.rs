//! Local desktop-entry icons: the decoded pixels and the rules that pick them.
//! No icon names are guessed: a missing, unsupported or unsafe asset gives
//! no icon, never a substitute.
use vstd::prelude::*;
use std::io::Cursor;
use png::{ColorType, Decoder, Limits, Transformations};
use crate::taskbar::{ascii_lower, has_any, lower};
use crate::text::{
    byte_len, chars_of, contains_any, control_char, eq_lit, find, find_from, find_in, no_controls,
    split, split_ranges, str_byte_len, string_of, trim, trim_bounds, white_space, controls_absent,
    lemma_find_from_bounds, str_eq,
};

verus! {

/// Edge of a decoded icon, in pixels.
pub const ICON_SIZE: u32 = 64;
/// Largest metadata file read while resolving icons.
pub const MAX_METADATA_BYTES: usize = 128 * 1024;
/// Most themes visited while following inheritance.
pub const MAX_THEMES: usize = 32;
/// Most directories one theme may list.
pub const MAX_DIRECTORIES: usize = 1024;
/// Most file lookups while resolving one icon.
pub const MAX_PROBES: usize = 16_384;

/// A decoded application icon.
pub struct AppIcon {
    pub width: usize,
    pub height: usize,
    /// Unpremultiplied sRGB pixels, four bytes per pixel.
    pub rgba: Vec<u8>,
    /// An alpha-weighted source color, not a tint or an invented category color.
    pub dominant: [u8; 3],
}

/// Characters that never occur in one component of an icon lookup.
pub open spec fn unsafe_component_chars() -> Seq<char> {
    seq!['/', '\\', ':', '?', '#', '$', '~']
}

/// A single path component that names nothing but itself: not empty, at most
/// 255 bytes, not `.` or `..`, no separators, URL or shell syntax, no
/// control characters and no surrounding whitespace.
pub open spec fn is_safe_component(v: Seq<char>) -> bool {
    &&& v.len() > 0
    &&& byte_len(v) <= 255
    &&& v != "."@
    &&& v != ".."@
    &&& !has_any(v, unsafe_component_chars())
    &&& no_controls(v)
    &&& trim(v) == v
}

pub open spec fn is_ascii_char(c: char) -> bool {
    (c as u32) < 0x80
}

/// A theme name: a safe ASCII component without spaces or commas.
pub open spec fn is_safe_theme(v: Seq<char>) -> bool {
    &&& is_safe_component(v)
    &&& forall|i: int| 0 <= i < v.len() ==> is_ascii_char(#[trigger] v[i])
    &&& !has_any(v, seq![' ', ','])
}

fn component_ok(chars: &[char]) -> (r: bool)
    ensures
        r == is_safe_component(chars@),
{
    let n = chars.len();
    assert(chars@.subrange(0, n as int) =~= chars@);
    if n == 0 || eq_lit(chars, 0, n, ".") || eq_lit(chars, 0, n, "..") {
        return false;
    }
    let bad = ['/', '\\', ':', '?', '#', '$', '~'];
    assert(bad@ =~= unsafe_component_chars());
    if contains_any(chars, 0, n, &bad) || !controls_absent(chars, 0, n) {
        return false;
    }
    let (a, b) = trim_bounds(chars, 0, n);
    if a != 0 || b != n {
        assert(chars@.subrange(a as int, b as int).len() != chars@.len());
        return false;
    }
    if n > 255 {
        proof {
            crate::text::lemma_byte_len_at_least_len(chars@);
        }
        return false;
    }
    proof {
        crate::text::lemma_byte_len_at_most(chars@);
    }
    crate::text::utf8_len(chars, 0, n) <= 255
}

pub fn safe_component(value: &str) -> (r: bool)
    ensures
        r == is_safe_component(value@),
{
    let chars = chars_of(value);
    component_ok(&chars)
}

pub fn safe_theme(value: &str) -> (r: bool)
    ensures
        r == is_safe_theme(value@),
{
    let chars = chars_of(value);
    if !component_ok(&chars) {
        return false;
    }
    let mut i: usize = 0;
    while i < chars.len()
        invariant
            i <= chars@.len(),
            chars@ == value@,
            forall|k: int| 0 <= k < i ==> is_ascii_char(#[trigger] chars@[k]),
        decreases chars@.len() - i,
    {
        if (chars[i] as u32) >= 0x80 {
            assert(!is_ascii_char(chars@[i as int]));
            return false;
        }
        i += 1;
    }
    let n = chars.len();
    let spaces = [' ', ','];
    assert(spaces@ =~= seq![' ', ',']);
    !contains_any(&chars, 0, n, &spaces)
}

/// The named pieces among `pieces`: empty and `.` pieces dropped.
pub open spec fn named(pieces: Seq<Seq<char>>) -> Seq<Seq<char>>
    decreases pieces.len(),
{
    if pieces.len() == 0 {
        Seq::empty()
    } else {
        let before = named(pieces.drop_last());
        let last = pieces.last();
        if last.len() > 0 && last != "."@ {
            before.push(last)
        } else {
            before
        }
    }
}

/// The components of an absolute path as `Path` compares them: separators
/// collapse and `.` components vanish.
pub open spec fn path_parts(p: Seq<char>) -> Seq<Seq<char>> {
    named(split(p, seq!['/']))
}

/// An absolute path on this platform.
pub open spec fn is_absolute(p: Seq<char>) -> bool {
    p.len() > 0 && p[0] == '/'
}

/// Two absolute paths name the same location.
pub open spec fn same_path(a: Seq<char>, b: Seq<char>) -> bool {
    path_parts(a) == path_parts(b)
}


pub open spec fn char_views(v: Seq<Vec<char>>) -> Seq<Seq<char>> {
    v.map_values(|x: Vec<char>| x@)
}

fn parts_of(p: &str) -> (r: Vec<Vec<char>>)
    ensures
        char_views(r@) == path_parts(p@),
{
    let chars = chars_of(p);
    let n = chars.len();
    assert(chars@.subrange(0, n as int) =~= chars@);
    let slash = ['/'];
    assert(slash@ =~= seq!['/']);
    let ranges = split_ranges(&chars, 0, n, &slash);
    let ghost pieces = split(chars@, seq!['/']);
    let mut out: Vec<Vec<char>> = Vec::new();
    let mut k: usize = 0;
    assert(pieces.take(0) =~= Seq::<Seq<char>>::empty());
    while k < ranges.len()
        invariant
            k <= ranges@.len(),
            ranges@.len() == pieces.len(),
            chars@ == p@,
            n == chars@.len(),
            pieces == split(chars@, seq!['/']),
            forall|j: int| 0 <= j < ranges@.len() ==> {
                let (a, b) = #[trigger] ranges@[j];
                &&& a <= b <= n
                &&& chars@.subrange(a as int, b as int) == pieces[j]
            },
            char_views(out@) == named(pieces.take(k as int)),
        decreases ranges@.len() - k,
    {
        let (a, b) = ranges[k];
        assert(pieces.take(k + 1).drop_last() =~= pieces.take(k as int));
        if a < b && !eq_lit(&chars, a, b, ".") {
            let piece = vstd::slice::slice_to_vec(vstd::slice::slice_subrange(chars.as_slice(), a, b));
            let ghost before = out@;
            out.push(piece);
            assert(char_views(out@) =~= char_views(before).push(pieces[k as int]));
        }
        k += 1;
    }
    assert(pieces.take(k as int) =~= pieces);
    out
}

fn same_location(a: &str, b: &str) -> (r: bool)
    ensures
        r == same_path(a@, b@),
{
    let x = parts_of(a);
    let y = parts_of(b);
    if x.len() != y.len() {
        assert(char_views(x@).len() != char_views(y@).len());
        return false;
    }
    let mut i: usize = 0;
    while i < x.len()
        invariant
            i <= x@.len(),
            x@.len() == y@.len(),
            char_views(x@) == path_parts(a@),
            char_views(y@) == path_parts(b@),
            forall|j: int| 0 <= j < i ==> (#[trigger] x@[j])@ == y@[j]@,
        decreases x@.len() - i,
    {
        if !crate::text::chars_eq(x[i].as_slice(), y[i].as_slice()) {
            assert(char_views(x@)[i as int] != char_views(y@)[i as int]);
            return false;
        }
        i += 1;
    }
    assert(char_views(x@) =~= char_views(y@));
    true
}

/// The absolute paths of `ps` in order, each location once: a later path
/// naming the same location as an earlier one is dropped.
pub open spec fn unique_paths(ps: Seq<Seq<char>>) -> Seq<Seq<char>>
    decreases ps.len(),
{
    if ps.len() == 0 {
        Seq::empty()
    } else {
        let before = unique_paths(ps.drop_last());
        let p = ps.last();
        if is_absolute(p) && !(exists|k: int| 0 <= k < before.len() && same_path(#[trigger] before[k], p)) {
            before.push(p)
        } else {
            before
        }
    }
}

pub fn unique_absolute(paths: Vec<String>) -> (r: Vec<String>)
    ensures
        crate::text::texts(r@) == unique_paths(crate::text::texts(paths@)),
{
    let ghost ps = crate::text::texts(paths@);
    let mut out: Vec<String> = Vec::new();
    let mut i: usize = 0;
    assert(ps.take(0) =~= Seq::<Seq<char>>::empty());
    while i < paths.len()
        invariant
            i <= paths@.len(),
            ps == crate::text::texts(paths@),
            crate::text::texts(out@) == unique_paths(ps.take(i as int)),
        decreases paths@.len() - i,
    {
        let p = &paths[i];
        assert(ps.take(i + 1).drop_last() =~= ps.take(i as int));
        assert(ps.take(i + 1).last() == p@);
        let chars = chars_of(p.as_str());
        let absolute = chars.len() > 0 && chars[0] == '/';
        let mut seen = false;
        let mut j: usize = 0;
        while j < out.len() && !seen
            invariant
                j <= out@.len(),
                seen ==> exists|k: int| 0 <= k < out@.len() && same_path(#[trigger] crate::text::texts(out@)[k], p@),
                !seen ==> forall|k: int| 0 <= k < j ==> !same_path(#[trigger] crate::text::texts(out@)[k], p@),
            decreases out@.len() - j, !seen as int,
        {
            if same_location(out[j].as_str(), p.as_str()) {
                assert(crate::text::texts(out@)[j as int] == out@[j as int]@);
                seen = true;
            } else {
                assert(crate::text::texts(out@)[j as int] == out@[j as int]@);
                j += 1;
            }
        }
        if absolute && !seen {
            let ghost before = out@;
            out.push(p.clone());
            assert(crate::text::texts(out@) =~= crate::text::texts(before).push(p@));
        }
        i += 1;
    }
    assert(ps.take(i as int) =~= ps);
    out
}

/// A reference to an element of the same document: `#` and a non-empty
/// identifier without whitespace.
pub open spec fn is_local_fragment(v: Seq<char>) -> bool {
    &&& v.len() > 1
    &&& v[0] == '#'
    &&& forall|i: int| 1 <= i < v.len() ==> !white_space(#[trigger] v[i])
}

fn fragment_ok(chars: &[char], start: usize, end: usize) -> (r: bool)
    requires
        start <= end <= chars@.len(),
    ensures
        r == is_local_fragment(chars@.subrange(start as int, end as int)),
{
    let ghost v = chars@.subrange(start as int, end as int);
    if end - start < 2 || chars[start] != '#' {
        return false;
    }
    let mut i = start + 1;
    while i < end
        invariant
            start < i <= end <= chars@.len(),
            v == chars@.subrange(start as int, end as int),
            forall|k: int| 1 <= k < i - start ==> !white_space(#[trigger] v[k]),
        decreases end - i,
    {
        if crate::text::is_white_space(chars[i]) {
            assert(white_space(v[i - start]));
            return false;
        }
        i += 1;
    }
    true
}

pub fn local_fragment(value: &str) -> (r: bool)
    ensures
        r == is_local_fragment(value@),
{
    let chars = chars_of(value);
    assert(chars@.subrange(0, chars@.len() as int) =~= chars@);
    fragment_ok(&chars, 0, chars.len())
}

pub open spec fn is_quote(c: char) -> bool {
    c == '\'' || c == '"'
}

/// `s` without leading quotes.
pub open spec fn unquote_start(s: Seq<char>) -> Seq<char>
    decreases s.len(),
{
    if s.len() > 0 && is_quote(s[0]) {
        unquote_start(s.drop_first())
    } else {
        s
    }
}

/// `s` without trailing quotes.
pub open spec fn unquote_end(s: Seq<char>) -> Seq<char>
    decreases s.len(),
{
    if s.len() > 0 && is_quote(s.last()) {
        unquote_end(s.drop_last())
    } else {
        s
    }
}

/// `s` without surrounding single or double quotes.
pub open spec fn unquote(s: Seq<char>) -> Seq<char> {
    unquote_end(unquote_start(s))
}

fn unquote_bounds(chars: &[char], start: usize, end: usize) -> (r: (usize, usize))
    requires
        start <= end <= chars@.len(),
    ensures
        start <= r.0 <= r.1 <= end,
        chars@.subrange(r.0 as int, r.1 as int) == unquote(chars@.subrange(start as int, end as int)),
{
    let mut a = start;
    while a < end && (chars[a] == '\'' || chars[a] == '"')
        invariant
            start <= a <= end <= chars@.len(),
            unquote_start(chars@.subrange(start as int, end as int)) == unquote_start(chars@.subrange(a as int, end as int)),
        decreases end - a,
    {
        assert(chars@.subrange(a as int, end as int).drop_first() =~= chars@.subrange(a + 1, end as int));
        a += 1;
    }
    let mut b = end;
    while b > a && (chars[b - 1] == '\'' || chars[b - 1] == '"')
        invariant
            start <= a <= b <= end <= chars@.len(),
            unquote(chars@.subrange(start as int, end as int)) == unquote_end(chars@.subrange(a as int, b as int)),
        decreases b - a,
    {
        assert(chars@.subrange(a as int, b as int).drop_last() =~= chars@.subrange(a as int, b - 1));
        b -= 1;
    }
    (a, b)
}

/// Every `url(...)` in the lower-cased text `l`, from position `i` on, is
/// closed and names a local fragment.
pub open spec fn urls_local(l: Seq<char>, i: int) -> bool
    decreases l.len() - i,
{
    if i < 0 || i > l.len() {
        true
    } else {
        proof {
            lemma_find_from_bounds(l, "url("@, i);
        }
        match find_from(l, "url("@, i) {
            None => true,
            Some(k) => if k < i {
                true
            } else {
                let s = k + 4;
                proof {
                    lemma_find_from_bounds(l, seq![')'], s);
                }
                match find_from(l, seq![')'], s) {
                    None => false,
                    Some(e) => if e < s {
                        true
                    } else {
                        is_local_fragment(unquote(trim(l.subrange(s, e)))) && urls_local(l, e + 1)
                    },
                }
            },
        }
    }
}

/// CSS that fetches nothing: no escapes, comments or at-rules, and every
/// `url(...)` a local fragment. Namespace declarations are plain attributes,
/// not fetched resources.
pub open spec fn css_local(v: Seq<char>) -> bool {
    &&& !has_any(v, seq!['\\', '@'])
    &&& find(v, "/*"@) is None
    &&& urls_local(v.map_values(|c: char| ascii_lower(c)), 0)
}

pub fn safe_css_resources(value: &str) -> (r: bool)
    ensures
        r == css_local(value@),
{
    let chars = chars_of(value);
    let n = chars.len();
    assert(chars@.subrange(0, n as int) =~= chars@);
    let banned = ['\\', '@'];
    assert(banned@ =~= seq!['\\', '@']);
    if contains_any(&chars, 0, n, &banned) {
        return false;
    }
    let comment = chars_of("/*");
    proof {
        reveal_strlit("/*");
        reveal_strlit("url(");
    }
    if find_in(&chars, 0, n, &comment).is_some() {
        return false;
    }
    let mut lowered: Vec<char> = Vec::new();
    let mut j: usize = 0;
    while j < n
        invariant
            j <= n == chars@.len(),
            lowered@ =~= chars@.take(j as int).map_values(|c: char| ascii_lower(c)),
        decreases n - j,
    {
        lowered.push(lower(chars[j]));
        j += 1;
        assert(lowered@ =~= chars@.take(j as int).map_values(|c: char| ascii_lower(c)));
    }
    assert(chars@.take(n as int) =~= chars@);
    let ghost l = lowered@;
    assert(l.subrange(0, n as int) =~= l);
    assert(l == value@.map_values(|c: char| ascii_lower(c)));
    assert(css_local(value@) == urls_local(l, 0));
    let url = chars_of("url(");
    let close = [')'];
    assert(close@ =~= seq![')']);
    let mut i: usize = 0;
    loop
        invariant
            i <= n,
            n == lowered@.len(),
            l == lowered@,
            l.subrange(0, n as int) == l,
            url@ == "url("@,
            url@.len() == 4,
            close@ == seq![')'],
            css_local(value@) == urls_local(l, 0),
            urls_local(l, 0) == urls_local(l, i as int),
        decreases n - i,
    {
        proof {
            lemma_find_from_bounds(l, "url("@, i as int);
        }
        let k = match find_in(&lowered, i, n, &url) {
            None => return true,
            Some(k) => k,
        };
        let start = k + 4;
        proof {
            lemma_find_from_bounds(l, seq![')'], start as int);
        }
        let e = match find_in(&lowered, start, n, &close) {
            None => return false,
            Some(e) => e,
        };
        let (a, b) = trim_bounds(&lowered, start, e);
        let (x, y) = unquote_bounds(&lowered, a, b);
        assert(l.subrange(a as int, b as int) == trim(l.subrange(start as int, e as int)));
        if !fragment_ok(&lowered, x, y) {
            return false;
        }
        i = e + 1;
    }
}

/// One attribute of an SVG element: its local name, namespace and value.
pub struct SvgAttribute {
    pub name: String,
    pub namespace: Option<String>,
    pub value: String,
}

/// One node of a parsed SVG document, in document order: whether it is a
/// processing instruction or an element, the position of its parent, the
/// element's local tag name and attributes, and what each child gives as
/// text (a text node its text, an element the text of its first child).
pub struct SvgNode {
    pub instruction: bool,
    pub element: bool,
    pub parent: Option<usize>,
    pub tag: String,
    pub attributes: Vec<SvgAttribute>,
    pub texts: Vec<Option<String>>,
}

pub struct SvgNodeView {
    pub instruction: bool,
    pub element: bool,
    pub parent: Option<usize>,
    pub tag: Seq<char>,
    pub attributes: Seq<(Seq<char>, Option<Seq<char>>, Seq<char>)>,
    pub texts: Seq<Option<Seq<char>>>,
}

pub open spec fn svg_node_view(n: SvgNode) -> SvgNodeView {
    SvgNodeView {
        instruction: n.instruction,
        element: n.element,
        parent: n.parent,
        tag: n.tag@,
        attributes: n.attributes@.map_values(|a: SvgAttribute| (a.name@, opt_view(a.namespace), a.value@)),
        texts: n.texts@.map_values(|t: Option<String>| opt_view(t)),
    }
}

pub open spec fn svg_views(r: Option<Vec<SvgNode>>) -> Option<Seq<SvgNodeView>> {
    match r {
        Some(v) => Some(v@.map_values(|n: SvgNode| svg_node_view(n))),
        None => None,
    }
}

/// The nodes that `roxmltree` parses from `text` with these options, or
/// none where it refuses the text.
pub uninterp spec fn svg_nodes_of(text: Seq<char>, allow_dtd: bool, nodes_limit: u32) -> Option<Seq<SvgNodeView>>;

/// `roxmltree::Document::parse_with_options`, each node of
/// `Document::descendants` converted one for one; parent positions are
/// `NodeId::get_usize`, which for the root's descendants is their position.
#[verifier::external_body]
fn svg_nodes(text: &str, allow_dtd: bool, nodes_limit: u32) -> (r: Option<Vec<SvgNode>>)
    ensures
        svg_views(r) == svg_nodes_of(text@, allow_dtd, nodes_limit),
{
    let options = roxmltree::ParsingOptions { allow_dtd, nodes_limit, entity_resolver: None };
    Some(roxmltree::Document::parse_with_options(text, options).ok()?.descendants().map(|n| SvgNode {
        instruction: n.is_pi(),
        element: n.is_element(),
        parent: n.parent().map(|p| p.id().get_usize()),
        tag: n.tag_name().name().to_owned(),
        attributes: n.attributes().map(|a| SvgAttribute {
            name: a.name().to_owned(), namespace: a.namespace().map(str::to_owned), value: a.value().to_owned(),
        }).collect(),
        texts: n.children().map(|c| c.text().map(str::to_owned)).collect(),
    }).collect())
}

/// Deepest nesting an SVG may have, counting a node and its ancestors.
pub const MAX_SVG_DEPTH: usize = 64;
/// Most nodes an SVG document may have.
pub const MAX_SVG_NODES: u32 = 16_384;

/// How many nodes, at most `cap`, lie on the way from node `i` up to the
/// root, node `i` included.
pub open spec fn chain_len(nodes: Seq<SvgNodeView>, i: int, cap: nat) -> nat
    decreases cap,
{
    if cap == 0 || i < 0 || i >= nodes.len() {
        0
    } else {
        1 + match nodes[i].parent {
            Some(p) => chain_len(nodes, p as int, (cap - 1) as nat),
            None => 0,
        }
    }
}

pub open spec fn xml_namespace() -> Seq<char> {
    "http://www.w3.org/XML/1998/namespace"@
}

/// An attribute that could run script or reach outside the file.
pub open spec fn unsafe_attribute(a: (Seq<char>, Option<Seq<char>>, Seq<char>)) -> bool {
    ||| crate::taskbar::has_prefix(a.0, "on"@)
    ||| (a.0 == "href"@ && !is_local_fragment(a.2))
    ||| (a.0 == "base"@ && a.1 == Some(xml_namespace()))
    ||| !css_local(a.2)
}

/// Tags that run script or embed other content.
pub open spec fn forbidden_tag(t: Seq<char>) -> bool {
    t == "script"@ || t == "foreignObject"@ || t == "image"@ || t == "feImage"@
}

/// Node `i` makes the document unsafe: a processing instruction, nesting
/// deeper than `MAX_SVG_DEPTH`, or an element with a forbidden tag, an
/// unsafe attribute, or a style sheet that reaches outside the file.
pub open spec fn unsafe_node(nodes: Seq<SvgNodeView>, i: int) -> bool {
    let n = nodes[i];
    ||| n.instruction
    ||| chain_len(nodes, i, (MAX_SVG_DEPTH + 1) as nat) > MAX_SVG_DEPTH
    ||| n.element && {
        ||| forbidden_tag(n.tag)
        ||| exists|k: int| 0 <= k < n.attributes.len() && unsafe_attribute(#[trigger] n.attributes[k])
        ||| (n.tag == "style"@ && exists|k: int| 0 <= k < n.texts.len() && (#[trigger] n.texts[k] matches Some(t) && !css_local(t)))
    }
}

/// The SVG text can be rendered safely: it declares no document type, it
/// parses without DTD within `MAX_SVG_NODES` nodes, and no node is unsafe.
pub open spec fn svg_safe(text: Seq<char>) -> bool {
    &&& find(text, "<!DOCTYPE"@) is None
    &&& svg_nodes_of(text, false, MAX_SVG_NODES) matches Some(nodes)
        && forall|i: int| 0 <= i < nodes.len() ==> !#[trigger] unsafe_node(nodes, i)
}

fn chain_exceeds(nodes: &Vec<SvgNode>, i: usize) -> (r: bool)
    requires
        i < nodes@.len(),
    ensures
        r == (chain_len(svg_views(Some(*nodes))->0, i as int, (MAX_SVG_DEPTH + 1) as nat) > MAX_SVG_DEPTH),
{
    let ghost v = svg_views(Some(*nodes))->0;
    let mut count: usize = 0;
    let mut cur: usize = i;
    // Walk up while the count stays within the cap.
    loop
        invariant
            v == svg_views(Some(*nodes))->0,
            count <= MAX_SVG_DEPTH,
            cur < nodes@.len(),
            chain_len(v, i as int, (MAX_SVG_DEPTH + 1) as nat) == count + chain_len(v, cur as int, (MAX_SVG_DEPTH + 1 - count) as nat),
        decreases MAX_SVG_DEPTH - count,
    {
        assert(v[cur as int] == svg_node_view(nodes@[cur as int]));
        assert(chain_len(v, cur as int, (MAX_SVG_DEPTH + 1 - count) as nat) == 1 + match v[cur as int].parent {
            Some(p) => chain_len(v, p as int, (MAX_SVG_DEPTH - count) as nat),
            None => 0,
        });
        count += 1;
        if count > MAX_SVG_DEPTH {
            return true;
        }
        match nodes[cur].parent {
            None => {
                return false;
            },
            Some(p) => {
                if p >= nodes.len() {
                    assert(chain_len(v, p as int, (MAX_SVG_DEPTH + 1 - count) as nat) == 0);
                    return false;
                }
                cur = p;
            },
        }
    }
}

fn node_is_unsafe(nodes: &Vec<SvgNode>, i: usize) -> (r: bool)
    requires
        i < nodes@.len(),
    ensures
        r == unsafe_node(svg_views(Some(*nodes))->0, i as int),
{
    let ghost v = svg_views(Some(*nodes))->0;
    let n = &nodes[i];
    assert(v[i as int] == svg_node_view(*n));
    proof {
        reveal_strlit("script");
        reveal_strlit("foreignObject");
        reveal_strlit("image");
        reveal_strlit("feImage");
        reveal_strlit("style");
    }
    if n.instruction || chain_exceeds(nodes, i) {
        return true;
    }
    if !n.element {
        return false;
    }
    let tag = n.tag.as_str();
    if str_eq(tag, "script") || str_eq(tag, "foreignObject") || str_eq(tag, "image") || str_eq(tag, "feImage") {
        return true;
    }
    let ghost nv = svg_node_view(*n);
    let mut k: usize = 0;
    while k < n.attributes.len()
        invariant
            nv == svg_node_view(*n),
            v == svg_views(Some(*nodes))->0,
            v[i as int] == nv,
            n.element,
            !forbidden_tag(nv.tag),
            k <= n.attributes@.len(),
            forall|j: int| 0 <= j < k ==> !unsafe_attribute(#[trigger] nv.attributes[j]),
        decreases n.attributes@.len() - k,
    {
        let a = &n.attributes[k];
        assert(nv.attributes[k as int] == (a.name@, opt_view(a.namespace), a.value@));
        let name = a.name.as_str();
        let nc = chars_of(name);
        let on = crate::text::starts_with_lit(&nc, 0, nc.len(), "on");
        proof {
            reveal_strlit("on");
            reveal_strlit("href");
            reveal_strlit("base");
            assert(nc@.subrange(0, nc@.len() as int) =~= nc@);
        }
        let base_xml = str_eq(name, "base") && match &a.namespace {
            Some(ns) => str_eq(ns.as_str(), "http://www.w3.org/XML/1998/namespace"),
            None => false,
        };
        if on || (str_eq(name, "href") && !local_fragment(a.value.as_str())) || base_xml || !safe_css_resources(a.value.as_str()) {
            assert(unsafe_attribute(v[i as int].attributes[k as int]));
            return true;
        }
        k += 1;
    }
    if str_eq(tag, "style") {
        let mut k: usize = 0;
        while k < n.texts.len()
            invariant
                nv == svg_node_view(*n),
                v == svg_views(Some(*nodes))->0,
                v[i as int] == nv,
                n.element,
                nv.tag == "style"@,
                k <= n.texts@.len(),
                forall|j: int| 0 <= j < k ==> !(#[trigger] nv.texts[j] matches Some(t) && !css_local(t)),
            decreases n.texts@.len() - k,
        {
            assert(nv.texts[k as int] == opt_view(n.texts@[k as int]));
            if let Some(t) = &n.texts[k] {
                if !safe_css_resources(t.as_str()) {
                    assert(v[i as int].texts[k as int] matches Some(x) && !css_local(x));
                    return true;
                }
            }
            k += 1;
        }
    }
    false
}

/// Whether an SVG file's text may be rendered: no document type, a parse
/// without DTD within `MAX_SVG_NODES` nodes, and no node that runs script,
/// embeds content, nests too deep or reaches outside the file.
pub fn svg_is_safe(text: &str) -> (r: bool)
    ensures
        r == svg_safe(text@),
{
    let chars = chars_of(text);
    let pat = chars_of("<!DOCTYPE");
    proof {
        reveal_strlit("<!DOCTYPE");
        assert(chars@.subrange(0, chars@.len() as int) =~= chars@);
    }
    if find_in(&chars, 0, chars.len(), &pat).is_some() {
        return false;
    }
    let nodes = match svg_nodes(text, false, MAX_SVG_NODES) {
        Some(nodes) => nodes,
        None => return false,
    };
    nodes_safe(&nodes)
}

/// Whether no node of a parsed SVG document is unsafe.
pub fn nodes_safe(nodes: &Vec<SvgNode>) -> (r: bool)
    ensures
        r == forall|i: int| 0 <= i < nodes@.len() ==> !#[trigger] unsafe_node(svg_views(Some(*nodes))->0, i),
{
    let ghost v = svg_views(Some(*nodes))->0;
    let mut i: usize = 0;
    while i < nodes.len()
        invariant
            v == svg_views(Some(*nodes))->0,
            i <= nodes@.len(),
            forall|j: int| 0 <= j < i ==> !#[trigger] unsafe_node(v, j),
        decreases nodes@.len() - i,
    {
        if node_is_unsafe(nodes, i) {
            return false;
        }
        i += 1;
    }
    true
}

/// Straight alpha from premultiplied: each color channel of every complete
/// pixel scaled back by its alpha, rounding to nearest and saturating; a
/// transparent pixel has no color. Trailing bytes of an incomplete pixel and
/// alpha channels are kept.
pub open spec fn unpremultiplied(v: Seq<u8>) -> Seq<u8> {
    Seq::new(v.len(), |i: int| {
        let alpha = v[i - i % 4 + 3];
        if i < v.len() - v.len() % 4 && i % 4 != 3 {
            if alpha == 0 {
                0u8
            } else if (v[i] * 255 + alpha / 2) / (alpha as int) > 255 {
                255u8
            } else {
                ((v[i] * 255 + alpha / 2) / (alpha as int)) as u8
            }
        } else {
            v[i]
        }
    })
}

#[verifier::spinoff_prover]
#[verifier::rlimit(40)]
pub fn unpremultiply(rgba: &mut Vec<u8>)
    ensures
        final(rgba)@ == unpremultiplied(old(rgba)@),
{
    let ghost v = rgba@;
    let n = rgba.len();
    let whole = n - n % 4;
    let mut i: usize = 0;
    while i < whole
        invariant
            n == v.len() == rgba@.len(),
            whole == n - n % 4,
            i <= whole,
            i % 4 == 0,
            forall|k: int| 0 <= k < i ==> rgba@[k] == #[trigger] unpremultiplied(v)[k],
            forall|k: int| i <= k < n ==> rgba@[k] == v[k],
        decreases whole - i,
    {
        let alpha = rgba[i + 3] as u32;
        let mut c: usize = 0;
        while c < 3
            invariant
                n == v.len() == rgba@.len(),
                whole == n - n % 4,
                i % 4 == 0,
                i + 4 <= whole,
                c <= 3,
                alpha == v[i + 3],
                forall|k: int| 0 <= k < i + c ==> rgba@[k] == #[trigger] unpremultiplied(v)[k],
                forall|k: int| i + c <= k < n ==> rgba@[k] == v[k],
            decreases 3 - c,
        {
            let value = rgba[i + c] as u32;
            let scaled: u32 = if alpha == 0 {
                0
            } else {
                let q = (value * 255 + alpha / 2) / alpha;
                if q > 255 {
                    255
                } else {
                    q
                }
            };
            rgba.set(i + c, scaled as u8);
            proof {
                let k = (i + c) as int;
                assert(k - k % 4 + 3 == i + 3);
            }
            c += 1;
        }
        proof {
            assert(unpremultiplied(v)[i + 3] == v[i + 3]);
        }
        i += 4;
    }
}

/// One `key=value` line of an INI text: its group, key and value.
pub type IniEntry = (Seq<char>, Seq<char>, Seq<char>);

/// The group in force after the lines `ls`, and their assignments in order.
/// Blank lines and `#` or `;` comments are skipped; `[name]` opens a group;
/// other lines without `=` are ignored. Keys and values are trimmed.
pub open spec fn ini_scan(ls: Seq<Seq<char>>) -> (Seq<char>, Seq<IniEntry>)
    decreases ls.len(),
{
    if ls.len() == 0 {
        (Seq::empty(), Seq::empty())
    } else {
        let (group, entries) = ini_scan(ls.drop_last());
        let line = trim(ls.last());
        if line.len() == 0 || line[0] == '#' || line[0] == ';' {
            (group, entries)
        } else if line.len() >= 2 && line[0] == '[' && line.last() == ']' {
            (line.subrange(1, line.len() - 1), entries)
        } else {
            match find(line, "="@) {
                Some(k) => (group, entries.push((group, trim(line.subrange(0, k)), trim(line.subrange(k + 1, line.len() as int))))),
                None => (group, entries),
            }
        }
    }
}

pub open spec fn ini_entries(text: Seq<char>) -> Seq<IniEntry> {
    ini_scan(crate::text::lines(text)).1
}

/// The value of the last assignment of `key` in `group`.
pub open spec fn ini_get(es: Seq<IniEntry>, group: Seq<char>, key: Seq<char>) -> Option<Seq<char>>
    decreases es.len(),
{
    if es.len() == 0 {
        None
    } else if es.last().0 == group && es.last().1 == key {
        Some(es.last().2)
    } else {
        ini_get(es.drop_last(), group, key)
    }
}

/// Some assignment falls in `group`.
pub open spec fn ini_has_group(es: Seq<IniEntry>, group: Seq<char>) -> bool {
    exists|i: int| 0 <= i < es.len() && (#[trigger] es[i]).0 == group
}

pub open spec fn entry_views(v: Seq<(String, String, String)>) -> Seq<IniEntry> {
    v.map_values(|e: (String, String, String)| (e.0@, e.1@, e.2@))
}

/// The assignments of an INI text, in order.
pub fn ini(text: &str) -> (r: Vec<(String, String, String)>)
    ensures
        entry_views(r@) == ini_entries(text@),
{
    let chars = chars_of(text);
    let ranges = crate::text::line_ranges(&chars);
    let ghost ls = crate::text::lines(chars@);
    let mut group = String::new();
    let mut out: Vec<(String, String, String)> = Vec::new();
    let eq = ['='];
    assert(eq@ =~= "="@) by {
        reveal_strlit("=");
    }
    let mut k: usize = 0;
    assert(ls.take(0) =~= Seq::<Seq<char>>::empty());
    assert(entry_views(out@) =~= Seq::<IniEntry>::empty());
    assert(group@ =~= Seq::<char>::empty());
    while k < ranges.len()
        invariant
            k <= ranges@.len(),
            chars@ == text@,
            ranges@.len() == ls.len(),
            ls == crate::text::lines(chars@),
            eq@ == "="@,
            forall|j: int| 0 <= j < ranges@.len() ==> {
                let (a, b) = #[trigger] ranges@[j];
                &&& a <= b <= chars@.len()
                &&& chars@.subrange(a as int, b as int) == ls[j]
            },
            ini_scan(ls.take(k as int)) == (group@, entry_views(out@)),
        decreases ranges@.len() - k,
    {
        let (a0, b0) = ranges[k];
        assert(ls.take(k + 1).drop_last() =~= ls.take(k as int));
        assert(ls.take(k + 1).last() == ls[k as int]);
        let (a, b) = trim_bounds(&chars, a0, b0);
        let ghost line = chars@.subrange(a as int, b as int);
        if a == b || chars[a] == '#' || chars[a] == ';' {
        } else if b - a >= 2 && chars[a] == '[' && chars[b - 1] == ']' {
            assert(line.subrange(1, line.len() - 1) =~= chars@.subrange(a + 1, b - 1));
            group = string_of(&chars, a + 1, b - 1);
        } else {
            proof {
                crate::text::lemma_find_shift(chars@.subrange(0, b as int), a as int, "="@, a as int);
                assert(chars@.subrange(0, b as int).subrange(a as int, b as int) =~= line);
                lemma_find_from_bounds(line, "="@, 0);
            }
            match find_in(&chars, a, b, &eq) {
                Some(m) => {
                    let (ka, kb) = trim_bounds(&chars, a, m);
                    let (va, vb) = trim_bounds(&chars, m + 1, b);
                    assert(line.subrange(0, m - a) =~= chars@.subrange(a as int, m as int));
                    assert(line.subrange(m - a + 1, line.len() as int) =~= chars@.subrange(m + 1, b as int));
                    let entry = (group.clone(), string_of(&chars, ka, kb), string_of(&chars, va, vb));
                    let ghost before = out@;
                    out.push(entry);
                    assert(entry_views(out@) =~= entry_views(before).push((entry.0@, entry.1@, entry.2@)));
                },
                None => {},
            }
        }
        k += 1;
    }
    assert(ls.take(k as int) =~= ls);
    out
}

/// The value of the last assignment of `key` in `group`.
pub fn ini_value(entries: &Vec<(String, String, String)>, group: &str, key: &str) -> (r: Option<String>)
    ensures
        match ini_get(entry_views(entries@), group@, key@) {
            None => r is None,
            Some(v) => r matches Some(s) && s@ == v,
        },
{
    let ghost es = entry_views(entries@);
    let mut i = entries.len();
    assert(es.take(i as int) =~= es);
    while i > 0
        invariant
            i <= entries@.len(),
            es == entry_views(entries@),
            ini_get(es, group@, key@) == ini_get(es.take(i as int), group@, key@),
        decreases i,
    {
        let e = &entries[i - 1];
        assert(es.take(i as int).drop_last() =~= es.take(i - 1));
        assert(es.take(i as int).last() == (e.0@, e.1@, e.2@));
        if str_eq(e.0.as_str(), group) && str_eq(e.1.as_str(), key) {
            return Some(e.2.clone());
        }
        i -= 1;
    }
    None
}

/// Whether some assignment falls in `group`.
pub fn ini_group(entries: &Vec<(String, String, String)>, group: &str) -> (r: bool)
    ensures
        r == ini_has_group(entry_views(entries@), group@),
{
    let ghost es = entry_views(entries@);
    let mut i: usize = 0;
    while i < entries.len()
        invariant
            i <= entries@.len(),
            es == entry_views(entries@),
            forall|j: int| 0 <= j < i ==> (#[trigger] es[j]).0 != group@,
        decreases entries@.len() - i,
    {
        assert(es[i as int] == (entries@[i as int].0@, entries@[i as int].1@, entries@[i as int].2@));
        if str_eq(entries[i].0.as_str(), group) {
            return true;
        }
        i += 1;
    }
    false
}

/// The decimal value of the digits `d`.
pub open spec fn digits_value(d: Seq<char>) -> int
    decreases d.len(),
{
    if d.len() == 0 {
        0
    } else {
        digits_value(d.drop_last()) * 10 + ((d.last() as u32) - ('0' as u32))
    }
}

pub open spec fn all_digits(d: Seq<char>) -> bool {
    forall|i: int| 0 <= i < d.len() ==> '0' <= #[trigger] d[i] && d[i] <= '9'
}

/// The `u32` that `v` spells as `str::parse` reads it: an optional `+` and
/// one or more ASCII digits, within range.
pub open spec fn parsed_u32(v: Seq<char>) -> Option<u32> {
    let d = if v.len() > 0 && v[0] == '+' { v.drop_first() } else { v };
    if d.len() > 0 && all_digits(d) && digits_value(d) <= u32::MAX {
        Some(digits_value(d) as u32)
    } else {
        None
    }
}

pub(crate) proof fn lemma_digits_prefix(d: Seq<char>, j: int)
    requires
        all_digits(d),
        0 <= j <= d.len(),
    ensures
        0 <= digits_value(d.take(j)) <= digits_value(d),
    decreases d.len(),
{
    if d.len() > 0 {
        if j == d.len() {
            assert(d.take(j) =~= d);
            lemma_digits_prefix(d.drop_last(), j - 1);
        } else {
            assert(d.drop_last().take(j) =~= d.take(j));
            lemma_digits_prefix(d.drop_last(), j);
        }
    }
}

pub fn parse_u32(v: &str) -> (r: Option<u32>)
    ensures
        r == parsed_u32(v@),
{
    let chars = chars_of(v);
    let start: usize = if chars.len() > 0 && chars[0] == '+' { 1 } else { 0 };
    let ghost d = if v@.len() > 0 && v@[0] == '+' { v@.drop_first() } else { v@ };
    assert(d =~= chars@.subrange(start as int, chars@.len() as int));
    if start == chars.len() {
        return None;
    }
    let mut value: u64 = 0;
    let mut i = start;
    while i < chars.len()
        invariant
            start <= i <= chars@.len(),
            d == chars@.subrange(start as int, chars@.len() as int),
            d == (if v@.len() > 0 && v@[0] == '+' { v@.drop_first() } else { v@ }),
            all_digits(d.take(i - start)),
            value == digits_value(d.take(i - start)),
            value <= u32::MAX,
            d.len() > 0,
        decreases chars@.len() - i,
    {
        let c = chars[i];
        if c < '0' || c > '9' {
            assert(!all_digits(d)) by {
                assert(d[i - start] == c);
            }
            return None;
        }
        assert(d.take(i - start + 1).drop_last() =~= d.take(i - start));
        assert(d.take(i - start + 1).last() == c);
        let digit = (c as u32 - '0' as u32) as u64;
        value = value * 10 + digit;
        if value > 0xffff_ffff {
            proof {
                if all_digits(d) {
                    lemma_digits_prefix(d, i - start + 1);
                }
            }
            return None;
        }
        i += 1;
        assert(all_digits(d.take(i - start))) by {
            assert forall|k: int| 0 <= k < i - start implies '0' <= #[trigger] d.take(i - start)[k] && d.take(i - start)[k] <= '9' by {
                if k < i - start - 1 {
                    assert(d.take(i - start)[k] == d.take(i - start - 1)[k]);
                }
            }
        }
    }
    assert(d.take(i - start) =~= d);
    Some(value as u32)
}

/// A relative path of plain components: no root, no leading `.` and no `..`.
pub open spec fn normal_relative(n: Seq<char>) -> bool {
    let pieces = split(n, seq!['/']);
    &&& !(n.len() > 0 && n[0] == '/')
    &&& pieces[0] != "."@
    &&& forall|i: int| 0 <= i < pieces.len() ==> #[trigger] pieces[i] != ".."@
}

fn relative_ok(name: &str) -> (r: bool)
    ensures
        r == normal_relative(name@),
{
    let chars = chars_of(name);
    let n = chars.len();
    if n > 0 && chars[0] == '/' {
        return false;
    }
    assert(chars@.subrange(0, n as int) =~= chars@);
    let slash = ['/'];
    assert(slash@ =~= seq!['/']);
    let ranges = split_ranges(&chars, 0, n, &slash);
    proof {
        crate::text::lemma_split_nonempty(chars@, seq!['/']);
    }
    let (a0, b0) = ranges[0];
    if eq_lit(&chars, a0, b0, ".") {
        return false;
    }
    let mut k: usize = 0;
    while k < ranges.len()
        invariant
            k <= ranges@.len(),
            chars@ == name@,
            ranges@.len() == split(chars@, seq!['/']).len(),
            forall|j: int| 0 <= j < ranges@.len() ==> {
                let (a, b) = #[trigger] ranges@[j];
                &&& a <= b <= n
                &&& chars@.subrange(a as int, b as int) == split(chars@, seq!['/'])[j]
            },
            n == chars@.len(),
            forall|j: int| 0 <= j < k ==> #[trigger] split(chars@, seq!['/'])[j] != ".."@,
        decreases ranges@.len() - k,
    {
        let (a, b) = ranges[k];
        if eq_lit(&chars, a, b, "..") {
            return false;
        }
        k += 1;
    }
    true
}

/// `number` of the directory group `g`: the key's value parsed, or `default`
/// when the key is absent.
pub open spec fn number_of(es: Seq<IniEntry>, g: Seq<char>, key: Seq<char>, default: u32) -> Option<u32> {
    match ini_get(es, g, key) {
        None => Some(default),
        Some(v) => parsed_u32(v),
    }
}

pub open spec fn sat_sub(a: u32, b: u32) -> u32 {
    if a >= b { (a - b) as u32 } else { 0 }
}

pub open spec fn sat_add(a: u32, b: u32) -> u32 {
    if a + b > u32::MAX { u32::MAX } else { (a + b) as u32 }
}

/// Where the theme directory `name` ranks for a 64-pixel icon: whether it
/// misses an exact unscaled match, and how far its sizes are from 64. `None`
/// refuses the whole theme; `Some(None)` skips the directory.
pub open spec fn directory_rank(es: Seq<IniEntry>, name: Seq<char>) -> Option<Option<(bool, u32)>> {
    match number_of(es, name, "Size"@, 0) {
        None => Some(None),
        Some(size) => if !(1 <= size <= 4096) {
            Some(None)
        } else {
            match number_of(es, name, "Scale"@, 1) {
                None => Some(None),
                Some(scale) => if !(1 <= scale <= 16) {
                    Some(None)
                } else {
                    let kind = match ini_get(es, name, "Type"@) {
                        Some(t) => t,
                        None => "Threshold"@,
                    };
                    let bounds: Option<Option<(u32, u32)>> = if kind == "Fixed"@ {
                        Some(Some((size, size)))
                    } else if kind == "Scalable"@ {
                        match (number_of(es, name, "MinSize"@, size), number_of(es, name, "MaxSize"@, size)) {
                            (Some(lo), Some(hi)) => Some(Some((lo, hi))),
                            _ => None,
                        }
                    } else if kind == "Threshold"@ {
                        match number_of(es, name, "Threshold"@, 2) {
                            Some(t) => Some(Some((sat_sub(size, t), sat_add(size, t)))),
                            None => None,
                        }
                    } else {
                        Some(None)
                    };
                    match bounds {
                        None => None,
                        Some(None) => Some(None),
                        Some(Some((lo, hi))) => if lo > hi || hi > 8192 {
                            Some(None)
                        } else {
                            let lo = lo * scale;
                            let hi = hi * scale;
                            let distance = if ICON_SIZE < lo {
                                lo - ICON_SIZE
                            } else if hi >= ICON_SIZE {
                                0
                            } else {
                                ICON_SIZE - hi
                            };
                            Some(Some((!(scale == 1 && distance == 0), distance as u32)))
                        },
                    }
                },
            }
        },
    }
}

fn number(entries: &Vec<(String, String, String)>, group: &str, key: &str, default: u32) -> (r: Option<u32>)
    ensures
        r == number_of(entry_views(entries@), group@, key@, default),
{
    match ini_value(entries, group, key) {
        None => Some(default),
        Some(v) => parse_u32(v.as_str()),
    }
}

fn rank(entries: &Vec<(String, String, String)>, name: &str) -> (r: Option<Option<(bool, u32)>>)
    ensures
        r == directory_rank(entry_views(entries@), name@),
{
    proof {
        reveal_strlit("Fixed");
        reveal_strlit("Scalable");
        reveal_strlit("Threshold");
    }
    let size = match number(entries, name, "Size", 0) {
        None => return Some(None),
        Some(v) => v,
    };
    if !(1 <= size && size <= 4096) {
        return Some(None);
    }
    let scale = match number(entries, name, "Scale", 1) {
        None => return Some(None),
        Some(v) => v,
    };
    if !(1 <= scale && scale <= 16) {
        return Some(None);
    }
    let kind = match ini_value(entries, name, "Type") {
        Some(t) => t,
        None => "Threshold".to_owned(),
    };
    let (lo, hi) = if str_eq(kind.as_str(), "Fixed") {
        (size, size)
    } else if str_eq(kind.as_str(), "Scalable") {
        let lo = match number(entries, name, "MinSize", size) {
            None => return None,
            Some(v) => v,
        };
        let hi = match number(entries, name, "MaxSize", size) {
            None => return None,
            Some(v) => v,
        };
        (lo, hi)
    } else if str_eq(kind.as_str(), "Threshold") {
        let t = match number(entries, name, "Threshold", 2) {
            None => return None,
            Some(v) => v,
        };
        (size.saturating_sub(t), size.saturating_add(t))
    } else {
        return Some(None);
    };
    if lo > hi || hi > 8192 {
        return Some(None);
    }
    assert(lo * scale <= 8192 * 16 && hi * scale <= 8192 * 16) by (nonlinear_arith)
        requires
            lo <= 8192,
            hi <= 8192,
            scale <= 16,
    ;
    let lo = lo * scale;
    let hi = hi * scale;
    let distance = if ICON_SIZE < lo {
        lo - ICON_SIZE
    } else {
        ICON_SIZE.saturating_sub(hi)
    };
    Some(Some((!(scale == 1 && distance == 0), distance)))
}

/// The trimmed items of a comma-separated list, none for an absent value.
pub open spec fn list_items(v: Option<Seq<char>>) -> Seq<Seq<char>> {
    match v {
        None => Seq::empty(),
        Some(x) => split(x, seq![',']).map_values(|p: Seq<char>| trim(p)),
    }
}

fn items_of(v: Option<String>) -> (r: Vec<String>)
    ensures
        crate::text::texts(r@) == list_items(match v { Some(s) => Some(s@), None => None }),
{
    let mut out: Vec<String> = Vec::new();
    let text = match v {
        None => {
            assert(crate::text::texts(out@) =~= Seq::<Seq<char>>::empty());
            return out;
        },
        Some(t) => t,
    };
    let chars = chars_of(text.as_str());
    let n = chars.len();
    assert(chars@.subrange(0, n as int) =~= chars@);
    let comma = [','];
    assert(comma@ =~= seq![',']);
    let ranges = split_ranges(&chars, 0, n, &comma);
    let ghost pieces = split(chars@, seq![',']);
    let mut k: usize = 0;
    while k < ranges.len()
        invariant
            k <= ranges@.len(),
            ranges@.len() == pieces.len(),
            n == chars@.len(),
            forall|j: int| 0 <= j < ranges@.len() ==> {
                let (a, b) = #[trigger] ranges@[j];
                &&& a <= b <= n
                &&& chars@.subrange(a as int, b as int) == pieces[j]
            },
            crate::text::texts(out@) == pieces.take(k as int).map_values(|p: Seq<char>| trim(p)),
        decreases ranges@.len() - k,
    {
        let (a, b) = ranges[k];
        assert(chars@.subrange(a as int, b as int) == pieces[k as int]);
        let (x, y) = trim_bounds(&chars, a, b);
        let ghost before = out@;
        out.push(string_of(&chars, x, y));
        assert(pieces.take(k + 1) =~= pieces.take(k as int).push(pieces[k as int]));
        assert(crate::text::texts(out@) =~= crate::text::texts(before).push(trim(pieces[k as int])));
        assert(crate::text::texts(out@) =~= pieces.take(k + 1).map_values(|p: Seq<char>| trim(p)));
        k += 1;
    }
    assert(pieces.take(k as int) =~= pieces);
    out
}

/// A theme directory with its rank: whether it misses an exact match, its
/// distance from the icon size, and its name.
pub type Ranked = (bool, u32, Seq<char>);

pub open spec fn rank_key(e: Ranked) -> int {
    (if e.0 { 0x1_0000_0000int } else { 0int }) + e.1
}

/// The directories of `s` with rank `k`, in order.
pub open spec fn rank_class(s: Seq<Ranked>, k: int) -> Seq<Ranked>
    decreases s.len(),
{
    if s.len() == 0 {
        Seq::empty()
    } else {
        let before = rank_class(s.drop_last(), k);
        if rank_key(s.last()) == k {
            before.push(s.last())
        } else {
            before
        }
    }
}

/// `out` holds the directories of `s` by rank, best first, directories of
/// equal rank in their order in `s`.
pub open spec fn stably_ranked(out: Seq<Ranked>, s: Seq<Ranked>) -> bool {
    &&& forall|i: int, j: int| 0 <= i < j < out.len() ==> rank_key(#[trigger] out[i]) <= rank_key(#[trigger] out[j])
    &&& forall|k: int| #[trigger] rank_class(out, k) == rank_class(s, k)
}

pub(crate) proof fn lemma_class_append(a: Seq<Ranked>, b: Seq<Ranked>, k: int)
    ensures
        rank_class(a + b, k) == rank_class(a, k) + rank_class(b, k),
    decreases b.len(),
{
    if b.len() == 0 {
        assert(a + b =~= a);
        assert(rank_class(a, k) + rank_class(b, k) =~= rank_class(a, k));
    } else {
        assert((a + b).drop_last() =~= a + b.drop_last());
        lemma_class_append(a, b.drop_last(), k);
        if rank_key(b.last()) == k {
            assert(rank_class(a, k) + rank_class(b, k) =~= (rank_class(a, k) + rank_class(b.drop_last(), k)).push(b.last()));
        }
    }
}

pub(crate) proof fn lemma_class_none(s: Seq<Ranked>, k: int)
    requires
        forall|i: int| 0 <= i < s.len() ==> rank_key(#[trigger] s[i]) != k,
    ensures
        rank_class(s, k) == Seq::<Ranked>::empty(),
    decreases s.len(),
{
    if s.len() > 0 {
        lemma_class_none(s.drop_last(), k);
    }
}

/// Inserting `x` after every directory ranked at most as well keeps `s` ranked.
pub(crate) proof fn lemma_rank_insert(s: Seq<Ranked>, p: int, x: Ranked, k: int)
    requires
        0 <= p <= s.len(),
        forall|i: int| 0 <= i < p ==> rank_key(#[trigger] s[i]) <= rank_key(x),
        forall|i: int| p <= i < s.len() ==> rank_key(#[trigger] s[i]) > rank_key(x),
    ensures
        rank_class(s.insert(p, x), k) == (if rank_key(x) == k {
            rank_class(s, k).push(x)
        } else {
            rank_class(s, k)
        }),
{
    let head = s.take(p);
    let tail = s.skip(p);
    assert(s =~= head + tail);
    assert(s.insert(p, x) =~= head.push(x) + tail);
    lemma_class_append(head.push(x), tail, k);
    lemma_class_append(head, tail, k);
    assert(head.push(x).drop_last() =~= head);
    if rank_key(x) == k {
        lemma_class_none(tail, k);
        assert(rank_class(head, k) + rank_class(tail, k) =~= rank_class(head, k));
        assert(rank_class(head.push(x), k) + rank_class(tail, k) =~= rank_class(head, k).push(x));
    }
}

/// The ranked directories of the theme whose directory names are `names`,
/// in their listed order; `None` when the theme is refused.
pub open spec fn collect_dirs(es: Seq<IniEntry>, names: Seq<Seq<char>>) -> Option<Seq<Ranked>>
    decreases names.len(),
{
    if names.len() == 0 {
        Some(Seq::empty())
    } else {
        match collect_dirs(es, names.drop_last()) {
            None => None,
            Some(acc) => {
                let name = names.last();
                if acc.len() >= MAX_DIRECTORIES {
                    None
                } else if name.len() == 0 || name.contains('\\') || !normal_relative(name) || !ini_has_group(es, name) {
                    Some(acc)
                } else {
                    match directory_rank(es, name) {
                        None => None,
                        Some(None) => Some(acc),
                        Some(Some((inexact, distance))) => Some(acc.push((inexact, distance, name))),
                    }
                }
            },
        }
    }
}

/// The safe theme names among `items`, in order.
pub open spec fn safe_themes(items: Seq<Seq<char>>) -> Seq<Seq<char>>
    decreases items.len(),
{
    if items.len() == 0 {
        Seq::empty()
    } else {
        let before = safe_themes(items.drop_last());
        if is_safe_theme(items.last()) {
            before.push(items.last())
        } else {
            before
        }
    }
}

/// An icon theme's `index.theme`: its directories in the listed order with
/// their ranks, and the themes it inherits from (at most `MAX_THEMES`).
pub open spec fn theme_of(text: Seq<char>) -> Option<(Seq<Ranked>, Seq<Seq<char>>)> {
    let es = ini_entries(text);
    let header = "Icon Theme"@;
    if !ini_has_group(es, header) {
        None
    } else {
        let names = list_items(ini_get(es, header, "Directories"@)) + list_items(ini_get(es, header, "ScaledDirectories"@));
        match collect_dirs(es, names) {
            None => None,
            Some(dirs) => {
                let inherits = safe_themes(list_items(ini_get(es, header, "Inherits"@)));
                Some((dirs, if inherits.len() > MAX_THEMES { inherits.take(MAX_THEMES as int) } else { inherits }))
            },
        }
    }
}

/// A parsed icon theme: directories to search, best size match first, and
/// the themes it inherits from.
pub struct Theme {
    pub directories: Vec<String>,
    pub inherits: Vec<String>,
}

pub open spec fn ranked_views(v: Seq<(bool, u32, String)>) -> Seq<Ranked> {
    v.map_values(|e: (bool, u32, String)| (e.0, e.1, e.2@))
}

pub open spec fn ranked_names(v: Seq<Ranked>) -> Seq<Seq<char>> {
    v.map_values(|e: Ranked| e.2)
}

fn ranks_after(a: (bool, u32), b: (bool, u32)) -> (r: bool)
    ensures
        r == (rank_key((a.0, a.1, Seq::empty())) > rank_key((b.0, b.1, Seq::empty()))),
{
    (a.0 && !b.0) || (a.0 == b.0 && a.1 > b.1)
}

pub(crate) proof fn lemma_collect_refused(es: Seq<IniEntry>, names: Seq<Seq<char>>, j: int)
    requires
        0 <= j <= names.len(),
        collect_dirs(es, names.take(j)) is None,
    ensures
        collect_dirs(es, names) is None,
    decreases names.len() - j,
{
    if j < names.len() {
        assert(names.take(j + 1).drop_last() =~= names.take(j));
        lemma_collect_refused(es, names, j + 1);
    } else {
        assert(names.take(j) =~= names);
    }
}

fn directory_listed(entries: &Vec<(String, String, String)>, name: &str) -> (r: bool)
    ensures
        r == !(name@.len() == 0 || name@.contains('\\') || !normal_relative(name@) || !ini_has_group(entry_views(entries@), name@)),
{
    let chars = chars_of(name);
    let n = chars.len();
    if n == 0 {
        return false;
    }
    assert(chars@.subrange(0, n as int) =~= chars@);
    let backslash = ['\\'];
    let found = contains_any(&chars, 0, n, &backslash);
    proof {
        if name@.contains('\\') {
            let k = choose|k: int| 0 <= k < name@.len() && name@[k] == '\\';
            assert(backslash@[0] == chars@[k]);
        }
        if found {
            let k = choose|k: int| 0 <= k < n && backslash@.contains(#[trigger] chars@[k]);
            let m = choose|m: int| 0 <= m < backslash@.len() && backslash@[m] == chars@[k];
            assert(name@[k] == '\\');
        }
    }
    !found && relative_ok(name) && ini_group(entries, name)
}

/// Inserts `x` after every directory ranked at most as well.
fn insert_ranked(out: &mut Vec<(bool, u32, String)>, x: (bool, u32, String))
    requires
        forall|i: int, j: int| 0 <= i < j < old(out)@.len() ==> rank_key(#[trigger] ranked_views(old(out)@)[i]) <= rank_key(#[trigger] ranked_views(old(out)@)[j]),
    ensures
        final(out)@.len() == old(out)@.len() + 1,
        forall|i: int, j: int| 0 <= i < j < final(out)@.len() ==> rank_key(#[trigger] ranked_views(final(out)@)[i]) <= rank_key(#[trigger] ranked_views(final(out)@)[j]),
        forall|k: int| #[trigger] rank_class(ranked_views(final(out)@), k) == (if rank_key((x.0, x.1, x.2@)) == k {
            rank_class(ranked_views(old(out)@), k).push((x.0, x.1, x.2@))
        } else {
            rank_class(ranked_views(old(out)@), k)
        }),
{
    let ghost before = ranked_views(out@);
    let ghost y: Ranked = (x.0, x.1, x.2@);
    let mut p: usize = 0;
    while p < out.len() && !ranks_after((out[p].0, out[p].1), (x.0, x.1))
        invariant
            p <= out@.len(),
            before == ranked_views(out@),
            y == (x.0, x.1, x.2@),
            forall|j: int| 0 <= j < p ==> rank_key(#[trigger] before[j]) <= rank_key(y),
        decreases out@.len() - p,
    {
        assert(before[p as int] == (out@[p as int].0, out@[p as int].1, out@[p as int].2@));
        p += 1;
    }
    proof {
        assert forall|j: int| p <= j < before.len() implies rank_key(#[trigger] before[j]) > rank_key(y) by {
            assert(before[p as int] == (out@[p as int].0, out@[p as int].1, out@[p as int].2@));
            if j > p {
                assert(rank_key(before[p as int]) <= rank_key(before[j]));
            }
        }
        assert forall|k: int| #[trigger] rank_class(before.insert(p as int, y), k) == (if rank_key(y) == k {
            rank_class(before, k).push(y)
        } else {
            rank_class(before, k)
        }) by {
            lemma_rank_insert(before, p as int, y, k);
        }
    }
    out.insert(p, x);
    let ghost v = ranked_views(out@);
    assert(v =~= before.insert(p as int, y));
    assert forall|a: int, b: int| 0 <= a < b < v.len() implies rank_key(#[trigger] v[a]) <= rank_key(#[trigger] v[b]) by {
        if a < p && b < p {
        } else if a < p && b == p {
        } else if a < p {
            assert(v[b] == before[b - 1]);
        } else if a == p {
            assert(v[b] == before[b - 1]);
        } else {
            assert(v[a] == before[a - 1] && v[b] == before[b - 1]);
        }
    }
}

/// Parses an `index.theme`. Directories are ordered for a 64-pixel icon: at
/// scale 1, exact size matches first, then by distance from the size, listed
/// order breaking ties, as the freedesktop lookup algorithm specifies.
pub fn parse_theme(text: &str) -> (r: Option<Theme>)
    ensures
        match theme_of(text@) {
            None => r is None,
            Some((dirs, inherits)) => r matches Some(t) && crate::text::texts(t.inherits@) == inherits
                && exists|sorted: Seq<Ranked>| stably_ranked(sorted, dirs) && #[trigger] ranked_names(sorted) == crate::text::texts(t.directories@),
        },
{
    let entries = ini(text);
    let ghost es = entry_views(entries@);
    if !ini_group(&entries, "Icon Theme") {
        return None;
    }
    let mut names = items_of(ini_value(&entries, "Icon Theme", "Directories"));
    let mut scaled = items_of(ini_value(&entries, "Icon Theme", "ScaledDirectories"));
    let ghost first = crate::text::texts(names@);
    let ghost second = crate::text::texts(scaled@);
    names.append(&mut scaled);
    let ghost all = crate::text::texts(names@);
    assert(all =~= first + second);
    let mut out: Vec<(bool, u32, String)> = Vec::new();
    let ghost mut acc: Seq<Ranked> = Seq::empty();
    let mut i: usize = 0;
    assert(all.take(0) =~= Seq::<Seq<char>>::empty());
    while i < names.len()
        invariant
            i <= names@.len(),
            all == crate::text::texts(names@),
            es == entry_views(entries@),
            es == ini_entries(text@),
            ini_has_group(es, "Icon Theme"@),
            all == list_items(ini_get(es, "Icon Theme"@, "Directories"@)) + list_items(ini_get(es, "Icon Theme"@, "ScaledDirectories"@)),
            collect_dirs(es, all.take(i as int)) == Some(acc),
            out@.len() == acc.len(),
            stably_ranked(ranked_views(out@), acc),
        decreases names@.len() - i,
    {
        let name = &names[i];
        assert(all.take(i + 1).drop_last() =~= all.take(i as int));
        assert(all.take(i + 1).last() == name@);
        if out.len() >= MAX_DIRECTORIES {
            proof {
                lemma_collect_refused(es, all, i + 1);
            }
            return None;
        }
        if directory_listed(&entries, name.as_str()) {
            match rank(&entries, name.as_str()) {
                None => {
                    proof {
                        lemma_collect_refused(es, all, i + 1);
                    }
                    return None;
                },
                Some(None) => {},
                Some(Some((inexact, distance))) => {
                    let ghost x: Ranked = (inexact, distance, name@);
                    insert_ranked(&mut out, (inexact, distance, name.clone()));
                    proof {
                        assert forall|k: int| #[trigger] rank_class(ranked_views(out@), k) == rank_class(acc.push(x), k) by {
                            assert(acc.push(x).drop_last() =~= acc);
                        }
                        acc = acc.push(x);
                    }
                },
            }
        }
        i += 1;
    }
    assert(all.take(i as int) =~= all);
    let ghost dirs = acc;
    let mut directories: Vec<String> = Vec::new();
    let mut j: usize = 0;
    while j < out.len()
        invariant
            j <= out@.len(),
            crate::text::texts(directories@) == ranked_names(ranked_views(out@)).take(j as int),
        decreases out@.len() - j,
    {
        assert(ranked_names(ranked_views(out@))[j as int] == out@[j as int].2@);
        let ghost before = directories@;
        directories.push(out[j].2.clone());
        assert(crate::text::texts(directories@) =~= crate::text::texts(before).push(out@[j as int].2@));
        assert(ranked_names(ranked_views(out@)).take(j + 1) =~= ranked_names(ranked_views(out@)).take(j as int).push(out@[j as int].2@));
        j += 1;
    }
    assert(ranked_names(ranked_views(out@)).take(j as int) =~= ranked_names(ranked_views(out@)));
    let items = items_of(ini_value(&entries, "Icon Theme", "Inherits"));
    let ghost iv = crate::text::texts(items@);
    let mut inherits: Vec<String> = Vec::new();
    let mut k: usize = 0;
    assert(iv.take(0) =~= Seq::<Seq<char>>::empty());
    while k < items.len()
        invariant
            k <= items@.len(),
            iv == crate::text::texts(items@),
            crate::text::texts(inherits@) == safe_themes(iv.take(k as int)),
        decreases items@.len() - k,
    {
        assert(iv.take(k + 1).drop_last() =~= iv.take(k as int));
        assert(iv.take(k + 1).last() == items@[k as int]@);
        if safe_theme(items[k].as_str()) {
            let ghost before = inherits@;
            inherits.push(items[k].clone());
            assert(crate::text::texts(inherits@) =~= crate::text::texts(before).push(items@[k as int]@));
        }
        k += 1;
    }
    assert(iv.take(k as int) =~= iv);
    if inherits.len() > MAX_THEMES {
        inherits.truncate(MAX_THEMES);
        assert(crate::text::texts(inherits@) =~= safe_themes(iv).take(MAX_THEMES as int));
    }
    assert(ranked_names(ranked_views(out@)) == crate::text::texts(directories@));
    Some(Theme { directories, inherits })
}

/// `b` below the directory `a`, as `Path::join` gives it for a relative `b`.
pub open spec fn joined(a: Seq<char>, b: Seq<char>) -> Seq<char> {
    if a.len() == 0 || a.last() == '/' {
        a + b
    } else {
        a + seq!['/'] + b
    }
}

pub fn join(a: &str, b: &str) -> (r: String)
    ensures
        r@ == joined(a@, b@),
{
    let x = chars_of(a);
    let mut out = a.to_owned();
    if !(x.len() == 0 || x[x.len() - 1] == '/') {
        out.push('/');
    }
    let y = chars_of(b);
    let mut i: usize = 0;
    while i < y.len()
        invariant
            i <= y@.len(),
            y@ == b@,
            out@ == (if a@.len() == 0 || a@.last() == '/' { a@ } else { a@ + seq!['/'] }) + y@.take(i as int),
        decreases y@.len() - i,
    {
        out.push(y[i]);
        i += 1;
        assert(out@ =~= (if a@.len() == 0 || a@.last() == '/' { a@ } else { a@ + seq!['/'] }) + y@.take(i as int));
    }
    assert(y@.take(i as int) =~= y@);
    out
}

/// The file `name` in the directory `base` or in a directory below it.
pub open spec fn found_under(p: Seq<char>, base: Seq<char>, name: Seq<char>) -> bool {
    exists|mid: Seq<char>| (mid.len() == 0 || mid.last() == '/') && #[trigger] joined(base, mid + name) == p
}

/// The icon value of a desktop entry that may be looked up: not empty, at
/// most 4096 bytes, no control characters.
pub open spec fn declared_ok(d: Seq<char>) -> bool {
    d.len() > 0 && byte_len(d) <= 4096 && no_controls(d)
}

/// The file names an icon value may have: itself when it names a PNG or SVG
/// file, otherwise itself with either extension.
pub open spec fn icon_names(d: Seq<char>) -> Seq<Seq<char>> {
    if crate::taskbar::has_suffix(d, ".png"@) || crate::taskbar::has_suffix(d, ".svg"@) {
        seq![d]
    } else {
        seq![d + ".png"@, d + ".svg"@]
    }
}

/// Icon lookups of one worker: the theme, its search roots and fallback
/// directories, and the themes loaded so far.
pub struct IconResolver {
    theme: String,
    roots: Vec<String>,
    fallback_dirs: Vec<String>,
    themes: Vec<(String, Option<Theme>)>,
}

impl IconResolver {
    /// The theme searched first.
    pub closed spec fn theme_name(&self) -> Seq<char> {
        self.theme@
    }

    /// Icon theme roots, in priority order.
    pub closed spec fn search_roots(&self) -> Seq<Seq<char>> {
        crate::text::texts(self.roots@)
    }

    /// Directories searched for bare icon files after every theme.
    pub closed spec fn fallbacks(&self) -> Seq<Seq<char>> {
        crate::text::texts(self.fallback_dirs@)
    }

    /// The themes loaded so far, in loading order, each with what its index
    /// gave.
    pub closed spec fn cache(&self) -> Seq<(Seq<char>, Option<ThemeView>)> {
        self.themes@.map_values(|e: (String, Option<Theme>)| (e.0@, opt_theme_view(e.1)))
    }

    /// Explicit, deterministic search roots. Root order breaks equal-size
    /// ties; theme directory order precedes root order. An unsafe theme name
    /// falls back to `hicolor`; relative and repeated roots are dropped.
    pub fn new(theme: &str, roots: Vec<String>, fallback_dirs: Vec<String>) -> (r: Self)
        ensures
            r.theme_name() == (if is_safe_theme(theme@) { theme@ } else { "hicolor"@ }),
            r.search_roots() == unique_paths(crate::text::texts(roots@)),
            r.fallbacks() == unique_paths(crate::text::texts(fallback_dirs@)),
    {
        IconResolver {
            theme: if safe_theme(theme) { theme.to_owned() } else { "hicolor".to_owned() },
            roots: unique_absolute(roots),
            fallback_dirs: unique_absolute(fallback_dirs),
            themes: Vec::new(),
        }
    }
}

pub(crate) proof fn lemma_found_nested(root: Seq<char>, t: Seq<char>, d: Seq<char>, f: Seq<char>)
    ensures
        found_under(joined(joined(joined(root, t), d), f), root, f),
{
    let a = joined(root, t);
    let b = joined(a, d);
    let c = joined(b, f);
    let s1: Seq<char> = if root.len() == 0 || root.last() == '/' { Seq::empty() } else { seq!['/'] };
    let s2: Seq<char> = if a.len() == 0 || a.last() == '/' { Seq::empty() } else { seq!['/'] };
    let s3: Seq<char> = if b.len() == 0 || b.last() == '/' { Seq::empty() } else { seq!['/'] };
    let mid = t + s2 + d + s3;
    assert(a =~= root + s1 + t);
    assert(b =~= root + s1 + (t + s2 + d));
    assert(c =~= root + s1 + (mid + f));
    assert(joined(root, mid + f) =~= root + s1 + (mid + f));
    if mid.len() > 0 && s3.len() == 0 {
        assert(b.last() == '/');
        assert(mid.last() == b.last());
    }
    if mid.len() > 0 && s3.len() > 0 {
        assert(mid.last() == '/');
    }
    assert((mid.len() == 0 || mid.last() == '/') && joined(root, mid + f) == c);
}

pub(crate) proof fn lemma_found_direct(base: Seq<char>, f: Seq<char>)
    ensures
        found_under(joined(base, f), base, f),
{
    let mid = Seq::<char>::empty();
    assert(mid + f =~= f);
    assert(joined(base, mid + f) == joined(base, f));
}

/// `present` answered that the file `p` is there.
pub open spec fn probed<E: Fn(&str) -> bool>(present: E, p: Seq<char>) -> bool {
    exists|x: &str| x@ == p && #[trigger] call_ensures(present, (x,), true)
}

/// Asks `present` about `path` while lookups remain in the budget.
fn probe<E: Fn(&str) -> bool>(path: &str, remaining: &mut usize, present: &E) -> (r: bool)
    requires
        forall|x: &str| call_requires(*present, (x,)),
    ensures
        *old(remaining) == 0 ==> !r && *final(remaining) == 0,
        *old(remaining) > 0 ==> *final(remaining) == *old(remaining) - 1,
        r ==> probed(*present, path@),
        *old(remaining) > 0 && !r ==> refuted(*present, path@),
{
    if *remaining == 0 {
        return false;
    }
    *remaining = *remaining - 1;
    let found = present(path);
    proof {
        assert(call_ensures(*present, (path,), found));
    }
    found
}

/// `present` answered that the file `p` is not there.
pub open spec fn refuted<E: Fn(&str) -> bool>(present: E, p: Seq<char>) -> bool {
    exists|x: &str| x@ == p && #[trigger] call_ensures(present, (x,), false)
}

/// `present` refuted each of the first `n` of `paths`.
pub open spec fn all_refuted<E: Fn(&str) -> bool>(present: E, paths: Seq<Seq<char>>, n: int) -> bool {
    forall|j: int| 0 <= j < n ==> #[trigger] refuted(present, paths[j])
}

/// Asking `present` about `paths` in order, with `budget` lookups left and
/// stopping at the first file that is there: `found` is that file and `used`
/// the lookups spent. Every path asked before it was refuted; when nothing
/// is found, every path within the budget was refuted.
pub open spec fn first_found<E: Fn(&str) -> bool>(present: E, paths: Seq<Seq<char>>, budget: int, found: Option<Seq<char>>, used: int) -> bool {
    let m = if paths.len() < budget { paths.len() as int } else { budget };
    match found {
        Some(p) => exists|i: int| 0 <= i < m && #[trigger] paths[i] == p && probed(present, p) && all_refuted(present, paths, i) && used == i + 1,
        None => all_refuted(present, paths, m) && used == m,
    }
}

/// `first_found` with the lookups left after the search, `after`, in place
/// of those spent.
pub open spec fn first_found_to<E: Fn(&str) -> bool>(present: E, paths: Seq<Seq<char>>, before: int, found: Option<Seq<char>>, after: int) -> bool {
    first_found(present, paths, before, found, before - after)
}

/// Asks `present` about `paths` in order while the budget lasts and gives
/// the first file that is there.
fn first_present<E: Fn(&str) -> bool>(paths: &Vec<String>, remaining: &mut usize, present: &E) -> (r: Option<String>)
    requires
        forall|x: &str| call_requires(*present, (x,)),
    ensures
        first_found(*present, crate::text::texts(paths@), *old(remaining) as int, opt_view(r), *old(remaining) - *final(remaining)),
        *final(remaining) <= *old(remaining),
{
    let ghost pv = crate::text::texts(paths@);
    let ghost start = *remaining as int;
    let mut i: usize = 0;
    while i < paths.len()
        invariant
            i <= paths@.len(),
            pv == crate::text::texts(paths@),
            start == *old(remaining),
            forall|x: &str| call_requires(*present, (x,)),
            i <= start ==> *remaining == start - i,
            i > start ==> *remaining == 0,
            all_refuted(*present, pv, if i < start { i as int } else { start }),
        decreases paths@.len() - i,
    {
        let ghost before = *remaining;
        let found = probe(paths[i].as_str(), remaining, present);
        assert(pv[i as int] == paths@[i as int]@);
        if found {
            let p = paths[i].clone();
            assert(pv[i as int] == p@);
            return Some(p);
        }
        proof {
            if before > 0 {
                assert(refuted(*present, pv[i as int]));
            }
        }
        i += 1;
    }
    None
}

/// The text of a metadata file as a read gave it: files over the size
/// limit or not in UTF-8 give none.
pub open spec fn metadata_text(bytes: Option<Seq<u8>>) -> Option<Seq<char>> {
    match bytes {
        Some(b) => if b.len() <= MAX_METADATA_BYTES && vstd::utf8::valid_utf8(b) {
            Some(vstd::utf8::decode_utf8(b))
        } else {
            None
        },
        None => None,
    }
}

pub fn text_from(bytes: Option<Vec<u8>>) -> (r: Option<String>)
    ensures
        match metadata_text(match bytes { Some(b) => Some(b@), None => None }) {
            Some(t) => r matches Some(s) && s@ == t,
            None => r is None,
        },
{
    match bytes {
        None => None,
        Some(b) => {
            if b.len() > MAX_METADATA_BYTES {
                return None;
            }
            match String::from_utf8(b) {
                Ok(t) => Some(t),
                Err(_) => None,
            }
        },
    }
}

fn copy_theme(t: &Theme) -> (r: Theme)
    ensures
        crate::text::texts(r.directories@) == crate::text::texts(t.directories@),
        crate::text::texts(r.inherits@) == crate::text::texts(t.inherits@),
{
    Theme { directories: crate::desktop::copy_texts(&t.directories), inherits: crate::desktop::copy_texts(&t.inherits) }
}

fn listed(v: &Vec<String>, s: &str) -> (r: bool)
    ensures
        r == crate::text::texts(v@).contains(s@),
{
    let mut i: usize = 0;
    while i < v.len()
        invariant
            i <= v@.len(),
            forall|k: int| 0 <= k < i ==> (#[trigger] v@[k])@ != s@,
        decreases v@.len() - i,
    {
        if str_eq(v[i].as_str(), s) {
            assert(crate::text::texts(v@)[i as int] == s@);
            return true;
        }
        i += 1;
    }
    proof {
        if crate::text::texts(v@).contains(s@) {
            let k = choose|k: int| 0 <= k < v@.len() && crate::text::texts(v@)[k] == s@;
            assert(v@[k]@ == s@);
        }
    }
    false
}

/// A theme as plain values: its directories and the themes it inherits from.
pub type ThemeView = (Seq<Seq<char>>, Seq<Seq<char>>);

pub open spec fn theme_view(t: Theme) -> ThemeView {
    (crate::text::texts(t.directories@), crate::text::texts(t.inherits@))
}

pub open spec fn opt_theme_view(t: Option<Theme>) -> Option<ThemeView> {
    match t {
        Some(t) => Some(theme_view(t)),
        None => None,
    }
}

/// The first loaded theme named `name`, from position `i` on, or -1.
pub open spec fn cache_index(cache: Seq<(Seq<char>, Option<ThemeView>)>, name: Seq<char>, i: int) -> int
    decreases cache.len() - i,
{
    if i < 0 || i >= cache.len() {
        -1
    } else if cache[i].0 == name {
        i
    } else {
        cache_index(cache, name, i + 1)
    }
}

/// The index files of theme `name`, one below each root, in root order.
pub open spec fn index_paths(roots: Seq<Seq<char>>, name: Seq<char>) -> Seq<Seq<char>> {
    roots.map_values(|root: Seq<char>| joined(joined(root, name), "index.theme"@))
}

/// `r` is what `parse_theme` gives for `text`.
pub open spec fn parsed_theme(text: Seq<char>, r: Option<Theme>) -> bool {
    match theme_of(text) {
        None => r is None,
        Some((dirs, inherits)) => r matches Some(t) && crate::text::texts(t.inherits@) == inherits
            && exists|sorted: Seq<Ranked>| stably_ranked(sorted, dirs) && #[trigger] ranked_names(sorted) == crate::text::texts(t.directories@),
    }
}

/// `r` is the theme that reading the index file `p` with `read` gave:
/// none when the file is unreadable, too large or not UTF-8.
pub open spec fn index_read<R: Fn(&str) -> Option<Vec<u8>>>(read: R, p: Seq<char>, r: Option<Theme>) -> bool {
    exists|x: &str, bytes: Option<Vec<u8>>| x@ == p && #[trigger] call_ensures(read, (x,), bytes) && match metadata_text(bytes_view(bytes)) {
        None => r is None,
        Some(text) => parsed_theme(text, r),
    }
}

/// Every index file of theme `name` below each of `roots`, in root order.
fn index_candidates(roots: &Vec<String>, name: &str) -> (r: Vec<String>)
    ensures
        crate::text::texts(r@) == index_paths(crate::text::texts(roots@), name@),
{
    let ghost rv = crate::text::texts(roots@);
    let mut out: Vec<String> = Vec::new();
    let mut k: usize = 0;
    while k < roots.len()
        invariant
            k <= roots@.len(),
            rv == crate::text::texts(roots@),
            crate::text::texts(out@) == index_paths(rv, name@).take(k as int),
        decreases roots@.len() - k,
    {
        let ghost prior = crate::text::texts(out@);
        out.push(join(join(roots[k].as_str(), name).as_str(), "index.theme"));
        assert(rv[k as int] == roots@[k as int]@);
        assert(crate::text::texts(out@) =~= prior.push(index_paths(rv, name@)[k as int]));
        assert(crate::text::texts(out@) =~= index_paths(rv, name@).take(k + 1));
        k += 1;
    }
    assert(index_paths(rv, name@).take(k as int) =~= index_paths(rv, name@));
    out
}

/// The theme that loading `name` gives, with the resolver's themes at `c0`
/// and `b0` lookups left: the first loaded theme of that name; otherwise
/// the index below the first root that holds one, read and parsed, and
/// remembered (`c1`, `b1`).
pub open spec fn theme_loaded<E: Fn(&str) -> bool, R: Fn(&str) -> Option<Vec<u8>>>(
    present: E,
    read: R,
    roots: Seq<Seq<char>>,
    c0: Seq<(Seq<char>, Option<ThemeView>)>,
    b0: int,
    name: Seq<char>,
    c1: Seq<(Seq<char>, Option<ThemeView>)>,
    b1: int,
    t: Option<ThemeView>,
) -> bool {
    let c = cache_index(c0, name, 0);
    if c >= 0 {
        t == c0[c].1 && c1 == c0 && b1 == b0
    } else {
        &&& c1 == c0.push((name, t))
        &&& exists|found: Option<Seq<char>>| #[trigger] first_found_to(present, index_paths(roots, name), b0, found, b1) && match found {
            None => t is None,
            Some(p) => exists|r: Option<Theme>| #[trigger] index_read(read, p, r) && opt_theme_view(r) == t,
        }
    }
}

/// The directories of theme `name` for its directory `d`, one per root.
pub open spec fn nested_bases(roots: Seq<Seq<char>>, name: Seq<char>, d: Seq<char>) -> Seq<Seq<char>> {
    roots.map_values(|root: Seq<char>| joined(joined(root, name), d))
}

/// The files `names` in theme `name`: directory by directory, root by root.
pub open spec fn nested_paths(roots: Seq<Seq<char>>, name: Seq<char>, dirs: Seq<Seq<char>>, names: Seq<Seq<char>>) -> Seq<Seq<char>>
    decreases dirs.len(),
{
    if dirs.len() == 0 {
        Seq::empty()
    } else {
        nested_paths(roots, name, dirs.drop_last(), names) + direct_paths(nested_bases(roots, name, dirs.last()), names)
    }
}

/// Searching theme `name` for the files `names`, starting with the loaded
/// themes `c0`, the searched themes `s0` and `b0` lookups left, ends with
/// `c1`, `s1`, `b1` and the file `r`. A theme is searched once, while
/// lookups remain and fewer than `MAX_THEMES` were searched: its own
/// directories first, then the themes it inherits from in order, `hicolor`
/// excepted.
pub open spec fn theme_searched<E: Fn(&str) -> bool, R: Fn(&str) -> Option<Vec<u8>>>(
    present: E,
    read: R,
    roots: Seq<Seq<char>>,
    names: Seq<Seq<char>>,
    name: Seq<char>,
    c0: Seq<(Seq<char>, Option<ThemeView>)>,
    s0: Seq<Seq<char>>,
    b0: int,
    c1: Seq<(Seq<char>, Option<ThemeView>)>,
    s1: Seq<Seq<char>>,
    b1: int,
    r: Option<Seq<char>>,
) -> bool
    decreases MAX_THEMES - s0.len(), 0int,
{
    if s0.len() >= MAX_THEMES || s0.contains(name) || b0 <= 0 {
        r is None && c1 == c0 && s1 == s0 && b1 == b0
    } else {
        exists|cm: Seq<(Seq<char>, Option<ThemeView>)>, bm: int, t: Option<ThemeView>|
            #[trigger] theme_loaded(present, read, roots, c0, b0, name, cm, bm, t) && match t {
                None => r is None && c1 == cm && s1 == s0.push(name) && b1 == bm,
                Some((dirs, inherits)) => exists|found: Option<Seq<char>>, bo: int|
                    #[trigger] first_found_to(present, nested_paths(roots, name, dirs, names), bm, found, bo) && match found {
                        Some(p) => r == Some(p) && c1 == cm && s1 == s0.push(name) && b1 == bo,
                        None => inherited_searched(present, read, roots, names, inherits, 0, cm, s0.push(name), bo, c1, s1, b1, r),
                    },
            }
    }
}

/// Names the state a search ends in, so that proofs can point at it.
pub open spec fn search_state(c: Seq<(Seq<char>, Option<ThemeView>)>, s: Seq<Seq<char>>, b: int, r: Option<Seq<char>>) -> bool {
    true
}

/// Searching the inherited themes `inherits` from position `i` on, as
/// `theme_searched` does each of them, until one gives a file.
pub open spec fn inherited_searched<E: Fn(&str) -> bool, R: Fn(&str) -> Option<Vec<u8>>>(
    present: E,
    read: R,
    roots: Seq<Seq<char>>,
    names: Seq<Seq<char>>,
    inherits: Seq<Seq<char>>,
    i: int,
    c0: Seq<(Seq<char>, Option<ThemeView>)>,
    s0: Seq<Seq<char>>,
    b0: int,
    c1: Seq<(Seq<char>, Option<ThemeView>)>,
    s1: Seq<Seq<char>>,
    b1: int,
    r: Option<Seq<char>>,
) -> bool
    decreases MAX_THEMES - s0.len(), inherits.len() - i + 1,
{
    if s0.len() > MAX_THEMES || i < 0 {
        false
    } else if i >= inherits.len() {
        r is None && c1 == c0 && s1 == s0 && b1 == b0
    } else if inherits[i] == "hicolor"@ {
        inherited_searched(present, read, roots, names, inherits, i + 1, c0, s0, b0, c1, s1, b1, r)
    } else {
        exists|cc: Seq<(Seq<char>, Option<ThemeView>)>, sc: Seq<Seq<char>>, bc: int, rc: Option<Seq<char>>|
            #[trigger] search_state(cc, sc, bc, rc)
            && theme_searched(present, read, roots, names, inherits[i], c0, s0, b0, cc, sc, bc, rc)
            && s0.len() <= sc.len() <= MAX_THEMES && match rc {
                Some(p) => r == Some(p) && c1 == cc && s1 == sc && b1 == bc,
                None => inherited_searched(present, read, roots, names, inherits, i + 1, cc, sc, bc, c1, s1, b1, r),
            }
    }
}

/// A theme that was searched and loaded with directories `dirs` and parents
/// `inh`: its own files come first, then its parents.
proof fn lemma_theme_searched<E: Fn(&str) -> bool, R: Fn(&str) -> Option<Vec<u8>>>(
    present: E,
    read: R,
    roots: Seq<Seq<char>>,
    names: Seq<Seq<char>>,
    name: Seq<char>,
    c0: Seq<(Seq<char>, Option<ThemeView>)>,
    s0: Seq<Seq<char>>,
    b0: int,
    cm: Seq<(Seq<char>, Option<ThemeView>)>,
    bm: int,
    t: Option<ThemeView>,
    found: Option<Seq<char>>,
    bo: int,
    c1: Seq<(Seq<char>, Option<ThemeView>)>,
    s1: Seq<Seq<char>>,
    b1: int,
    r: Option<Seq<char>>,
)
    requires
        s0.len() < MAX_THEMES,
        !s0.contains(name),
        b0 > 0,
        theme_loaded(present, read, roots, c0, b0, name, cm, bm, t),
        match t {
            None => r is None && c1 == cm && s1 == s0.push(name) && b1 == bm,
            Some((dirs, inherits)) => first_found_to(present, nested_paths(roots, name, dirs, names), bm, found, bo) && match found {
                Some(p) => r == Some(p) && c1 == cm && s1 == s0.push(name) && b1 == bo,
                None => inherited_searched(present, read, roots, names, inherits, 0, cm, s0.push(name), bo, c1, s1, b1, r),
            },
        },
    ensures
        theme_searched(present, read, roots, names, name, c0, s0, b0, c1, s1, b1, r),
{
    match t {
        None => {},
        Some((dirs, inherits)) => {
            assert(first_found_to(present, nested_paths(roots, name, dirs, names), bm, found, bo));
        },
    }
}

proof fn lemma_direct_member(bases: Seq<Seq<char>>, names: Seq<Seq<char>>, i: int)
    requires
        0 <= i < direct_paths(bases, names).len(),
    ensures
        exists|k: int, j: int| 0 <= k < bases.len() && 0 <= j < names.len()
            && direct_paths(bases, names)[i] == joined(#[trigger] bases[k], #[trigger] names[j]),
    decreases bases.len(),
{
    let front = direct_paths(bases.drop_last(), names);
    if i < front.len() {
        lemma_direct_member(bases.drop_last(), names, i);
        let (k, j) = choose|k: int, j: int| 0 <= k < bases.drop_last().len() && 0 <= j < names.len()
            && front[i] == joined(#[trigger] bases.drop_last()[k], #[trigger] names[j]);
        assert(bases[k] == bases.drop_last()[k]);
    } else {
        let j = i - front.len();
        assert(direct_paths(bases, names)[i] == joined(bases[bases.len() - 1], names[j]));
    }
}

proof fn lemma_nested_found(roots: Seq<Seq<char>>, name: Seq<char>, dirs: Seq<Seq<char>>, names: Seq<Seq<char>>, i: int)
    requires
        0 <= i < nested_paths(roots, name, dirs, names).len(),
    ensures
        exists|k: int, j: int| 0 <= k < roots.len() && 0 <= j < names.len()
            && found_under(nested_paths(roots, name, dirs, names)[i], #[trigger] roots[k], #[trigger] names[j]),
    decreases dirs.len(),
{
    let front = nested_paths(roots, name, dirs.drop_last(), names);
    if i < front.len() {
        lemma_nested_found(roots, name, dirs.drop_last(), names, i);
    } else {
        let bases = nested_bases(roots, name, dirs.last());
        let i2 = i - front.len();
        lemma_direct_member(bases, names, i2);
        let (k, j) = choose|k: int, j: int| 0 <= k < bases.len() && 0 <= j < names.len()
            && direct_paths(bases, names)[i2] == joined(#[trigger] bases[k], #[trigger] names[j]);
        lemma_found_nested(roots[k], name, dirs.last(), names[j]);
        assert(nested_paths(roots, name, dirs, names)[i] == direct_paths(bases, names)[i2]);
    }
}

/// The directories of theme `name` for its directory `d`, one per root.
fn nested_base_dirs(roots: &Vec<String>, name: &str, d: &str) -> (r: Vec<String>)
    ensures
        crate::text::texts(r@) == nested_bases(crate::text::texts(roots@), name@, d@),
{
    let ghost rv = crate::text::texts(roots@);
    let mut out: Vec<String> = Vec::new();
    let mut k: usize = 0;
    while k < roots.len()
        invariant
            k <= roots@.len(),
            rv == crate::text::texts(roots@),
            crate::text::texts(out@) == nested_bases(rv, name@, d@).take(k as int),
        decreases roots@.len() - k,
    {
        let ghost prior = crate::text::texts(out@);
        out.push(join(join(roots[k].as_str(), name).as_str(), d));
        assert(rv[k as int] == roots@[k as int]@);
        assert(crate::text::texts(out@) =~= prior.push(nested_bases(rv, name@, d@)[k as int]));
        assert(crate::text::texts(out@) =~= nested_bases(rv, name@, d@).take(k + 1));
        k += 1;
    }
    assert(nested_bases(rv, name@, d@).take(k as int) =~= nested_bases(rv, name@, d@));
    out
}

/// Every file of `names` in theme `name`, directory by directory, root by root.
fn nested_candidates(roots: &Vec<String>, name: &str, dirs: &Vec<String>, names: &Vec<String>) -> (r: Vec<String>)
    ensures
        crate::text::texts(r@) == nested_paths(crate::text::texts(roots@), name@, crate::text::texts(dirs@), crate::text::texts(names@)),
{
    let ghost rv = crate::text::texts(roots@);
    let ghost dv = crate::text::texts(dirs@);
    let ghost nv = crate::text::texts(names@);
    let mut out: Vec<String> = Vec::new();
    let mut d: usize = 0;
    assert(crate::text::texts(out@) =~= nested_paths(rv, name@, dv.take(0), nv));
    while d < dirs.len()
        invariant
            d <= dirs@.len(),
            rv == crate::text::texts(roots@),
            dv == crate::text::texts(dirs@),
            nv == crate::text::texts(names@),
            crate::text::texts(out@) == nested_paths(rv, name@, dv.take(d as int), nv),
        decreases dirs@.len() - d,
    {
        let bases = nested_base_dirs(roots, name, dirs[d].as_str());
        let mut row = direct_candidates(&bases, names);
        let ghost prior = crate::text::texts(out@);
        let ghost rowv = crate::text::texts(row@);
        out.append(&mut row);
        assert(crate::text::texts(out@) =~= prior + rowv);
        assert(dv[d as int] == dirs@[d as int]@);
        assert(dv.take(d + 1).drop_last() =~= dv.take(d as int));
        assert(dv.take(d + 1).last() == dv[d as int]);
        d += 1;
    }
    assert(dv.take(d as int) =~= dv);
    out
}

impl IconResolver {
    /// The theme `name`, loaded once per resolver: the first root holding
    /// its `index.theme` decides, and an unreadable or malformed index gives
    /// no theme.
    fn load_theme<E: Fn(&str) -> bool, R: Fn(&str) -> Option<Vec<u8>>>(
        &mut self,
        name: &str,
        remaining: &mut usize,
        present: &E,
        read: &R,
    ) -> (r: Option<Theme>)
        requires
            forall|x: &str| call_requires(*present, (x,)),
            forall|x: &str| call_requires(*read, (x,)),
        ensures
            final(self).theme_name() == old(self).theme_name(),
            final(self).search_roots() == old(self).search_roots(),
            final(self).fallbacks() == old(self).fallbacks(),
            *final(remaining) <= *old(remaining),
            ({
                let c = cache_index(old(self).cache(), name@, 0);
                if c >= 0 {
                    &&& opt_theme_view(r) == old(self).cache()[c].1
                    &&& final(self).cache() == old(self).cache()
                    &&& *final(remaining) == *old(remaining)
                } else {
                    &&& final(self).cache() == old(self).cache().push((name@, opt_theme_view(r)))
                    &&& exists|found: Option<Seq<char>>| #[trigger] first_found_to(*present, index_paths(old(self).search_roots(), name@),
                        *old(remaining) as int, found, *final(remaining) as int) && match found {
                        None => r is None,
                        Some(p) => index_read(*read, p, r),
                    }
                }
            }),
    {
        let ghost cv = self.cache();
        let mut i: usize = 0;
        while i < self.themes.len()
            invariant
                i <= self.themes@.len(),
                cv == self.cache(),
                cache_index(cv, name@, i as int) == cache_index(cv, name@, 0),
            decreases self.themes@.len() - i,
        {
            assert(cv[i as int] == (self.themes@[i as int].0@, opt_theme_view(self.themes@[i as int].1)));
            if str_eq(self.themes[i].0.as_str(), name) {
                return match &self.themes[i].1 {
                    Some(t) => Some(copy_theme(t)),
                    None => None,
                };
            }
            i += 1;
        }
        assert(cache_index(cv, name@, 0) == -1);
        let ghost budget = *remaining;
        let paths = index_candidates(&self.roots, name);
        let found = first_present(&paths, remaining, present);
        let ghost found_view = opt_view(found);
        assert(first_found(*present, index_paths(self.search_roots(), name@), budget as int, found_view, budget - *remaining));
        assert(first_found_to(*present, index_paths(self.search_roots(), name@), budget as int, found_view, *remaining as int));
        let theme = match &found {
            None => None,
            Some(path) => {
                let p = path.as_str();
                let bytes = read(p);
                let ghost seen = bytes;
                let t = match text_from(bytes) {
                    Some(text) => parse_theme(text.as_str()),
                    None => None,
                };
                assert(call_ensures(*read, (p,), seen));
                assert(index_read(*read, path@, t));
                t
            },
        };
        let cached = match &theme {
            Some(t) => Some(copy_theme(t)),
            None => None,
        };
        let ghost before = self.themes@;
        self.themes.push((name.to_owned(), cached));
        assert(self.cache() =~= cv.push((name@, opt_theme_view(theme))));
        assert(match found_view {
            None => theme is None,
            Some(p) => index_read(*read, p, theme),
        });
        theme
    }

    /// The first file of `names` in the theme `name` or the themes it
    /// inherits from, `hicolor` excepted. Themes already in `seen` are not
    /// searched again.
    fn find_in_theme<E: Fn(&str) -> bool, R: Fn(&str) -> Option<Vec<u8>>>(
        &mut self,
        name: &str,
        names: &Vec<String>,
        seen: &mut Vec<String>,
        remaining: &mut usize,
        present: &E,
        read: &R,
    ) -> (r: Option<String>)
        requires
            forall|x: &str| call_requires(*present, (x,)),
            forall|x: &str| call_requires(*read, (x,)),
            old(seen)@.len() <= MAX_THEMES,
        ensures
            final(self).theme_name() == old(self).theme_name(),
            final(self).search_roots() == old(self).search_roots(),
            final(self).fallbacks() == old(self).fallbacks(),
            old(seen)@.len() <= final(seen)@.len() <= MAX_THEMES,
            *final(remaining) <= *old(remaining),
            theme_searched(*present, *read, old(self).search_roots(), crate::text::texts(names@), name@,
                old(self).cache(), crate::text::texts(old(seen)@), *old(remaining) as int,
                final(self).cache(), crate::text::texts(final(seen)@), *final(remaining) as int, opt_view(r)),
            r matches Some(p) ==> probed(*present, p@) && exists|k: int, j: int|
                0 <= k < old(self).search_roots().len() && 0 <= j < names@.len()
                    && found_under(p@, #[trigger] old(self).search_roots()[k], #[trigger] names@[j]@),
        decreases MAX_THEMES - old(seen)@.len(),
    {
        let ghost roots = self.search_roots();
        let ghost nv = crate::text::texts(names@);
        let ghost c0 = self.cache();
        let ghost s0 = crate::text::texts(seen@);
        let ghost b0 = *remaining as int;
        if seen.len() >= MAX_THEMES || listed(seen, name) || *remaining == 0 {
            return None;
        }
        seen.push(name.to_owned());
        let ghost s_in = crate::text::texts(seen@);
        assert(s_in =~= s0.push(name@));
        let loaded = self.load_theme(name, remaining, present, read);
        let ghost cm = self.cache();
        let ghost bm = *remaining as int;
        let ghost tv = opt_theme_view(loaded);
        assert(theme_loaded(*present, *read, roots, c0, b0, name@, cm, bm, tv));
        assert(s0.len() < MAX_THEMES && !s0.contains(name@) && b0 > 0);
        let theme = match loaded {
            None => {
                proof {
                    lemma_theme_searched(*present, *read, roots, nv, name@, c0, s0, b0, cm, bm, tv, None, bm, cm, s_in, bm, None);
                }
                return None;
            },
            Some(t) => t,
        };
        let ghost dirs = crate::text::texts(theme.directories@);
        let ghost inh = crate::text::texts(theme.inherits@);
        let candidates = nested_candidates(&self.roots, name, &theme.directories, names);
        let found = first_present(&candidates, remaining, present);
        let ghost bo = *remaining as int;
        let ghost fv = opt_view(found);
        assert(tv == Some((dirs, inh)));
        assert(first_found(*present, nested_paths(roots, name@, dirs, nv), bm, fv, bm - bo));
        assert(first_found_to(*present, nested_paths(roots, name@, dirs, nv), bm, fv, bo));
        if let Some(path) = found {
            proof {
                let cv = crate::text::texts(candidates@);
                let i = choose|i: int| 0 <= i < cv.len() && #[trigger] cv[i] == path@ && probed(*present, path@)
                    && all_refuted(*present, cv, i) && bm - bo == i + 1 && i < bm;
                lemma_nested_found(roots, name@, dirs, nv, i);
                let (k, j) = choose|k: int, j: int| 0 <= k < roots.len() && 0 <= j < nv.len()
                    && found_under(cv[i], #[trigger] roots[k], #[trigger] nv[j]);
                assert(nv[j] == names@[j]@);
                lemma_theme_searched(*present, *read, roots, nv, name@, c0, s0, b0, cm, bm, tv, fv, bo, cm, s_in, bo, Some(path@));
            }
            return Some(path);
        }
        let ghost s_mid = s_in;
        let mut i: usize = 0;
        while i < theme.inherits.len()
            invariant
                i <= theme.inherits@.len(),
                inh == crate::text::texts(theme.inherits@),
                roots == self.search_roots(),
                nv == crate::text::texts(names@),
                self.theme_name() == old(self).theme_name(),
                self.search_roots() == old(self).search_roots(),
                self.fallbacks() == old(self).fallbacks(),
                old(seen)@.len() < seen@.len() <= MAX_THEMES,
                s_mid.len() <= seen@.len(),
                s_mid.len() <= MAX_THEMES,
                *remaining <= *old(remaining),
                forall|x: &str| call_requires(*present, (x,)),
                forall|x: &str| call_requires(*read, (x,)),
                forall|c1: Seq<(Seq<char>, Option<ThemeView>)>, s1: Seq<Seq<char>>, b1: int, r: Option<Seq<char>>|
                    #[trigger] inherited_searched(*present, *read, roots, nv, inh, i as int, self.cache(), crate::text::texts(seen@), *remaining as int, c1, s1, b1, r)
                    ==> inherited_searched(*present, *read, roots, nv, inh, 0, cm, s_mid, bo, c1, s1, b1, r),
                roots == old(self).search_roots(),
                c0 == old(self).cache(),
                s0 == crate::text::texts(old(seen)@),
                b0 == *old(remaining) as int,
                s0.len() < MAX_THEMES && !s0.contains(name@) && b0 > 0,
                theme_loaded(*present, *read, roots, c0, b0, name@, cm, bm, tv),
                tv == Some((dirs, inh)),
                first_found_to(*present, nested_paths(roots, name@, dirs, nv), bm, fv, bo),
                fv is None,
                s_mid == s0.push(name@),
            decreases theme.inherits@.len() - i,
        {
            let parent = theme.inherits[i].as_str();
            let ghost cc0 = self.cache();
            let ghost sc0 = crate::text::texts(seen@);
            let ghost bc0 = *remaining as int;
            assert(inh[i as int] == parent@);
            assert(sc0.len() == seen@.len());
            proof {
                reveal_strlit("hicolor");
            }
            // The required hicolor fallback is always searched last.
            if !str_eq(parent, "hicolor") {
                let sub = self.find_in_theme(parent, names, seen, remaining, present, read);
                let ghost cc = self.cache();
                let ghost sc = crate::text::texts(seen@);
                let ghost bc = *remaining as int;
                assert(sc.len() == seen@.len());
                assert(inh[i as int] != "hicolor"@);
                assert(theme_searched(*present, *read, roots, nv, inh[i as int], cc0, sc0, bc0, cc, sc, bc, opt_view(sub)));
                assert(search_state(cc, sc, bc, opt_view(sub)));
                if let Some(path) = sub {
                    proof {
                        assert(inherited_searched(*present, *read, roots, nv, inh, i as int, cc0, sc0, bc0, cc, sc, bc, Some(path@)));
                        assert(inherited_searched(*present, *read, roots, nv, inh, 0, cm, s_mid, bo, cc, sc, bc, Some(path@)));
                        lemma_theme_searched(*present, *read, roots, nv, name@, c0, s0, b0, cm, bm, tv, fv, bo, cc, sc, bc, Some(path@));
                    }
                    return Some(path);
                }
                proof {
                    assert forall|c1: Seq<(Seq<char>, Option<ThemeView>)>, s1: Seq<Seq<char>>, b1: int, r: Option<Seq<char>>|
                        #[trigger] inherited_searched(*present, *read, roots, nv, inh, i + 1, cc, sc, bc, c1, s1, b1, r)
                        implies inherited_searched(*present, *read, roots, nv, inh, 0, cm, s_mid, bo, c1, s1, b1, r) by {
                        assert(inherited_searched(*present, *read, roots, nv, inh, i as int, cc0, sc0, bc0, c1, s1, b1, r));
                    }
                }
            } else {
                proof {
                    assert forall|c1: Seq<(Seq<char>, Option<ThemeView>)>, s1: Seq<Seq<char>>, b1: int, r: Option<Seq<char>>|
                        #[trigger] inherited_searched(*present, *read, roots, nv, inh, i + 1, cc0, sc0, bc0, c1, s1, b1, r)
                        implies inherited_searched(*present, *read, roots, nv, inh, 0, cm, s_mid, bo, c1, s1, b1, r) by {
                        assert(inherited_searched(*present, *read, roots, nv, inh, i as int, cc0, sc0, bc0, c1, s1, b1, r));
                    }
                }
            }
            i += 1;
        }
        proof {
            let cf = self.cache();
            let sf = crate::text::texts(seen@);
            let bf = *remaining as int;
            assert(inherited_searched(*present, *read, roots, nv, inh, i as int, cf, sf, bf, cf, sf, bf, None));
            assert(inherited_searched(*present, *read, roots, nv, inh, 0, cm, s_mid, bo, cf, sf, bf, None));
            lemma_theme_searched(*present, *read, roots, nv, name@, c0, s0, b0, cm, bm, tv, fv, bo, cf, sf, bf, None);
        }
        None
    }
}

/// `p` is one of the file names `names` in one of the directories `bases`
/// or below it.
pub open spec fn found_in(bases: Seq<Seq<char>>, names: Seq<Seq<char>>, p: Seq<char>) -> bool {
    exists|k: int, j: int| 0 <= k < bases.len() && 0 <= j < names.len() && found_under(p, #[trigger] bases[k], #[trigger] names[j])
}

fn icon_files(declared: &str) -> (r: Vec<String>)
    ensures
        crate::text::texts(r@) == icon_names(declared@),
{
    let chars = chars_of(declared);
    let n = chars.len();
    assert(chars@.subrange(0, n as int) =~= chars@);
    let mut out: Vec<String> = Vec::new();
    if crate::text::ends_with_lit(&chars, 0, n, ".png") || crate::text::ends_with_lit(&chars, 0, n, ".svg") {
        out.push(declared.to_owned());
        assert(crate::text::texts(out@) =~= seq![declared@]);
    } else {
        let mut png = declared.to_owned();
        let mut svg = declared.to_owned();
        let ext = chars_of(".png");
        let other = chars_of(".svg");
        proof {
            reveal_strlit(".png");
            reveal_strlit(".svg");
        }
        let mut i: usize = 0;
        while i < 4
            invariant
                i <= 4,
                ext@ == ".png"@,
                other@ == ".svg"@,
                ext@.len() == 4,
                other@.len() == 4,
                png@ == declared@ + ext@.take(i as int),
                svg@ == declared@ + other@.take(i as int),
            decreases 4 - i,
        {
            png.push(ext[i]);
            svg.push(other[i]);
            i += 1;
            assert(png@ =~= declared@ + ext@.take(i as int));
            assert(svg@ =~= declared@ + other@.take(i as int));
        }
        assert(ext@.take(4) =~= ext@);
        assert(other@.take(4) =~= other@);
        out.push(png);
        out.push(svg);
        assert(crate::text::texts(out@) =~= seq![declared@ + ".png"@, declared@ + ".svg"@]);
    }
    out
}

/// The files `names` in the directory `base`, in order.
pub open spec fn below(base: Seq<char>, names: Seq<Seq<char>>) -> Seq<Seq<char>> {
    names.map_values(|n: Seq<char>| joined(base, n))
}

/// The files `names` directly in each of the directories `bases`, base by base.
pub open spec fn direct_paths(bases: Seq<Seq<char>>, names: Seq<Seq<char>>) -> Seq<Seq<char>>
    decreases bases.len(),
{
    if bases.len() == 0 {
        Seq::empty()
    } else {
        direct_paths(bases.drop_last(), names) + below(bases.last(), names)
    }
}

proof fn lemma_direct_found_in(bases: Seq<Seq<char>>, names: Seq<Seq<char>>, i: int)
    requires
        0 <= i < direct_paths(bases, names).len(),
    ensures
        found_in(bases, names, direct_paths(bases, names)[i]),
    decreases bases.len(),
{
    let front = direct_paths(bases.drop_last(), names);
    if i < front.len() {
        lemma_direct_found_in(bases.drop_last(), names, i);
        let (k, j) = choose|k: int, j: int| 0 <= k < bases.drop_last().len() && 0 <= j < names.len()
            && found_under(front[i], #[trigger] bases.drop_last()[k], #[trigger] names[j]);
        assert(bases[k] == bases.drop_last()[k]);
        assert(found_under(direct_paths(bases, names)[i], bases[k], names[j]));
    } else {
        let j = i - front.len();
        lemma_found_direct(bases.last(), names[j]);
        assert(direct_paths(bases, names)[i] == joined(bases.last(), names[j]));
        assert(found_under(direct_paths(bases, names)[i], bases[bases.len() - 1], names[j]));
    }
}

/// Every file of `names` in each of `bases`, base by base.
fn direct_candidates(bases: &Vec<String>, names: &Vec<String>) -> (r: Vec<String>)
    ensures
        crate::text::texts(r@) == direct_paths(crate::text::texts(bases@), crate::text::texts(names@)),
{
    let ghost bv = crate::text::texts(bases@);
    let ghost nv = crate::text::texts(names@);
    let mut out: Vec<String> = Vec::new();
    let mut k: usize = 0;
    assert(bv.take(0) =~= Seq::<Seq<char>>::empty());
    assert(crate::text::texts(out@) =~= direct_paths(bv.take(0), nv));
    while k < bases.len()
        invariant
            k <= bases@.len(),
            bv == crate::text::texts(bases@),
            nv == crate::text::texts(names@),
            crate::text::texts(out@) == direct_paths(bv.take(k as int), nv),
        decreases bases@.len() - k,
    {
        let ghost done = crate::text::texts(out@);
        let ghost row = below(bv[k as int], nv);
        let mut j: usize = 0;
        assert(done + row.take(0) =~= done);
        while j < names.len()
            invariant
                j <= names@.len(),
                k < bases@.len(),
                bv == crate::text::texts(bases@),
                nv == crate::text::texts(names@),
                row == below(bv[k as int], nv),
                crate::text::texts(out@) == done + row.take(j as int),
            decreases names@.len() - j,
        {
            let path = join(bases[k].as_str(), names[j].as_str());
            let ghost prior = crate::text::texts(out@);
            out.push(path);
            assert(bv[k as int] == bases@[k as int]@ && nv[j as int] == names@[j as int]@);
            assert(crate::text::texts(out@) =~= prior.push(row[j as int]));
            assert(crate::text::texts(out@) =~= done + row.take(j + 1));
            j += 1;
        }
        assert(row.take(j as int) =~= row);
        assert(bv.take(k + 1).drop_last() =~= bv.take(k as int));
        assert(bv.take(k + 1).last() == bv[k as int]);
        k += 1;
    }
    assert(bv.take(k as int) =~= bv);
    out
}

/// The first of `names` directly in one of the directories `bases`: the
/// files are asked about base by base, in the order of `names`.
fn find_direct<E: Fn(&str) -> bool>(bases: &Vec<String>, names: &Vec<String>, remaining: &mut usize, present: &E) -> (r: Option<String>)
    requires
        forall|x: &str| call_requires(*present, (x,)),
    ensures
        first_found(*present, direct_paths(crate::text::texts(bases@), crate::text::texts(names@)), *old(remaining) as int, opt_view(r), *old(remaining) - *final(remaining)),
        *final(remaining) <= *old(remaining),
        r matches Some(p) ==> probed(*present, p@) && found_in(crate::text::texts(bases@), crate::text::texts(names@), p@),
{
    let paths = direct_candidates(bases, names);
    let r = first_present(&paths, remaining, present);
    proof {
        if r is Some {
            let pv = crate::text::texts(paths@);
            let i = choose|i: int| 0 <= i < pv.len() && #[trigger] pv[i] == r->0@ && probed(*present, r->0@)
                && all_refuted(*present, pv, i) && *old(remaining) - *final(remaining) == i + 1
                && i < *old(remaining);
            lemma_direct_found_in(crate::text::texts(bases@), crate::text::texts(names@), i);
        }
    }
    r
}

/// An absolute path the decoder accepts: its file name, the part after the
/// last `/`, has a stem and the extension `png` or `svg`.
pub open spec fn decodable(p: Seq<char>) -> bool {
    p.len() > 4 && p[p.len() - 5] != '/' && (crate::taskbar::has_suffix(p, ".png"@) || crate::taskbar::has_suffix(p, ".svg"@))
}

/// An icon of the promised shape: 1 to `ICON_SIZE` pixels on each side,
/// four bytes per pixel.
pub open spec fn icon_fits(icon: AppIcon) -> bool {
    1 <= icon.width <= ICON_SIZE && 1 <= icon.height <= ICON_SIZE && icon.rgba@.len() == 4 * icon.width * icon.height
}

/// What a decoder's answer gives: the icon when it has the promised shape.
pub open spec fn fitted(d: Option<AppIcon>) -> Option<AppIcon> {
    match d {
        Some(icon) => if icon_fits(icon) { Some(icon) } else { None },
        None => None,
    }
}

/// `r` is what decoding the file `p` with `decode` gave.
pub open spec fn decoded_from<D: Fn(&str) -> Option<AppIcon>>(decode: D, p: Seq<char>, r: Option<AppIcon>) -> bool {
    exists|x: &str, d: Option<AppIcon>| x@ == p && #[trigger] call_ensures(decode, (x,), d) && r == fitted(d)
}

/// Looking up the file names `names` from the loaded themes `c0` on: the
/// theme `theme` and the themes it inherits from, then `hicolor`, each as
/// `theme_searched` states, with `MAX_PROBES` lookups in all and no theme
/// searched twice; then each of `roots` followed by `fallbacks` directly.
/// `found` is the first file found and `c1` the loaded themes after.
pub open spec fn icon_lookup<E: Fn(&str) -> bool, R: Fn(&str) -> Option<Vec<u8>>>(
    present: E,
    read: R,
    roots: Seq<Seq<char>>,
    fallbacks: Seq<Seq<char>>,
    theme: Seq<char>,
    names: Seq<Seq<char>>,
    c0: Seq<(Seq<char>, Option<ThemeView>)>,
    c1: Seq<(Seq<char>, Option<ThemeView>)>,
    found: Option<Seq<char>>,
) -> bool {
    exists|ca: Seq<(Seq<char>, Option<ThemeView>)>, sa: Seq<Seq<char>>, ba: int, ra: Option<Seq<char>>|
        #[trigger] theme_searched(present, read, roots, names, theme, c0, Seq::empty(), MAX_PROBES as int, ca, sa, ba, ra) && match ra {
            Some(p) => found == Some(p) && c1 == ca,
            None => exists|cb: Seq<(Seq<char>, Option<ThemeView>)>, sb: Seq<Seq<char>>, bb: int, rb: Option<Seq<char>>|
                #[trigger] theme_searched(present, read, roots, names, "hicolor"@, ca, sa, ba, cb, sb, bb, rb) && c1 == cb && match rb {
                    Some(p) => found == Some(p),
                    None => exists|bc: int| #[trigger] first_found_to(present, direct_paths(roots + fallbacks, names), bb, found, bc),
                },
        }
}

/// The directories `a` followed by `b`.
fn concat_dirs(a: &Vec<String>, b: &Vec<String>) -> (r: Vec<String>)
    ensures
        crate::text::texts(r@) == crate::text::texts(a@) + crate::text::texts(b@),
{
    let mut out: Vec<String> = Vec::new();
    let mut i: usize = 0;
    while i < a.len()
        invariant
            i <= a@.len(),
            crate::text::texts(out@) == crate::text::texts(a@).take(i as int),
        decreases a@.len() - i,
    {
        let ghost prior = crate::text::texts(out@);
        out.push(a[i].clone());
        assert(crate::text::texts(out@) =~= prior.push(a@[i as int]@));
        assert(crate::text::texts(out@) =~= crate::text::texts(a@).take(i + 1));
        i += 1;
    }
    let mut j: usize = 0;
    while j < b.len()
        invariant
            j <= b@.len(),
            crate::text::texts(out@) == crate::text::texts(a@) + crate::text::texts(b@).take(j as int),
        decreases b@.len() - j,
    {
        let ghost prior = crate::text::texts(out@);
        out.push(b[j].clone());
        assert(crate::text::texts(out@) =~= prior.push(b@[j as int]@));
        assert(crate::text::texts(out@) =~= crate::text::texts(a@) + crate::text::texts(b@).take(j + 1));
        j += 1;
    }
    assert(crate::text::texts(a@).take(a@.len() as int) =~= crate::text::texts(a@));
    assert(crate::text::texts(b@).take(b@.len() as int) =~= crate::text::texts(b@));
    out
}

/// Decodes the file `path` with `decode` and keeps the icon only when it has
/// the promised shape.
fn decode_fitted<D: Fn(&str) -> Option<AppIcon>>(path: &str, decode: &D) -> (r: Option<AppIcon>)
    requires
        forall|x: &str| call_requires(*decode, (x,)),
    ensures
        decoded_from(*decode, path@, r),
{
    let d = decode(path);
    let ghost dv = d;
    let r = match d {
        Some(icon) => {
            if 1 <= icon.width && icon.width <= ICON_SIZE as usize && 1 <= icon.height && icon.height <= ICON_SIZE as usize {
                let (w, h) = (icon.width, icon.height);
                assert(4 * w * h <= 4 * 64 * 64) by (nonlinear_arith)
                    requires
                        w <= 64,
                        h <= 64,
                ;
                if icon.rgba.len() == 4 * w * h {
                    Some(icon)
                } else {
                    None
                }
            } else {
                None
            }
        },
        None => None,
    };
    assert(call_ensures(*decode, (path,), dv) && r == fitted(dv));
    r
}

impl IconResolver {
    /// The icon that a desktop entry's `Icon` value declares. An absolute path
    /// to a PNG or SVG file is decoded as it stands, any other absolute path
    /// gives no icon; relative paths, URLs and shell syntax give no icon. A
    /// decoded icon is kept only with 1 to `ICON_SIZE` pixels on each side
    /// and four bytes per pixel. A name is looked up as a PNG or SVG file in the configured theme
    /// and the themes it inherits from, in `hicolor`, then directly in the
    /// search roots and the fallback directories, at most `MAX_PROBES` lookups
    /// in all. The first file found is the one decoded: a corrupt file never
    /// turns into a lower-priority icon. `present` tells whether a file is
    /// there, `read` reads a theme index, `decode` decodes an icon file.
    pub fn resolve<E, R, D>(&mut self, declared: &str, present: &E, read: &R, decode: &D) -> (r: Option<AppIcon>) where
        E: Fn(&str) -> bool,
        R: Fn(&str) -> Option<Vec<u8>>,
        D: Fn(&str) -> Option<AppIcon>,

        requires
            forall|x: &str| call_requires(*present, (x,)),
            forall|x: &str| call_requires(*read, (x,)),
            forall|x: &str| call_requires(*decode, (x,)),
        ensures
            final(self).theme_name() == old(self).theme_name(),
            final(self).search_roots() == old(self).search_roots(),
            final(self).fallbacks() == old(self).fallbacks(),
            !declared_ok(declared@) ==> r is None,
            declared_ok(declared@) && is_absolute(declared@) && !decodable(declared@) ==> r is None,
            declared_ok(declared@) && is_absolute(declared@) && decodable(declared@) ==> decoded_from(*decode, declared@, r),
            declared_ok(declared@) && !is_absolute(declared@) && !is_safe_component(declared@) ==> r is None,
            declared_ok(declared@) && !is_absolute(declared@) && is_safe_component(declared@) ==> exists|found: Option<Seq<char>>|
                #[trigger] icon_lookup(*present, *read, old(self).search_roots(), old(self).fallbacks(), old(self).theme_name(),
                    icon_names(declared@), old(self).cache(), final(self).cache(), found) && match found {
                    None => r is None,
                    Some(p) => probed(*present, p) && decoded_from(*decode, p, r),
                },
    {
        let chars = chars_of(declared);
        let n = chars.len();
        assert(chars@.subrange(0, n as int) =~= chars@);
        if n == 0 || str_byte_len(declared) > 4096 || !controls_absent(&chars, 0, n) {
            return None;
        }
        if chars[0] == '/' {
            let png = crate::text::ends_with_lit(&chars, 0, n, ".png");
            let svg = crate::text::ends_with_lit(&chars, 0, n, ".svg");
            if n > 4 && chars[n - 5] != '/' && (png || svg) {
                return decode_fitted(declared, decode);
            }
            return None;
        }
        if !safe_component(declared) {
            return None;
        }
        let names = icon_files(declared);
        let ghost nv = icon_names(declared@);
        let mut remaining: usize = MAX_PROBES;
        let mut seen: Vec<String> = Vec::new();
        let theme = self.theme.clone();
        let ghost roots = self.search_roots();
        let ghost fallbacks = self.fallbacks();
        let ghost c0 = self.cache();
        assert(crate::text::texts(seen@) =~= Seq::<Seq<char>>::empty());
        let first = self.find_in_theme(theme.as_str(), &names, &mut seen, &mut remaining, present, read);
        let ghost ca = self.cache();
        let ghost sa = crate::text::texts(seen@);
        let ghost ba = remaining as int;
        let found = match first {
            Some(p) => Some(p),
            None => {
                let second = self.find_in_theme("hicolor", &names, &mut seen, &mut remaining, present, read);
                let ghost cb = self.cache();
                let ghost bb = remaining as int;
                match second {
                    Some(p) => Some(p),
                    None => {
                        let bases = concat_dirs(&self.roots, &self.fallback_dirs);
                        let last = find_direct(&bases, &names, &mut remaining, present);
                        proof {
                            assert(first_found_to(*present, direct_paths(roots + fallbacks, nv), bb, opt_view(last), remaining as int));
                        }
                        last
                    },
                }
            },
        };
        proof {
            reveal_strlit("hicolor");
            assert(icon_lookup(*present, *read, roots, fallbacks, theme@, nv, c0, self.cache(), opt_view(found)));
        }
        match found {
            None => None,
            Some(path) => decode_fitted(path.as_str(), decode),
        }
    }
}

/// What a settings text says of the icon theme under `key` of `section`:
/// `None` when it says nothing; a deletion or expansion flag, or an unsafe
/// name, stands for `hicolor`. An immutable value counts as a value.
pub open spec fn theme_setting(text: Seq<char>, section: Seq<char>, key: Seq<char>) -> Option<Seq<char>> {
    let es = ini_entries(text);
    if !ini_has_group(es, section) {
        None
    } else if ini_get(es, section, key + "[$d]"@) is Some || ini_get(es, section, key + "[$e]"@) is Some {
        Some("hicolor"@)
    } else {
        let value = match ini_get(es, section, key) {
            Some(v) => Some(v),
            None => ini_get(es, section, key + "[$i]"@),
        };
        match value {
            None => None,
            Some(v) => Some(if is_safe_theme(v) { v } else { "hicolor"@ }),
        }
    }
}

fn suffixed(key: &str, suffix: &str) -> (r: String)
    ensures
        r@ == key@ + suffix@,
{
    let mut out = key.to_owned();
    let extra = chars_of(suffix);
    let mut i: usize = 0;
    while i < extra.len()
        invariant
            i <= extra@.len(),
            extra@ == suffix@,
            out@ == key@ + extra@.take(i as int),
        decreases extra@.len() - i,
    {
        out.push(extra[i]);
        i += 1;
        assert(out@ =~= key@ + extra@.take(i as int));
    }
    assert(extra@.take(i as int) =~= extra@);
    out
}

pub fn theme_in_settings(text: &str, section: &str, key: &str) -> (r: Option<String>)
    ensures
        match theme_setting(text@, section@, key@) {
            None => r is None,
            Some(t) => r matches Some(s) && s@ == t,
        },
{
    let entries = ini(text);
    if !ini_group(&entries, section) {
        return None;
    }
    if ini_value(&entries, section, suffixed(key, "[$d]").as_str()).is_some() || ini_value(
        &entries,
        section,
        suffixed(key, "[$e]").as_str(),
    ).is_some() {
        return Some("hicolor".to_owned());
    }
    let value = match ini_value(&entries, section, key) {
        Some(v) => Some(v),
        None => ini_value(&entries, section, suffixed(key, "[$i]").as_str()),
    };
    match value {
        None => None,
        Some(v) => Some(if safe_theme(v.as_str()) { v } else { "hicolor".to_owned() }),
    }
}

/// The settings files consulted for the icon theme, in order: KDE's, then
/// GTK 4's and GTK 3's, each with its section and key.
pub open spec fn theme_sources() -> Seq<(Seq<char>, Seq<char>, Seq<char>)> {
    seq![
        ("kdeglobals"@, "Icons"@, "Theme"@),
        ("gtk-4.0/settings.ini"@, "Settings"@, "gtk-icon-theme-name"@),
        ("gtk-3.0/settings.ini"@, "Settings"@, "gtk-icon-theme-name"@),
    ]
}

/// The settings files of source `i` below each of `configs`, in order, each
/// with the section and key that name the theme.
pub open spec fn theme_files(configs: Seq<Seq<char>>, i: int) -> Seq<(Seq<char>, Seq<char>, Seq<char>)> {
    configs.map_values(|c: Seq<char>| (joined(c, theme_sources()[i].0), theme_sources()[i].1, theme_sources()[i].2))
}

/// Every settings file consulted, in order: KDE's below each configuration
/// directory, then GTK 4's, then GTK 3's.
pub open spec fn theme_candidates(configs: Seq<Seq<char>>) -> Seq<(Seq<char>, Seq<char>, Seq<char>)> {
    theme_files(configs, 0) + theme_files(configs, 1) + theme_files(configs, 2)
}

/// What the settings file `file` says of the theme, given what reading it gave.
pub open spec fn setting_in(file: (Seq<char>, Seq<char>, Seq<char>), bytes: Option<Seq<u8>>) -> Option<Seq<char>> {
    match metadata_text(bytes) {
        Some(text) => theme_setting(text, file.1, file.2),
        None => None,
    }
}

/// The theme that the first of `files` to say anything names, given what
/// reading the first `reads.len()` of them gave.
pub open spec fn theme_read(files: Seq<(Seq<char>, Seq<char>, Seq<char>)>, reads: Seq<Option<Seq<u8>>>) -> Option<Seq<char>>
    decreases reads.len(),
{
    if reads.len() == 0 || files.len() < reads.len() {
        None
    } else {
        match theme_read(files, reads.drop_last()) {
            Some(t) => Some(t),
            None => setting_in(files[reads.len() - 1], reads.last()),
        }
    }
}

pub open spec fn bytes_view(o: Option<Vec<u8>>) -> Option<Seq<u8>> {
    match o {
        Some(b) => Some(b@),
        None => None,
    }
}

pub open spec fn bytes_views(reads: Seq<Option<Vec<u8>>>) -> Seq<Option<Seq<u8>>> {
    reads.map_values(|o: Option<Vec<u8>>| bytes_view(o))
}

/// `reads` are, in order, what `read` gave for `args`, the first of `files`.
pub open spec fn settings_read<'a, R: Fn(&str) -> Option<Vec<u8>>>(
    read: R,
    files: Seq<(Seq<char>, Seq<char>, Seq<char>)>,
    args: Seq<&'a str>,
    reads: Seq<Option<Vec<u8>>>,
) -> bool {
    &&& reads.len() == args.len()
    &&& reads.len() <= files.len()
    &&& forall|n: int| 0 <= n < reads.len() ==> (#[trigger] args[n])@ == files[n].0 && call_ensures(read, (args[n],), reads[n])
}

/// The icon theme configured in the settings files below `configs`: the first
/// file, KDE's before GTK's and earlier directories first, that says anything
/// decides. `read` reads one settings file; files after the deciding one are
/// not read.
pub fn configured_theme<R: Fn(&str) -> Option<Vec<u8>>>(configs: &Vec<String>, read: &R) -> (r: Option<String>)
    requires
        forall|x: &str| call_requires(*read, (x,)),
    ensures
        exists|args: Seq<&str>, reads: Seq<Option<Vec<u8>>>| {
            &&& #[trigger] settings_read(*read, theme_candidates(crate::text::texts(configs@)), args, reads)
            &&& r is None ==> reads.len() == theme_candidates(crate::text::texts(configs@)).len()
            &&& opt_view(r) == theme_read(theme_candidates(crate::text::texts(configs@)), bytes_views(reads))
        },
{
    let ghost cv = crate::text::texts(configs@);
    let ghost files = theme_candidates(cv);
    let ghost k_len = configs@.len() as int;
    let sources = [
        ("kdeglobals", "Icons", "Theme"),
        ("gtk-4.0/settings.ini", "Settings", "gtk-icon-theme-name"),
        ("gtk-3.0/settings.ini", "Settings", "gtk-icon-theme-name"),
    ];
    assert(sources@[0].0@ == theme_sources()[0].0 && sources@[0].1@ == theme_sources()[0].1 && sources@[0].2@ == theme_sources()[0].2);
    assert(sources@[1].0@ == theme_sources()[1].0 && sources@[1].1@ == theme_sources()[1].1 && sources@[1].2@ == theme_sources()[1].2);
    assert(sources@[2].0@ == theme_sources()[2].0 && sources@[2].1@ == theme_sources()[2].1 && sources@[2].2@ == theme_sources()[2].2);
    assert(files.len() == 3 * k_len);
    let ghost mut args: Seq<&str> = Seq::empty();
    let ghost mut reads: Seq<Option<Vec<u8>>> = Seq::empty();
    let mut i: usize = 0;
    while i < 3
        invariant
            i <= 3,
            sources@.len() == 3,
            forall|m: int| 0 <= m < 3 ==> (#[trigger] sources@[m]).0@ == theme_sources()[m].0 && sources@[m].1@ == theme_sources()[m].1
                && sources@[m].2@ == theme_sources()[m].2,
            forall|x: &str| call_requires(*read, (x,)),
            cv == crate::text::texts(configs@),
            files == theme_candidates(cv),
            k_len == configs@.len(),
            files.len() == 3 * k_len,
            reads.len() == i * k_len,
            settings_read(*read, files, args, reads),
            theme_read(files, bytes_views(reads)) is None,
        decreases 3 - i,
    {
        let (file, section, key) = sources[i];
        let mut k: usize = 0;
        while k < configs.len()
            invariant
                k <= configs@.len(),
                i < 3,
                sources@.len() == 3,
                sources@[i as int] == (file, section, key),
                forall|m: int| 0 <= m < 3 ==> (#[trigger] sources@[m]).0@ == theme_sources()[m].0 && sources@[m].1@ == theme_sources()[m].1
                    && sources@[m].2@ == theme_sources()[m].2,
                forall|x: &str| call_requires(*read, (x,)),
                cv == crate::text::texts(configs@),
                files == theme_candidates(cv),
                k_len == configs@.len(),
                files.len() == 3 * k_len,
                reads.len() == i * k_len + k,
                settings_read(*read, files, args, reads),
                theme_read(files, bytes_views(reads)) is None,
            decreases configs@.len() - k,
        {
            let path = join(configs[k].as_str(), file);
            let p = path.as_str();
            let bytes = read(p);
            let ghost seen = bytes;
            let ghost n = reads.len() as int;
            proof {
                lemma_candidate_at(cv, i as int, k as int);
                assert(cv[k as int] == configs@[k as int]@);
                assert(files[n] == (joined(cv[k as int], theme_sources()[i as int].0), theme_sources()[i as int].1, theme_sources()[i as int].2)) by {
                    assert(i * k_len + k == n);
                }
                let before_args = args;
                let before_reads = reads;
                args = args.push(p);
                reads = reads.push(seen);
                assert forall|m: int| 0 <= m < reads.len() implies (#[trigger] args[m])@ == files[m].0 && call_ensures(*read, (args[m],), reads[m]) by {
                    if m < n {
                        assert(args[m] == before_args[m] && reads[m] == before_reads[m]);
                    }
                }
                assert(bytes_views(reads).drop_last() =~= bytes_views(before_reads));
                assert(bytes_views(reads).last() == bytes_view(seen));
            }
            let found = match text_from(bytes) {
                Some(text) => theme_in_settings(text.as_str(), section, key),
                None => None,
            };
            if found.is_some() {
                assert(theme_read(files, bytes_views(reads)) == opt_view(found));
                assert(settings_read(*read, files, args, reads));
                return found;
            }
            assert(theme_read(files, bytes_views(reads)) is None);
            k += 1;
        }
        assert((i + 1) * k_len == i * k_len + k_len) by (nonlinear_arith);
        i += 1;
    }
    None
}

proof fn lemma_candidate_at(configs: Seq<Seq<char>>, i: int, k: int)
    requires
        0 <= i < 3,
        0 <= k < configs.len(),
    ensures
        i * configs.len() + k < theme_candidates(configs).len(),
        theme_candidates(configs)[i * configs.len() + k] == (joined(configs[k], theme_sources()[i].0), theme_sources()[i].1, theme_sources()[i].2),
{
    let n = configs.len() as int;
    let a = theme_files(configs, 0);
    let b = theme_files(configs, 1);
    let c = theme_files(configs, 2);
    assert(a.len() == n && b.len() == n && c.len() == n);
    if i == 0 {
        assert(0 * n + k == k) by (nonlinear_arith);
        assert((a + b + c)[k] == a[k]);
    } else if i == 1 {
        assert(1 * n + k == n + k) by (nonlinear_arith);
        assert((a + b + c)[n + k] == (a + b)[n + k]);
        assert((a + b)[n + k] == b[k]);
    } else {
        assert(2 * n + k == 2 * n + k) by (nonlinear_arith);
        assert((a + b + c)[2 * n + k] == c[k]);
    }
}

/// The values of the environment variables that locate desktop data, as
/// given to the process; absent or unreadable variables are `None`.
pub struct Environment {
    pub home: Option<String>,
    pub config_home: Option<String>,
    pub config_dirs: Option<String>,
    pub data_home: Option<String>,
    pub data_dirs: Option<String>,
}

pub open spec fn opt_view(v: Option<String>) -> Option<Seq<char>> {
    match v {
        Some(s) => Some(s@),
        None => None,
    }
}

/// A variable's value when it is an absolute path.
pub open spec fn absolute_value(v: Option<Seq<char>>) -> Option<Seq<char>> {
    match v {
        Some(p) => if is_absolute(p) { Some(p) } else { None },
        None => None,
    }
}

pub fn absolute_env_path(v: &Option<String>) -> (r: Option<String>)
    ensures
        opt_view(r) == absolute_value(opt_view(*v)),
{
    match v {
        None => None,
        Some(p) => {
            let chars = chars_of(p.as_str());
            if chars.len() > 0 && chars[0] == '/' {
                Some(p.clone())
            } else {
                None
            }
        },
    }
}

/// The absolute paths among `ps`, in order.
pub open spec fn absolutes(ps: Seq<Seq<char>>) -> Seq<Seq<char>>
    decreases ps.len(),
{
    if ps.len() == 0 {
        Seq::empty()
    } else {
        let before = absolutes(ps.drop_last());
        if is_absolute(ps.last()) {
            before.push(ps.last())
        } else {
            before
        }
    }
}

/// The absolute paths of a colon-separated path list, `default` standing for
/// an absent or empty one.
pub open spec fn path_list(v: Option<Seq<char>>, default: Seq<char>) -> Seq<Seq<char>> {
    let value = match v {
        Some(x) => if x.len() > 0 { x } else { default },
        None => default,
    };
    absolutes(split(value, seq![':']))
}

pub fn environment_paths(v: &Option<String>, default: &str) -> (r: Vec<String>)
    ensures
        crate::text::texts(r@) == path_list(opt_view(*v), default@),
{
    let value = match v {
        Some(x) => if chars_of(x.as_str()).len() > 0 {
            x.as_str()
        } else {
            default
        },
        None => default,
    };
    let chars = chars_of(value);
    let n = chars.len();
    assert(chars@.subrange(0, n as int) =~= chars@);
    let colon = [':'];
    assert(colon@ =~= seq![':']);
    let ranges = split_ranges(&chars, 0, n, &colon);
    let ghost pieces = split(chars@, seq![':']);
    let mut out: Vec<String> = Vec::new();
    let mut k: usize = 0;
    assert(pieces.take(0) =~= Seq::<Seq<char>>::empty());
    while k < ranges.len()
        invariant
            k <= ranges@.len(),
            ranges@.len() == pieces.len(),
            n == chars@.len(),
            forall|j: int| 0 <= j < ranges@.len() ==> {
                let (a, b) = #[trigger] ranges@[j];
                &&& a <= b <= n
                &&& chars@.subrange(a as int, b as int) == pieces[j]
            },
            crate::text::texts(out@) == absolutes(pieces.take(k as int)),
        decreases ranges@.len() - k,
    {
        let (a, b) = ranges[k];
        assert(pieces.take(k + 1).drop_last() =~= pieces.take(k as int));
        assert(chars@.subrange(a as int, b as int) == pieces[k as int]);
        if a < b && chars[a] == '/' {
            let ghost before = out@;
            out.push(string_of(&chars, a, b));
            assert(crate::text::texts(out@) =~= crate::text::texts(before).push(pieces[k as int]));
        }
        k += 1;
    }
    assert(pieces.take(k as int) =~= pieces);
    out
}

/// The XDG data directories: the user's (`XDG_DATA_HOME`, else
/// `~/.local/share`) first, then the system's, each location once.
pub open spec fn data_dirs_of(env: Environment) -> Seq<Seq<char>> {
    let user: Seq<Seq<char>> = match absolute_value(opt_view(env.data_home)) {
        Some(p) => seq![p],
        None => match absolute_value(opt_view(env.home)) {
            Some(h) => seq![joined(h, ".local/share"@)],
            None => Seq::empty(),
        },
    };
    unique_paths(user + path_list(opt_view(env.data_dirs), "/usr/local/share:/usr/share"@))
}

pub fn data_directories(env: &Environment) -> (r: Vec<String>)
    ensures
        crate::text::texts(r@) == data_dirs_of(*env),
{
    let mut data: Vec<String> = Vec::new();
    let ghost expected: Seq<Seq<char>> = match absolute_value(opt_view(env.data_home)) {
        Some(p) => seq![p],
        None => match absolute_value(opt_view(env.home)) {
            Some(h) => seq![joined(h, ".local/share"@)],
            None => Seq::empty(),
        },
    };
    match absolute_env_path(&env.data_home) {
        Some(p) => {
            data.push(p);
        },
        None => match absolute_env_path(&env.home) {
            Some(h) => {
                data.push(join(h.as_str(), ".local/share"));
            },
            None => {},
        },
    }
    let ghost user = crate::text::texts(data@);
    assert(user =~= expected);
    let mut system = environment_paths(&env.data_dirs, "/usr/local/share:/usr/share");
    let ghost sys = crate::text::texts(system@);
    data.append(&mut system);
    assert(crate::text::texts(data@) =~= user + sys);
    unique_absolute(data)
}

/// `sub` below each of `dirs`.
pub open spec fn below_each(dirs: Seq<Seq<char>>, sub: Seq<char>) -> Seq<Seq<char>> {
    dirs.map_values(|d: Seq<char>| joined(d, sub))
}

pub fn join_each(dirs: &Vec<String>, sub: &str) -> (r: Vec<String>)
    ensures
        crate::text::texts(r@) == below_each(crate::text::texts(dirs@), sub@),
{
    let mut out: Vec<String> = Vec::new();
    let mut i: usize = 0;
    while i < dirs.len()
        invariant
            i <= dirs@.len(),
            crate::text::texts(out@) == below_each(crate::text::texts(dirs@), sub@).take(i as int),
        decreases dirs@.len() - i,
    {
        let ghost before = out@;
        out.push(join(dirs[i].as_str(), sub));
        assert(crate::text::texts(dirs@)[i as int] == dirs@[i as int]@);
        assert(crate::text::texts(out@) =~= crate::text::texts(before).push(joined(dirs@[i as int]@, sub@)));
        assert(crate::text::texts(out@) =~= below_each(crate::text::texts(dirs@), sub@).take(i + 1));
        i += 1;
    }
    assert(below_each(crate::text::texts(dirs@), sub@).take(i as int) =~= below_each(crate::text::texts(dirs@), sub@));
    out
}

/// The configuration directories: the user's (`XDG_CONFIG_HOME`, else
/// `~/.config`) first, then the system's.
pub open spec fn config_dirs_of(env: Environment) -> Seq<Seq<char>> {
    let user: Seq<Seq<char>> = match absolute_value(opt_view(env.config_home)) {
        Some(p) => seq![p],
        None => match absolute_value(opt_view(env.home)) {
            Some(h) => seq![joined(h, ".config"@)],
            None => Seq::empty(),
        },
    };
    user + path_list(opt_view(env.config_dirs), "/etc/xdg"@)
}

pub fn config_directories(env: &Environment) -> (r: Vec<String>)
    ensures
        crate::text::texts(r@) == config_dirs_of(*env),
{
    let mut configs: Vec<String> = Vec::new();
    match absolute_env_path(&env.config_home) {
        Some(p) => configs.push(p),
        None => match absolute_env_path(&env.home) {
            Some(h) => configs.push(join(h.as_str(), ".config")),
            None => {},
        },
    }
    let ghost user = crate::text::texts(configs@);
    let mut system = environment_paths(&env.config_dirs, "/etc/xdg");
    let ghost sys = crate::text::texts(system@);
    configs.append(&mut system);
    assert(crate::text::texts(configs@) =~= user + sys);
    configs
}

/// Icon search roots: `~/.icons`, then `icons` below each data directory.
pub open spec fn icon_roots_of(env: Environment) -> Seq<Seq<char>> {
    let home: Seq<Seq<char>> = match absolute_value(opt_view(env.home)) {
        Some(h) => seq![joined(h, ".icons"@)],
        None => Seq::empty(),
    };
    home + below_each(data_dirs_of(env), "icons"@)
}

impl IconResolver {
    /// The configured theme (KDE's setting, then GTK's) or `hicolor`,
    /// searching `~/.icons` and the XDG data roots, then `pixmaps` below them.
    /// `read` reads one settings file.
    pub fn from_environment<R: Fn(&str) -> Option<Vec<u8>>>(env: &Environment, read: &R) -> (r: Self)
        requires
            forall|x: &str| call_requires(*read, (x,)),
        ensures
            r.search_roots() == unique_paths(icon_roots_of(*env)),
            r.fallbacks() == unique_paths(below_each(data_dirs_of(*env), "pixmaps"@)),
            exists|args: Seq<&str>, reads: Seq<Option<Vec<u8>>>| {
                &&& #[trigger] settings_read(*read, theme_candidates(config_dirs_of(*env)), args, reads)
                &&& r.theme_name() == (match theme_read(theme_candidates(config_dirs_of(*env)), bytes_views(reads)) {
                    Some(t) => if is_safe_theme(t) { t } else { "hicolor"@ },
                    None => "hicolor"@,
                })
            },
    {
        let configs = config_directories(env);
        let configured = configured_theme(&configs, read);
        let ghost files = theme_candidates(config_dirs_of(*env));
        let ghost (args, reads) = choose|args: Seq<&str>, reads: Seq<Option<Vec<u8>>>| {
            &&& #[trigger] settings_read(*read, files, args, reads)
            &&& configured is None ==> reads.len() == files.len()
            &&& opt_view(configured) == theme_read(files, bytes_views(reads))
        };
        let theme = match configured {
            Some(t) => t,
            None => "hicolor".to_owned(),
        };
        let data = data_directories(env);
        let mut roots: Vec<String> = Vec::new();
        let ghost expected: Seq<Seq<char>> = match absolute_value(opt_view(env.home)) {
            Some(h) => seq![joined(h, ".icons"@)],
            None => Seq::empty(),
        };
        if let Some(home) = absolute_env_path(&env.home) {
            roots.push(join(home.as_str(), ".icons"));
        }
        let ghost home_roots = crate::text::texts(roots@);
        assert(home_roots =~= expected);
        let mut icons = join_each(&data, "icons");
        let ghost data_roots = crate::text::texts(icons@);
        roots.append(&mut icons);
        assert(crate::text::texts(roots@) =~= home_roots + data_roots);
        let fallback = join_each(&data, "pixmaps");
        let r = IconResolver::new(theme.as_str(), roots, fallback);
        assert(settings_read(*read, files, args, reads));
        r
    }
}

/// Largest PNG side decoded, in pixels.
pub const MAX_RASTER_SIDE: u32 = 1024;
/// Most bytes the PNG decoder may allocate.
pub const PNG_ALLOCATION_LIMIT: usize = 16 * 1024 * 1024;

/// The color layout of decoded PNG samples.
#[derive(Clone, Copy, Debug, PartialEq, Eq, Structural)]
pub enum PngColor {
    Grayscale,
    Rgb,
    Indexed,
    GrayscaleAlpha,
    Rgba,
}

/// The width and height that `png` reads from the header of `bytes`, with
/// palettes and low bit depths expanded and 16-bit samples stripped to 8,
/// allocating at most `limit` bytes; `None` when it refuses the data.
pub uninterp spec fn png_header_of(bytes: Seq<u8>, limit: usize) -> Option<(u32, u32)>;

/// `png::Decoder::read_header_info` on `bytes`, as `png_header_of` names it.
#[verifier::external_body]
fn png_header(bytes: &[u8], limit: usize) -> (r: Option<(u32, u32)>)
    ensures
        r == png_header_of(bytes@, limit),
{
    let mut decoder = Decoder::new_with_limits(Cursor::new(bytes), Limits { bytes: limit });
    decoder.set_transformations(Transformations::EXPAND | Transformations::STRIP_16);
    let header = decoder.read_header_info().ok()?;
    Some((header.width, header.height))
}

/// The first frame that `png` decodes from `bytes` under the same
/// transformations and allocation limit: its width, height, sample layout and
/// samples; `None` when it refuses the data.
pub uninterp spec fn png_frame_of(bytes: Seq<u8>, limit: usize) -> Option<(u32, u32, PngColor, Seq<u8>)>;

/// `png::Reader::next_frame` on `bytes`, as `png_frame_of` names it.
#[verifier::external_body]
fn png_frame(bytes: &[u8], limit: usize) -> (r: Option<(u32, u32, PngColor, Vec<u8>)>)
    ensures
        match r {
            None => png_frame_of(bytes@, limit) is None,
            Some((w, h, c, d)) => png_frame_of(bytes@, limit) == Some((w, h, c, d@)),
        },
{
    let mut decoder = Decoder::new_with_limits(Cursor::new(bytes), Limits { bytes: limit });
    decoder.set_transformations(Transformations::EXPAND | Transformations::STRIP_16);
    let mut reader = decoder.read_info().ok()?;
    let mut data = vec![0; reader.output_buffer_size()?];
    let info = reader.next_frame(&mut data).ok()?;
    data.truncate(info.buffer_size());
    let color = match info.color_type {
        ColorType::Grayscale => PngColor::Grayscale,
        ColorType::Rgb => PngColor::Rgb,
        ColorType::Indexed => PngColor::Indexed,
        ColorType::GrayscaleAlpha => PngColor::GrayscaleAlpha,
        ColorType::Rgba => PngColor::Rgba,
    };
    Some((info.width, info.height, color, data))
}

/// RGBA pixels from complete RGB samples: opaque.
pub open spec fn from_rgb(d: Seq<u8>) -> Seq<u8> {
    Seq::new(((d.len() / 3) * 4) as nat, |i: int| if i % 4 < 3 { d[(i / 4) * 3 + i % 4] } else { 255u8 })
}

/// RGBA pixels from complete gray and alpha samples.
pub open spec fn from_gray_alpha(d: Seq<u8>) -> Seq<u8> {
    Seq::new(((d.len() / 2) * 4) as nat, |i: int| if i % 4 < 3 { d[(i / 4) * 2] } else { d[(i / 4) * 2 + 1] })
}

/// RGBA pixels from gray samples: opaque.
pub open spec fn from_gray(d: Seq<u8>) -> Seq<u8> {
    Seq::new((d.len() * 4) as nat, |i: int| if i % 4 < 3 { d[i / 4] } else { 255u8 })
}

/// RGBA pixels from decoded samples; palettes are never left unexpanded.
pub open spec fn rgba_pixels(color: PngColor, d: Seq<u8>) -> Option<Seq<u8>> {
    match color {
        PngColor::Rgba => Some(d),
        PngColor::Rgb => Some(from_rgb(d)),
        PngColor::GrayscaleAlpha => Some(from_gray_alpha(d)),
        PngColor::Grayscale => Some(from_gray(d)),
        PngColor::Indexed => None,
    }
}

/// RGBA pixels from decoded samples of layout `color`; trailing samples of
/// an incomplete pixel are dropped.
pub fn rgba_from(color: PngColor, data: Vec<u8>) -> (r: Option<Vec<u8>>)
    ensures
        match rgba_pixels(color, data@) {
            None => r is None,
            Some(p) => r matches Some(v) && v@ == p,
        },
{
    let channels: usize = match color {
        PngColor::Rgba => return Some(data),
        PngColor::Indexed => return None,
        PngColor::Rgb => 3,
        PngColor::GrayscaleAlpha => 2,
        PngColor::Grayscale => 1,
    };
    let ghost d = data@;
    let pixels = data.len() / channels;
    let mut out: Vec<u8> = Vec::new();
    let mut k: usize = 0;
    while k < pixels
        invariant
            d == data@,
            channels == (match color { PngColor::Rgb => 3usize, PngColor::GrayscaleAlpha => 2usize, _ => 1usize }),
            color == PngColor::Rgb || color == PngColor::GrayscaleAlpha || color == PngColor::Grayscale,
            pixels == d.len() / (channels as nat),
            k <= pixels,
            out@.len() == 4 * k,
            forall|i: int| 0 <= i < 4 * k ==> out@[i] == #[trigger] rgba_pixels(color, d)->0[i],
        decreases pixels - k,
    {
        assert(k * channels + channels <= pixels * channels) by (nonlinear_arith)
            requires
                k < pixels,
        ;
        assert(pixels * channels <= d.len()) by (nonlinear_arith)
            requires
                pixels == d.len() / (channels as nat),
                channels >= 1,
        ;
        assert(d.len() == data.len());
        assert(k * channels + channels <= d.len());
        let base = k * channels;
        let value: [u8; 4] = if channels == 3 {
            [data[base], data[base + 1], data[base + 2], 255]
        } else if channels == 2 {
            [data[base], data[base], data[base], data[base + 1]]
        } else {
            [data[base], data[base], data[base], 255]
        };
        let ghost before = out@;
        out.push(value[0]);
        out.push(value[1]);
        out.push(value[2]);
        out.push(value[3]);
        proof {
            assert forall|i: int| 0 <= i < 4 * (k + 1) implies out@[i] == #[trigger] rgba_pixels(color, d)->0[i] by {
                if i >= 4 * k {
                    assert(i / 4 == k && i % 4 == i - 4 * k);
                    if channels == 3 {
                        assert((d.len() / 3) * 4 > i) by (nonlinear_arith)
                            requires
                                pixels == d.len() / 3,
                                k < pixels,
                                i < 4 * k + 4,
                        ;
                    } else if channels == 2 {
                        assert((d.len() / 2) * 4 > i) by (nonlinear_arith)
                            requires
                                pixels == d.len() / 2,
                                k < pixels,
                                i < 4 * k + 4,
                        ;
                    }
                } else {
                    assert(out@[i] == before[i]);
                }
            }
        }
        k += 1;
    }
    proof {
        let p = rgba_pixels(color, d)->0;
        if channels == 3 {
            assert(p.len() == 4 * k);
        } else if channels == 2 {
            assert(p.len() == 4 * k);
        } else {
            assert(p.len() == 4 * k);
        }
        assert(out@ =~= p);
    }
    Some(out)
}

/// A PNG file's size and RGBA pixels: each side 1 to `MAX_RASTER_SIDE`
/// pixels as its header declares, decoded with 8-bit samples.
pub open spec fn decoded_png(bytes: Seq<u8>) -> Option<(u32, u32, Seq<u8>)> {
    match png_header_of(bytes, PNG_ALLOCATION_LIMIT) {
        None => None,
        Some((w, h)) => if w == 0 || h == 0 || w > MAX_RASTER_SIDE || h > MAX_RASTER_SIDE {
            None
        } else {
            match png_frame_of(bytes, PNG_ALLOCATION_LIMIT) {
                None => None,
                Some((fw, fh, color, samples)) => match rgba_pixels(color, samples) {
                    None => None,
                    Some(rgba) => Some((fw, fh, rgba)),
                },
            }
        },
    }
}

pub fn decode_png(bytes: &[u8]) -> (r: Option<(u32, u32, Vec<u8>)>)
    ensures
        match decoded_png(bytes@) {
            None => r is None,
            Some((w, h, p)) => r matches Some((rw, rh, v)) && rw == w && rh == h && v@ == p,
        },
{
    let (width, height) = match png_header(bytes, PNG_ALLOCATION_LIMIT) {
        None => return None,
        Some(size) => size,
    };
    if width == 0 || height == 0 || width > MAX_RASTER_SIDE || height > MAX_RASTER_SIDE {
        return None;
    }
    let (w, h, color, samples) = match png_frame(bytes, PNG_ALLOCATION_LIMIT) {
        None => return None,
        Some(frame) => frame,
    };
    match rgba_from(color, samples) {
        None => None,
        Some(rgba) => Some((w, h, rgba)),
    }
}

} // verus!
