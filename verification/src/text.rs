//! Character-level views of text shared by the metadata parsers.
use vstd::prelude::*;
use vstd::utf8::*;

verus! {

/// Unicode general category Cc: the C0 and C1 control codes.
pub open spec fn control_char(c: char) -> bool {
    (c as u32) <= 0x1f || (0x7f <= (c as u32) && (c as u32) <= 0x9f)
}

/// The Unicode `White_Space` property.
pub open spec fn white_space(c: char) -> bool {
    let v = c as u32;
    ||| (0x09 <= v && v <= 0x0d)
    ||| v == 0x20
    ||| v == 0x85
    ||| v == 0xa0
    ||| v == 0x1680
    ||| (0x2000 <= v && v <= 0x200a)
    ||| v == 0x2028
    ||| v == 0x2029
    ||| v == 0x202f
    ||| v == 0x205f
    ||| v == 0x3000
}

/// Whether `c` is a control character (Unicode general category Cc).
pub fn is_control(c: char) -> (r: bool)
    ensures
        r == control_char(c),
{
    let v = c as u32;
    v <= 0x1f || (0x7f <= v && v <= 0x9f)
}

/// Whether `c` has the Unicode `White_Space` property.
pub fn is_white_space(c: char) -> (r: bool)
    ensures
        r == white_space(c),
{
    let v = c as u32;
    (0x09 <= v && v <= 0x0d) || v == 0x20 || v == 0x85 || v == 0xa0 || v == 0x1680
        || (0x2000 <= v && v <= 0x200a) || v == 0x2028 || v == 0x2029 || v == 0x202f
        || v == 0x205f || v == 0x3000
}

/// `String::push` appends one character.
pub assume_specification[ String::push ](s: &mut String, ch: char)
    ensures
        final(s)@ == old(s)@.push(ch),
;

/// No character of `s` is a control character.
pub open spec fn no_controls(s: Seq<char>) -> bool {
    forall|i: int| 0 <= i < s.len() ==> !control_char(#[trigger] s[i])
}

/// Number of UTF-8 bytes that encode `c`.
pub open spec fn char_width(c: char) -> nat {
    let v = c as u32;
    if v <= 0x7f {
        1
    } else if v <= 0x7ff {
        2
    } else if v <= 0xffff {
        3
    } else {
        4
    }
}

/// Number of UTF-8 bytes that encode `s`.
pub open spec fn byte_len(s: Seq<char>) -> nat
    decreases s.len(),
{
    if s.len() == 0 {
        0
    } else {
        char_width(s[0]) + byte_len(s.drop_first())
    }
}

pub(crate) proof fn lemma_encode_scalar_len(c: char)
    ensures
        encode_scalar(c as u32).len() == char_width(c),
{
    char_is_scalar(c);
}

/// The byte length of a `str` is the UTF-8 length of its characters.
pub(crate) proof fn lemma_encode_len(s: Seq<char>)
    ensures
        encode_utf8(s).len() == byte_len(s),
    decreases s.len(),
{
    if s.len() > 0 {
        lemma_encode_scalar_len(s[0]);
        lemma_encode_len(s.drop_first());
    }
}

pub(crate) proof fn lemma_byte_len_push(s: Seq<char>, c: char)
    ensures
        byte_len(s.push(c)) == byte_len(s) + char_width(c),
    decreases s.len(),
{
    if s.len() == 0 {
        assert(s.push(c).drop_first() =~= Seq::<char>::empty());
        reveal_with_fuel(byte_len, 2);
    } else {
        assert(s.push(c).drop_first() =~= s.drop_first().push(c));
        lemma_byte_len_push(s.drop_first(), c);
    }
}

pub(crate) proof fn lemma_byte_len_append(a: Seq<char>, b: Seq<char>)
    ensures
        byte_len(a + b) == byte_len(a) + byte_len(b),
    decreases b.len(),
{
    if b.len() == 0 {
        assert(a + b =~= a);
    } else {
        lemma_byte_len_append(a, b.drop_last());
        assert(a + b =~= (a + b.drop_last()).push(b.last()));
        assert(b =~= b.drop_last().push(b.last()));
        lemma_byte_len_push(a + b.drop_last(), b.last());
        lemma_byte_len_push(b.drop_last(), b.last());
    }
}


/// `s` without leading whitespace.
pub open spec fn trim_start(s: Seq<char>) -> Seq<char>
    decreases s.len(),
{
    if s.len() > 0 && white_space(s[0]) {
        trim_start(s.drop_first())
    } else {
        s
    }
}

/// `s` without trailing whitespace.
pub open spec fn trim_end(s: Seq<char>) -> Seq<char>
    decreases s.len(),
{
    if s.len() > 0 && white_space(s.last()) {
        trim_end(s.drop_last())
    } else {
        s
    }
}

/// `s` without surrounding whitespace, as `str::trim` gives it.
pub open spec fn trim(s: Seq<char>) -> Seq<char> {
    trim_end(trim_start(s))
}

/// Bounds of `chars[start..end]` once surrounding whitespace is removed.
pub fn trim_bounds(chars: &[char], start: usize, end: usize) -> (r: (usize, usize))
    requires
        start <= end <= chars@.len(),
    ensures
        start <= r.0 <= r.1 <= end,
        chars@.subrange(r.0 as int, r.1 as int) == trim(chars@.subrange(start as int, end as int)),
{
    let mut a = start;
    while a < end && is_white_space(chars[a])
        invariant
            start <= a <= end <= chars@.len(),
            trim_start(chars@.subrange(start as int, end as int)) == trim_start(
                chars@.subrange(a as int, end as int),
            ),
        decreases end - a,
    {
        assert(chars@.subrange(a as int, end as int).drop_first() =~= chars@.subrange(
            a + 1,
            end as int,
        ));
        a += 1;
    }
    assert(trim_start(chars@.subrange(a as int, end as int)) == chars@.subrange(
        a as int,
        end as int,
    ));
    let mut b = end;
    while b > a && is_white_space(chars[b - 1])
        invariant
            start <= a <= b <= end <= chars@.len(),
            trim(chars@.subrange(start as int, end as int)) == trim_end(
                chars@.subrange(a as int, b as int),
            ),
        decreases b - a,
    {
        assert(chars@.subrange(a as int, b as int).drop_last() =~= chars@.subrange(
            a as int,
            b - 1,
        ));
        b -= 1;
    }
    (a, b)
}

/// Strict lexicographic order of character sequences by code point, which is
/// also the byte order of their UTF-8 encodings.
pub open spec fn lex_lt(a: Seq<char>, b: Seq<char>) -> bool
    decreases a.len(),
{
    if a.len() == 0 {
        b.len() > 0
    } else if b.len() == 0 {
        false
    } else if a[0] != b[0] {
        (a[0] as u32) < (b[0] as u32)
    } else {
        lex_lt(a.drop_first(), b.drop_first())
    }
}

pub(crate) proof fn lemma_lex_trichotomy(a: Seq<char>, b: Seq<char>)
    ensures
        lex_lt(a, b) || lex_lt(b, a) || a == b,
        !(lex_lt(a, b) && lex_lt(b, a)),
        !lex_lt(a, a),
    decreases a.len(),
{
    if a.len() > 0 {
        lemma_lex_trichotomy(a.drop_first(), a.drop_first());
    }
    if a.len() > 0 && b.len() > 0 {
        lemma_lex_trichotomy(a.drop_first(), b.drop_first());
        if a[0] != b[0] {
            vstd::utf8::char_u32_cast(a[0], a[0] as u32);
            vstd::utf8::char_u32_cast(b[0], b[0] as u32);
            assert((a[0] as u32) != (b[0] as u32));
        } else if a.drop_first() == b.drop_first() {
            assert(a =~= seq![a[0]] + a.drop_first());
            assert(b =~= seq![b[0]] + b.drop_first());
        }
    } else if a.len() == 0 && b.len() == 0 {
        assert(a =~= b);
    }
}

pub(crate) proof fn lemma_lex_transitive(a: Seq<char>, b: Seq<char>, c: Seq<char>)
    requires
        lex_lt(a, b),
        lex_lt(b, c),
    ensures
        lex_lt(a, c),
    decreases a.len(),
{
    if a.len() > 0 && b.len() > 0 && c.len() > 0 {
        if a[0] == b[0] && b[0] == c[0] {
            lemma_lex_transitive(a.drop_first(), b.drop_first(), c.drop_first());
        }
    }
}

/// Whether `a` orders strictly before `b`.
pub fn str_lt(a: &str, b: &str) -> (r: bool)
    ensures
        r == lex_lt(a@, b@),
{
    let x = chars_of(a);
    let y = chars_of(b);
    let mut i: usize = 0;
    assert(x@.subrange(0, x@.len() as int) =~= x@);
    assert(y@.subrange(0, y@.len() as int) =~= y@);
    while i < x.len() && i < y.len() && x[i] == y[i]
        invariant
            i <= x@.len(),
            i <= y@.len(),
            lex_lt(x@, y@) == lex_lt(x@.subrange(i as int, x@.len() as int), y@.subrange(i as int, y@.len() as int)),
        decreases x@.len() - i,
    {
        assert(x@.subrange(i as int, x@.len() as int).drop_first() =~= x@.subrange(i + 1, x@.len() as int));
        assert(y@.subrange(i as int, y@.len() as int).drop_first() =~= y@.subrange(i + 1, y@.len() as int));
        i += 1;
    }
    if i == x.len() {
        i < y.len()
    } else if i == y.len() {
        false
    } else {
        (x[i] as u32) < (y[i] as u32)
    }
}

/// Whether two texts hold the same characters.
pub fn str_eq(a: &str, b: &str) -> (r: bool)
    ensures
        r == (a@ == b@),
{
    let x = chars_of(a);
    let y = chars_of(b);
    if x.len() != y.len() {
        assert(x@.len() != y@.len());
        return false;
    }
    let mut i: usize = 0;
    while i < x.len()
        invariant
            i <= x@.len(),
            x@.len() == y@.len(),
            x@ == a@,
            y@ == b@,
            x@.subrange(0, i as int) == y@.subrange(0, i as int),
        decreases x@.len() - i,
    {
        if x[i] != y[i] {
            assert(x@[i as int] != y@[i as int]);
            return false;
        }
        assert(x@.subrange(0, i + 1) =~= x@.subrange(0, i as int).push(x@[i as int]));
        assert(y@.subrange(0, i + 1) =~= y@.subrange(0, i as int).push(y@[i as int]));
        i += 1;
    }
    assert(x@ =~= x@.subrange(0, i as int));
    assert(y@ =~= y@.subrange(0, i as int));
    true
}

/// The characters of `s`, in order.
pub fn chars_of(s: &str) -> (out: Vec<char>)
    ensures
        out@ == s@,
{
    let mut out: Vec<char> = Vec::new();
    for c in it: s.chars()
        invariant
            out@ == it.seq().take(it.index() as int),
            it.seq() == s@,
    {
        out.push(c);
    }
    out
}

/// A string holding exactly the characters `chars[start..end]`.
pub fn string_of(chars: &[char], start: usize, end: usize) -> (out: String)
    requires
        start <= end <= chars@.len(),
    ensures
        out@ == chars@.subrange(start as int, end as int),
{
    let mut out = String::new();
    let mut i = start;
    while i < end
        invariant
            start <= i <= end <= chars@.len(),
            out@ == chars@.subrange(start as int, i as int),
        decreases end - i,
    {
        out.push(chars[i]);
        i += 1;
        assert(out@ =~= chars@.subrange(start as int, i as int));
    }
    out
}

/// Byte length of `chars[start..end]` in UTF-8.
pub fn utf8_len(chars: &[char], start: usize, end: usize) -> (n: usize)
    requires
        start <= end <= chars@.len(),
        byte_len(chars@.subrange(start as int, end as int)) <= usize::MAX,
    ensures
        n == byte_len(chars@.subrange(start as int, end as int)),
{
    let mut n: usize = 0;
    let mut i = start;
    while i < end
        invariant
            start <= i <= end <= chars@.len(),
            n == byte_len(chars@.subrange(start as int, i as int)),
            byte_len(chars@.subrange(start as int, end as int)) <= usize::MAX,
        decreases end - i,
    {
        proof {
            assert(chars@.subrange(start as int, i + 1) =~= chars@.subrange(start as int, i as int).push(chars@[i as int]));
            lemma_byte_len_push(chars@.subrange(start as int, i as int), chars@[i as int]);
            assert(chars@.subrange(start as int, end as int) =~= chars@.subrange(start as int, i + 1) + chars@.subrange(i + 1, end as int));
            lemma_byte_len_append(chars@.subrange(start as int, i + 1), chars@.subrange(i + 1, end as int));
        }
        let c = chars[i];
        let w: usize = if (c as u32) <= 0x7f { 1 } else if (c as u32) <= 0x7ff { 2 } else if (c as u32) <= 0xffff { 3 } else { 4 };
        n = n + w;
        i += 1;
    }
    n
}

} // verus!

verus! {

/// Views of a list of strings.
pub open spec fn texts(v: Seq<String>) -> Seq<Seq<char>> {
    v.map_values(|s: String| s@)
}

/// Every text orders strictly before each later one.
pub open spec fn strictly_sorted(v: Seq<Seq<char>>) -> bool {
    forall|i: int, j: int| 0 <= i < j < v.len() ==> lex_lt(#[trigger] v[i], #[trigger] v[j])
}

pub(crate) proof fn lemma_contains_push<A>(s: Seq<A>, x: A, t: A)
    ensures
        s.push(x).contains(t) <==> (s.contains(t) || t == x),
{
    if s.push(x).contains(t) {
        let k = choose|k: int| 0 <= k < s.push(x).len() && s.push(x)[k] == t;
        if k < s.len() {
            assert(s[k] == t);
        }
    }
    if s.contains(t) {
        let k = choose|k: int| 0 <= k < s.len() && s[k] == t;
        assert(s.push(x)[k] == t);
    }
    if t == x {
        assert(s.push(x)[s.len() as int] == t);
    }
}

/// The distinct texts of `items`, in ascending order (what `sort_unstable`
/// followed by `dedup` leaves).
pub fn sorted_distinct(items: Vec<String>) -> (out: Vec<String>)
    ensures
        strictly_sorted(texts(out@)),
        forall|t: Seq<char>| texts(out@).contains(t) <==> texts(items@).contains(t),
{
    let mut out: Vec<String> = Vec::new();
    let mut n: usize = 0;
    while n < items.len()
        invariant
            n <= items@.len(),
            strictly_sorted(texts(out@)),
            forall|t: Seq<char>|
                texts(out@).contains(t) <==> texts(items@.subrange(0, n as int)).contains(t),
        decreases items@.len() - n,
    {
        let item = &items[n];
        let mut p: usize = 0;
        while p < out.len() && str_lt(out[p].as_str(), item.as_str())
            invariant
                p <= out@.len(),
                forall|k: int| 0 <= k < p ==> lex_lt(#[trigger] out@[k]@, item@),
            decreases out@.len() - p,
        {
            p += 1;
        }
        let ghost before = out@;
        assert(items@.subrange(0, n + 1) =~= items@.subrange(0, n as int).push(items@[n as int]));
        assert(texts(items@.subrange(0, n + 1)) =~= texts(items@.subrange(0, n as int)).push(item@));
        if p < out.len() && str_eq(out[p].as_str(), item.as_str()) {
            assert forall|t: Seq<char>|
                texts(out@).contains(t) <==> texts(items@.subrange(0, n + 1)).contains(t) by {
                lemma_contains_push(texts(items@.subrange(0, n as int)), item@, t);
                if t == item@ {
                    assert(texts(out@)[p as int] == t);
                }
            }
        } else {
            proof {
                if p < out@.len() {
                    lemma_lex_trichotomy(out@[p as int]@, item@);
                }
                assert forall|j: int| p <= j < before.len() implies lex_lt(
                    item@,
                    #[trigger] before[j]@,
                ) by {
                    if j > p {
                        assert(lex_lt(texts(before)[p as int], texts(before)[j]));
                        lemma_lex_transitive(item@, before[p as int]@, before[j]@);
                    }
                }
            }
            out.insert(p, item.clone());
            proof {
                assert(texts(out@) =~= texts(before).insert(p as int, item@));
                assert forall|i: int, j: int| 0 <= i < j < texts(out@).len() implies lex_lt(
                    #[trigger] texts(out@)[i],
                    #[trigger] texts(out@)[j],
                ) by {
                    if i < p && j > p {
                        assert(lex_lt(before[i]@, item@));
                        assert(lex_lt(item@, before[j - 1]@));
                        lemma_lex_transitive(before[i]@, item@, before[j - 1]@);
                    } else if i < p && j < p {
                        assert(lex_lt(texts(before)[i], texts(before)[j]));
                    } else if i > p {
                        assert(lex_lt(texts(before)[i - 1], texts(before)[j - 1]));
                    }
                }
                assert forall|t: Seq<char>|
                    texts(out@).contains(t) <==> texts(items@.subrange(0, n + 1)).contains(t) by {
                    lemma_contains_push(texts(items@.subrange(0, n as int)), item@, t);
                    if texts(out@).contains(t) {
                        let k = choose|k: int| 0 <= k < texts(out@).len() && texts(out@)[k] == t;
                        if k < p {
                            assert(texts(before)[k] == t);
                        } else if k > p {
                            assert(texts(before)[k - 1] == t);
                        }
                    }
                    if texts(before).contains(t) {
                        let k = choose|k: int| 0 <= k < texts(before).len() && texts(before)[k] == t;
                        if k < p {
                            assert(texts(out@)[k] == t);
                        } else {
                            assert(texts(out@)[k + 1] == t);
                        }
                    }
                    if t == item@ {
                        assert(texts(out@)[p as int] == t);
                    }
                }
            }
        }
        n += 1;
    }
    assert(items@.subrange(0, n as int) =~= items@);
    out
}

} // verus!

verus! {

/// Number of UTF-8 bytes in `s`.
pub fn str_byte_len(s: &str) -> (n: usize)
    ensures
        n == byte_len(s@),
{
    proof {
        lemma_encode_len(s@);
    }
    let bytes = s.as_bytes();
    bytes.len()
}

/// Whether `chars` has no surrounding whitespace.
pub fn is_trimmed(chars: &[char]) -> (r: bool)
    ensures
        r == (trim(chars@) == chars@),
{
    let (a, b) = trim_bounds(chars, 0, chars.len());
    assert(chars@.subrange(0, chars@.len() as int) =~= chars@);
    if a == 0 && b == chars.len() {
        true
    } else {
        assert(chars@.subrange(a as int, b as int).len() != chars@.len());
        false
    }
}

/// Whether `chars[start..end]` holds no control character.
pub fn controls_absent(chars: &[char], start: usize, end: usize) -> (r: bool)
    requires
        start <= end <= chars@.len(),
    ensures
        r == no_controls(chars@.subrange(start as int, end as int)),
{
    let mut i = start;
    while i < end
        invariant
            start <= i <= end <= chars@.len(),
            forall|k: int| start <= k < i ==> !control_char(#[trigger] chars@[k]),
        decreases end - i,
    {
        if is_control(chars[i]) {
            assert(control_char(chars@.subrange(start as int, end as int)[i - start]));
            return false;
        }
        i += 1;
    }
    true
}

} // verus!

verus! {

/// The first index at or after `i` where `pat` occurs in `s`.
pub open spec fn find_from(s: Seq<char>, pat: Seq<char>, i: int) -> Option<int>
    decreases s.len() - i,
{
    if pat.len() == 0 || i < 0 || i + pat.len() > s.len() {
        None
    } else if s.subrange(i, i + pat.len()) == pat {
        Some(i)
    } else {
        find_from(s, pat, i + 1)
    }
}

/// The first index where `pat` occurs in `s`.
pub open spec fn find(s: Seq<char>, pat: Seq<char>) -> Option<int> {
    find_from(s, pat, 0)
}

pub proof fn lemma_find_from_bounds(s: Seq<char>, pat: Seq<char>, i: int)
    requires
        0 <= i,
    ensures
        find_from(s, pat, i) matches Some(k) ==> i <= k && k + pat.len() <= s.len() && s.subrange(
            k,
            k + pat.len(),
        ) == pat,
        find_from(s, pat, i) is None && pat.len() > 0 ==> forall|k: int|
            i <= k && k + pat.len() <= s.len() ==> #[trigger] s.subrange(k, k + pat.len()) != pat,
    decreases s.len() - i,
{
    if pat.len() == 0 || i + pat.len() > s.len() {
    } else if s.subrange(i, i + pat.len()) == pat {
    } else {
        lemma_find_from_bounds(s, pat, i + 1);
    }
}

} // verus!

verus! {

/// Whether `chars[at..at + pat.len()]` is `pat`.
pub fn matches_at(chars: &[char], at: usize, pat: &[char]) -> (r: bool)
    requires
        at <= chars@.len(),
    ensures
        r == (at + pat@.len() <= chars@.len() && chars@.subrange(at as int, at + pat@.len()) == pat@),
{
    let n = chars.len();
    if pat.len() > n - at {
        return false;
    }
    let mut k: usize = 0;
    while k < pat.len()
        invariant
            n == chars@.len(),
            k <= pat@.len(),
            at + pat@.len() <= chars@.len(),
            forall|j: int| 0 <= j < k ==> chars@[at + j] == #[trigger] pat@[j],
        decreases pat@.len() - k,
    {
        if chars[at + k] != pat[k] {
            assert(chars@.subrange(at as int, at + pat@.len())[k as int] != pat@[k as int]);
            return false;
        }
        k += 1;
    }
    assert(chars@.subrange(at as int, at + pat@.len()) =~= pat@);
    true
}

/// The first occurrence of `pat` in `chars[from..end]`, as an index into `chars`.
pub fn find_in(chars: &[char], from: usize, end: usize, pat: &[char]) -> (r: Option<usize>)
    requires
        from <= end <= chars@.len(),
        pat@.len() > 0,
    ensures
        r == (match find_from(chars@.subrange(0, end as int), pat@, from as int) {
            Some(k) => Some(k as usize),
            None => None::<usize>,
        }),
{
    let ghost s = chars@.subrange(0, end as int);
    let mut i = from;
    while i <= end
        invariant
            from <= i,
            end <= chars@.len(),
            pat@.len() > 0,
            s == chars@.subrange(0, end as int),
            find_from(s, pat@, from as int) == find_from(s, pat@, i as int),
        decreases end + 1 - i,
    {
        if pat.len() > end - i {
            return None;
        }
        let m = matches_at(chars, i, pat);
        assert(s.subrange(i as int, i + pat@.len()) =~= chars@.subrange(i as int, i + pat@.len()));
        if m {
            return Some(i);
        }
        assert(i < end);
        i += 1;
    }
    None
}

/// `s` split at every occurrence of `pat`, from index `i` on.
pub open spec fn split_from(s: Seq<char>, pat: Seq<char>, i: int) -> Seq<Seq<char>>
    decreases s.len() - i,
{
    if pat.len() == 0 || i < 0 || i > s.len() {
        Seq::empty()
    } else {
        proof {
            lemma_find_from_bounds(s, pat, i);
        }
        match find_from(s, pat, i) {
            Some(k) => if k < i {
                Seq::empty()
            } else {
                seq![s.subrange(i, k)] + split_from(s, pat, k + pat.len())
            },
            None => seq![s.subrange(i, s.len() as int)],
        }
    }
}

/// `s` split at every occurrence of a non-empty `pat`, as `str::split` gives it.
pub open spec fn split(s: Seq<char>, pat: Seq<char>) -> Seq<Seq<char>> {
    split_from(s, pat, 0)
}

/// The pieces of `chars[start..end]` between occurrences of `pat`, as ranges
/// of `chars`.
pub fn split_ranges(chars: &[char], start: usize, end: usize, pat: &[char]) -> (r: Vec<(usize, usize)>)
    requires
        start <= end <= chars@.len(),
        pat@.len() > 0,
    ensures
        r@.len() == split(chars@.subrange(start as int, end as int), pat@).len(),
        forall|k: int|
            0 <= k < r@.len() ==> {
                let (a, b) = #[trigger] r@[k];
                &&& start <= a <= b <= end
                &&& chars@.subrange(a as int, b as int) == split(
                    chars@.subrange(start as int, end as int),
                    pat@,
                )[k]
            },
{
    let ghost s = chars@.subrange(start as int, end as int);
    let mut out: Vec<(usize, usize)> = Vec::new();
    let mut i = start;
    loop
        invariant
            start <= i <= end <= chars@.len(),
            pat@.len() > 0,
            s == chars@.subrange(start as int, end as int),
            split(s, pat@) == out@.map_values(|p: (usize, usize)| chars@.subrange(p.0 as int, p.1 as int)) + split_from(s, pat@, i - start),
            forall|k: int| 0 <= k < out@.len() ==> {
                let (a, b) = #[trigger] out@[k];
                start <= a <= b <= end
            },
        decreases end - i,
    {
        let found = find_in(chars, i, end, pat);
        proof {
            assert(chars@.subrange(0, end as int).subrange(start as int, end as int) =~= s);
            lemma_find_shift(chars@.subrange(0, end as int), start as int, pat@, i as int);
            lemma_find_from_bounds(s, pat@, i - start);
        }
        match found {
            Some(k) => {
                proof {
                    assert(s.subrange(i - start, k - start) =~= chars@.subrange(i as int, k as int));
                }
                out.push((i, k));
                assert(out@.map_values(|p: (usize, usize)| chars@.subrange(p.0 as int, p.1 as int)) =~= 
                    out@.drop_last().map_values(|p: (usize, usize)| chars@.subrange(p.0 as int, p.1 as int)).push(chars@.subrange(i as int, k as int)));
                i = k + pat.len();
            },
            None => {
                proof {
                    assert(s.subrange(i - start, s.len() as int) =~= chars@.subrange(i as int, end as int));
                }
                out.push((i, end));
                assert(out@.map_values(|p: (usize, usize)| chars@.subrange(p.0 as int, p.1 as int)) =~= 
                    out@.drop_last().map_values(|p: (usize, usize)| chars@.subrange(p.0 as int, p.1 as int)).push(chars@.subrange(i as int, end as int)));
                assert(split(s, pat@) =~= out@.map_values(|p: (usize, usize)| chars@.subrange(p.0 as int, p.1 as int)));
                return out;
            },
        }
    }
}

/// Searching a suffix of `s` finds the same occurrence, shifted.
pub(crate) proof fn lemma_find_shift(s: Seq<char>, start: int, pat: Seq<char>, i: int)
    requires
        0 <= start <= i,
        start <= s.len(),
    ensures
        find_from(s, pat, i) == (match find_from(s.subrange(start, s.len() as int), pat, i - start) {
            Some(k) => Some(k + start),
            None => None::<int>,
        }),
    decreases s.len() - i,
{
    let t = s.subrange(start, s.len() as int);
    if pat.len() == 0 || i + pat.len() > s.len() {
    } else {
        assert(t.subrange(i - start, i - start + pat.len()) =~= s.subrange(i, i + pat.len()));
        if s.subrange(i, i + pat.len()) != pat {
            lemma_find_shift(s, start, pat, i + 1);
        }
    }
}

} // verus!

verus! {

/// A line without the carriage return of a `\r\n` ending.
pub open spec fn strip_cr(l: Seq<char>) -> Seq<char> {
    if l.len() > 0 && l.last() == '\r' {
        l.drop_last()
    } else {
        l
    }
}

/// The lines of `s` from index `i` on, as `str::lines` gives them: split at
/// `\n`, a `\r` before a `\n` dropped, no empty line after a final `\n`.
pub open spec fn lines_from(s: Seq<char>, i: int) -> Seq<Seq<char>>
    decreases s.len() - i,
{
    if i < 0 || i >= s.len() {
        Seq::empty()
    } else {
        proof {
            lemma_find_from_bounds(s, seq!['\n'], i);
        }
        match find_from(s, seq!['\n'], i) {
            Some(k) => if k < i {
                Seq::empty()
            } else {
                seq![strip_cr(s.subrange(i, k))] + lines_from(s, k + 1)
            },
            None => seq![s.subrange(i, s.len() as int)],
        }
    }
}

pub open spec fn lines(s: Seq<char>) -> Seq<Seq<char>> {
    lines_from(s, 0)
}

/// The lines of `chars`, as ranges of `chars`.
pub fn line_ranges(chars: &[char]) -> (r: Vec<(usize, usize)>)
    ensures
        r@.len() == lines(chars@).len(),
        forall|k: int|
            0 <= k < r@.len() ==> {
                let (a, b) = #[trigger] r@[k];
                &&& a <= b <= chars@.len()
                &&& chars@.subrange(a as int, b as int) == lines(chars@)[k]
            },
{
    let ghost s = chars@;
    let newline = ['\n'];
    assert(newline@ =~= seq!['\n']);
    let mut out: Vec<(usize, usize)> = Vec::new();
    let mut i: usize = 0;
    assert(chars@.subrange(0, chars@.len() as int) =~= chars@);
    while i < chars.len()
        invariant
            i <= chars@.len(),
            s == chars@,
            newline@ == seq!['\n'],
            lines(s) == out@.map_values(|p: (usize, usize)| chars@.subrange(p.0 as int, p.1 as int)) + lines_from(s, i as int),
            forall|k: int| 0 <= k < out@.len() ==> {
                let (a, b) = #[trigger] out@[k];
                a <= b <= chars@.len()
            },
        decreases chars@.len() - i,
    {
        let found = find_in(chars, i, chars.len(), &newline);
        proof {
            assert(chars@.subrange(0, chars@.len() as int) =~= s);
            lemma_find_from_bounds(s, seq!['\n'], i as int);
        }
        let (a, b, next) = match found {
            Some(k) => {
                if k > i && chars[k - 1] == '\r' {
                    (i, k - 1, k + 1)
                } else {
                    (i, k, k + 1)
                }
            },
            None => (i, chars.len(), chars.len()),
        };
        proof {
            match found {
                Some(k) => {
                    assert(strip_cr(s.subrange(i as int, k as int)) =~= chars@.subrange(a as int, b as int));
                },
                None => {
                    assert(lines_from(s, chars@.len() as int) =~= Seq::<Seq<char>>::empty());
                    assert(s.subrange(i as int, s.len() as int) =~= chars@.subrange(a as int, b as int));
                },
            }
        }
        out.push((a, b));
        assert(out@.map_values(|p: (usize, usize)| chars@.subrange(p.0 as int, p.1 as int)) =~= out@.drop_last().map_values(
            |p: (usize, usize)| chars@.subrange(p.0 as int, p.1 as int),
        ).push(chars@.subrange(a as int, b as int)));
        i = next;
    }
    assert(lines_from(s, i as int) =~= Seq::<Seq<char>>::empty());
    assert(lines(s) =~= out@.map_values(|p: (usize, usize)| chars@.subrange(p.0 as int, p.1 as int)));
    out
}

} // verus!

verus! {

#[verifier::external_type_specification]
#[verifier::external_body]
pub struct ExFromUtf8Error(std::string::FromUtf8Error);

/// `String::from_utf8` accepts exactly the well-formed UTF-8 byte sequences
/// and decodes them.
pub assume_specification[ String::from_utf8 ](vec: Vec<u8>) -> (r: Result<
    String,
    std::string::FromUtf8Error,
>)
    ensures
        r is Ok <==> valid_utf8(vec@),
        r matches Ok(s) ==> s@ == decode_utf8(vec@),
;

/// Appends the UTF-8 encoding of `c`.
pub fn push_utf8(v: &mut Vec<u8>, c: char)
    ensures
        final(v)@ == old(v)@ + encode_scalar(c as u32),
{
    proof {
        char_is_scalar(c);
    }
    let x = c as u32;
    if x <= 0x7f {
        v.push((x & 0x7f) as u8);
    } else if x <= 0x7ff {
        v.push(0xC0 | ((x >> 6) & 0x1F) as u8);
        v.push(0x80 | (x & 0x3F) as u8);
    } else if x <= 0xffff {
        v.push(0xE0 | ((x >> 12) & 0x0F) as u8);
        v.push(0x80 | ((x >> 6) & 0x3F) as u8);
        v.push(0x80 | (x & 0x3F) as u8);
    } else {
        v.push(0xF0 | ((x >> 18) & 0x7) as u8);
        v.push(0x80 | ((x >> 12) & 0x3F) as u8);
        v.push(0x80 | ((x >> 6) & 0x3F) as u8);
        v.push(0x80 | (x & 0x3F) as u8);
    }
    assert(v@ =~= old(v)@ + encode_scalar(c as u32));
}

pub(crate) proof fn lemma_encode_push(s: Seq<char>, c: char)
    ensures
        encode_utf8(s.push(c)) == encode_utf8(s) + encode_scalar(c as u32),
    decreases s.len(),
{
    if s.len() == 0 {
        assert(s.push(c).drop_first() =~= Seq::<char>::empty());
        assert(encode_utf8(Seq::<char>::empty()) =~= Seq::<u8>::empty());
        assert(encode_utf8(s.push(c)) =~= encode_scalar(c as u32));
        assert(encode_utf8(s) =~= Seq::<u8>::empty());
        assert(encode_utf8(s) + encode_scalar(c as u32) =~= encode_scalar(c as u32));
    } else {
        assert(s.push(c).drop_first() =~= s.drop_first().push(c));
        lemma_encode_push(s.drop_first(), c);
        assert(encode_utf8(s.push(c)) =~= encode_utf8(s) + encode_scalar(c as u32));
    }
}

} // verus!

verus! {

/// Whether `chars[start..end]` begins with `lit`.
pub fn starts_with_lit(chars: &[char], start: usize, end: usize, lit: &str) -> (r: bool)
    requires
        start <= end <= chars@.len(),
    ensures
        r == (lit@.len() <= end - start && chars@.subrange(start as int, start + lit@.len()) == lit@),
{
    let pat = chars_of(lit);
    if pat.len() > end - start {
        return false;
    }
    matches_at(chars, start, &pat)
}

/// Whether `chars[start..end]` ends with `lit`.
pub fn ends_with_lit(chars: &[char], start: usize, end: usize, lit: &str) -> (r: bool)
    requires
        start <= end <= chars@.len(),
    ensures
        r == (lit@.len() <= end - start && chars@.subrange(end - lit@.len(), end as int) == lit@),
{
    let pat = chars_of(lit);
    if pat.len() > end - start {
        return false;
    }
    matches_at(chars, end - pat.len(), &pat)
}

/// Whether `chars[start..end]` is `lit`.
pub fn eq_lit(chars: &[char], start: usize, end: usize, lit: &str) -> (r: bool)
    requires
        start <= end <= chars@.len(),
    ensures
        r == (chars@.subrange(start as int, end as int) == lit@),
{
    let pat = chars_of(lit);
    if pat.len() != end - start {
        assert(chars@.subrange(start as int, end as int).len() != lit@.len());
        return false;
    }
    matches_at(chars, start, &pat)
}

/// Whether `chars[a.0..a.1]` and `chars[b.0..b.1]` hold the same characters.
pub fn ranges_eq(chars: &[char], a: (usize, usize), b: (usize, usize)) -> (r: bool)
    requires
        a.0 <= a.1 <= chars@.len(),
        b.0 <= b.1 <= chars@.len(),
    ensures
        r == (chars@.subrange(a.0 as int, a.1 as int) == chars@.subrange(b.0 as int, b.1 as int)),
{
    if a.1 - a.0 != b.1 - b.0 {
        assert(chars@.subrange(a.0 as int, a.1 as int).len() != chars@.subrange(b.0 as int, b.1 as int).len());
        return false;
    }
    let mut k: usize = 0;
    while k < a.1 - a.0
        invariant
            a.0 <= a.1 <= chars@.len(),
            b.0 <= b.1 <= chars@.len(),
            a.1 - a.0 == b.1 - b.0,
            k <= a.1 - a.0,
            forall|j: int| 0 <= j < k ==> chars@[a.0 + j] == #[trigger] chars@[b.0 + j],
        decreases a.1 - a.0 - k,
    {
        if chars[a.0 + k] != chars[b.0 + k] {
            assert(chars@.subrange(a.0 as int, a.1 as int)[k as int] != chars@.subrange(b.0 as int, b.1 as int)[k as int]);
            return false;
        }
        k += 1;
    }
    assert forall|j: int| 0 <= j < a.1 - a.0 implies chars@.subrange(a.0 as int, a.1 as int)[j]
        == chars@.subrange(b.0 as int, b.1 as int)[j] by {
        assert(chars@[a.0 + j] == chars@[b.0 + j]);
    }
    assert(chars@.subrange(a.0 as int, a.1 as int) =~= chars@.subrange(b.0 as int, b.1 as int));
    true
}

/// Whether some character of `chars[start..end]` is one of `set`.
pub fn contains_any(chars: &[char], start: usize, end: usize, set: &[char]) -> (r: bool)
    requires
        start <= end <= chars@.len(),
    ensures
        r == exists|i: int| start <= i < end && set@.contains(#[trigger] chars@[i]),
{
    let mut i = start;
    while i < end
        invariant
            start <= i <= end <= chars@.len(),
            forall|k: int| start <= k < i ==> !set@.contains(#[trigger] chars@[k]),
        decreases end - i,
    {
        let mut j: usize = 0;
        while j < set.len()
            invariant
                start <= i < end <= chars@.len(),
                j <= set@.len(),
                forall|k: int| 0 <= k < j ==> set@[k] != chars@[i as int],
            decreases set@.len() - j,
        {
            if set[j] == chars[i] {
                assert(set@.contains(chars@[i as int]));
                return true;
            }
            j += 1;
        }
        i += 1;
    }
    false
}

} // verus!

verus! {

pub(crate) proof fn lemma_byte_len_at_least_len(s: Seq<char>)
    ensures
        byte_len(s) >= s.len(),
    decreases s.len(),
{
    if s.len() > 0 {
        lemma_byte_len_at_least_len(s.drop_first());
    }
}

} // verus!

verus! {

pub(crate) proof fn lemma_byte_len_at_most(s: Seq<char>)
    ensures
        byte_len(s) <= 4 * s.len(),
    decreases s.len(),
{
    if s.len() > 0 {
        lemma_byte_len_at_most(s.drop_first());
    }
}

} // verus!

verus! {

pub(crate) proof fn lemma_split_nonempty(s: Seq<char>, pat: Seq<char>)
    requires
        pat.len() > 0,
    ensures
        split(s, pat).len() >= 1,
{
    lemma_find_from_bounds(s, pat, 0);
}

/// Whether two character vectors are equal.
pub fn chars_eq(a: &[char], b: &[char]) -> (r: bool)
    ensures
        r == (a@ == b@),
{
    if a.len() != b.len() {
        assert(a@.len() != b@.len());
        return false;
    }
    let mut i: usize = 0;
    while i < a.len()
        invariant
            i <= a@.len(),
            a@.len() == b@.len(),
            forall|k: int| 0 <= k < i ==> a@[k] == b@[k],
        decreases a@.len() - i,
    {
        if a[i] != b[i] {
            return false;
        }
        i += 1;
    }
    assert(a@ =~= b@);
    true
}

} // verus!

verus! {

/// `char::from_u32` gives the character with that scalar value, or `None`
/// for surrogates and values beyond U+10FFFF.
pub assume_specification[ char::from_u32 ](i: u32) -> (r: Option<char>)
    ensures
        r is Some <==> is_scalar(i),
        r matches Some(c) ==> c as u32 == i,
;

/// Characters that well-formed UTF-16 `u` encodes, or `None` for unpaired
/// surrogates.
pub open spec fn utf16_decode(u: Seq<u16>) -> Option<Seq<char>>
    decreases u.len(),
{
    if u.len() == 0 {
        Some(Seq::empty())
    } else {
        let h = u[0];
        if h < 0xD800 || h > 0xDFFF {
            match utf16_decode(u.drop_first()) {
                Some(r) => Some(seq![(h as u32) as char] + r),
                None => None,
            }
        } else if h <= 0xDBFF && u.len() >= 2 && 0xDC00 <= u[1] && u[1] <= 0xDFFF {
            match utf16_decode(u.subrange(2, u.len() as int)) {
                Some(r) => Some(seq![(0x10000 + (h - 0xD800) * 0x400 + (u[1] - 0xDC00)) as u32 as char] + r),
                None => None,
            }
        } else {
            None
        }
    }
}

/// Decodes UTF-16 code units into characters.
pub fn decode_utf16(u: &[u16]) -> (r: Option<Vec<char>>)
    ensures
        match utf16_decode(u@) {
            Some(t) => r matches Some(v) && v@ == t,
            None => r is None,
        },
{
    let mut out: Vec<char> = Vec::new();
    let mut i: usize = 0;
    assert(u@.subrange(0, u@.len() as int) =~= u@);
    while i < u.len()
        invariant
            i <= u@.len(),
            utf16_decode(u@) == (match utf16_decode(u@.subrange(i as int, u@.len() as int)) {
                Some(r) => Some(out@ + r),
                None => None::<Seq<char>>,
            }),
        decreases u@.len() - i,
    {
        let ghost w = u@.subrange(i as int, u@.len() as int);
        let ghost before = out@;
        let h = u[i];
        if h < 0xD800 || h > 0xDFFF {
            let c = match char::from_u32(h as u32) {
                Some(c) => c,
                None => return None,
            };
            proof {
                vstd::utf8::char_u32_cast(c, h as u32);
            }
            assert(w.drop_first() =~= u@.subrange(i + 1, u@.len() as int));
            out.push(c);
            proof {
                match utf16_decode(u@.subrange(i + 1, u@.len() as int)) {
                    Some(r) => {
                        assert(before + (seq![c] + r) =~= out@ + r);
                    },
                    None => {},
                }
            }
            i += 1;
        } else if h <= 0xDBFF && i + 1 < u.len() && 0xDC00 <= u[i + 1] && u[i + 1] <= 0xDFFF {
            let l = u[i + 1];
            let v: u32 = 0x10000 + ((h - 0xD800) as u32) * 0x400 + ((l - 0xDC00) as u32);
            let c = match char::from_u32(v) {
                Some(c) => c,
                None => return None,
            };
            proof {
                vstd::utf8::char_u32_cast(c, v);
            }
            assert(w.subrange(2, w.len() as int) =~= u@.subrange(i + 2, u@.len() as int));
            out.push(c);
            proof {
                match utf16_decode(u@.subrange(i + 2, u@.len() as int)) {
                    Some(r) => {
                        assert(before + (seq![c] + r) =~= out@ + r);
                    },
                    None => {},
                }
            }
            i += 2;
        } else {
            return None;
        }
    }
    assert(utf16_decode(u@.subrange(i as int, u@.len() as int)) == Some(Seq::<char>::empty()));
    assert(out@ + Seq::<char>::empty() =~= out@);
    Some(out)
}

} // verus!
