//! Text primitives used by the search engine and the import scanner.
//!
//! Unicode case mapping and the alphanumeric class come from the standard
//! library. On ASCII they are short and stated here: lowercasing maps `A`-`Z`
//! to `a`-`z` and keeps every other ASCII character, and the alphanumeric
//! ASCII characters are the letters and digits. Beyond ASCII the wrappers
//! below name what they return so that the verified code can speak of it.
//! Whitespace is the short `White_Space` list.

use vstd::prelude::*;

verus! {

/// Whether every character of `s` is ASCII.
pub open spec fn is_ascii_text(s: Seq<char>) -> bool {
    forall|i: int| 0 <= i < s.len() ==> (#[trigger] s[i] as u32) < 0x80
}

/// The ASCII lowercase of a character: `A`-`Z` become `a`-`z`, every other
/// character stays.
pub open spec fn ascii_lower(c: char) -> char {
    if 0x41 <= (c as u32) <= 0x5A {
        ((c as u32) + 32) as char
    } else {
        c
    }
}

/// The ASCII uppercase of a character: `a`-`z` become `A`-`Z`, every other
/// character stays.
pub open spec fn ascii_upper(c: char) -> char {
    if 0x61 <= (c as u32) <= 0x7A {
        ((c as u32) - 32) as char
    } else {
        c
    }
}

/// Each character ASCII-lowercased.
pub open spec fn ascii_lowercase(s: Seq<char>) -> Seq<char> {
    s.map_values(|c: char| ascii_lower(c))
}

/// Each character ASCII-uppercased, as `str::to_ascii_uppercase` does.
pub open spec fn ascii_uppercase(s: Seq<char>) -> Seq<char> {
    s.map_values(|c: char| ascii_upper(c))
}

/// What `str::to_lowercase` returns for a string that is not all ASCII.
pub uninterp spec fn unicode_lowercase(s: Seq<char>) -> Seq<char>;

/// What `str::to_lowercase` returns for a string with the given characters.
pub open spec fn lowercase(s: Seq<char>) -> Seq<char> {
    if is_ascii_text(s) {
        ascii_lowercase(s)
    } else {
        unicode_lowercase(s)
    }
}

/// Whether `char::is_alphanumeric` holds of a character that is not ASCII.
pub uninterp spec fn unicode_alphanumeric(c: char) -> bool;

/// Whether an ASCII character is a letter or a digit.
pub open spec fn ascii_alphanumeric(c: char) -> bool {
    let v = c as u32;
    ||| 0x30 <= v <= 0x39
    ||| 0x41 <= v <= 0x5A
    ||| 0x61 <= v <= 0x7A
}

/// Whether `char::is_alphanumeric` holds of a character.
pub open spec fn alphanumeric(c: char) -> bool {
    if (c as u32) < 0x80 {
        ascii_alphanumeric(c)
    } else {
        unicode_alphanumeric(c)
    }
}

/// A character that ASCII lowercasing leaves as it is: ASCII and no
/// uppercase letter.
pub open spec fn lower_ascii_char(c: char) -> bool {
    (c as u32) < 0x80 && ascii_lower(c) == c
}

/// ASCII lowercasing gives an ASCII character that it leaves as it is, and
/// lowercasing an uppercased character gives its lowercase.
pub proof fn lemma_ascii_case(c: char)
    ensures
        (c as u32) < 0x80 ==> lower_ascii_char(ascii_lower(c)),
        (c as u32) < 0x80 ==> (ascii_upper(c) as u32) < 0x80,
        ascii_lower(ascii_upper(c)) == ascii_lower(c),
{
    let v = c as u32;
    if 0x41 <= v <= 0x5A {
        assert((((v + 32) as char) as u32) == v + 32);
    }
    if 0x61 <= v <= 0x7A {
        assert((((v - 32) as char) as u32) == v - 32);
        assert(((((v - 32) as char) as u32 + 32) as char) == c);
    }
}

/// The lowercase of an ASCII text is ASCII and lowercasing leaves it as it
/// is; the lowercase of its ASCII uppercase is its lowercase.
pub proof fn lemma_ascii_lowercase(s: Seq<char>)
    requires
        is_ascii_text(s),
    ensures
        is_ascii_text(lowercase(s)),
        forall|i: int| 0 <= i < lowercase(s).len() ==> lower_ascii_char(#[trigger] lowercase(s)[i]),
        lowercase(lowercase(s)) == lowercase(s),
        lowercase(ascii_uppercase(s)) == lowercase(s),
{
    let l = ascii_lowercase(s);
    assert forall|i: int| 0 <= i < l.len() implies lower_ascii_char(#[trigger] l[i]) by {
        lemma_ascii_case(s[i]);
    }
    assert(is_ascii_text(l));
    assert(ascii_lowercase(l) =~= l);
    let u = ascii_uppercase(s);
    assert forall|i: int| 0 <= i < u.len() implies (#[trigger] u[i] as u32) < 0x80 by {
        lemma_ascii_case(s[i]);
    }
    assert(ascii_lowercase(u) =~= l) by {
        assert forall|i: int| 0 <= i < l.len() implies ascii_lowercase(u)[i] == l[i] by {
            lemma_ascii_case(s[i]);
        }
    }
}

/// Whether a character has the Unicode `White_Space` property (the code
/// points that `char::is_whitespace` accepts).
pub open spec fn whitespace(c: char) -> bool {
    let v = c as u32;
    ||| 0x09 <= v <= 0x0D
    ||| v == 0x20
    ||| v == 0x85
    ||| v == 0xA0
    ||| v == 0x1680
    ||| 0x2000 <= v <= 0x200A
    ||| v == 0x2028
    ||| v == 0x2029
    ||| v == 0x202F
    ||| v == 0x205F
    ||| v == 0x3000
}

/// Calls `str::to_lowercase`. The contract claims that an ASCII string comes
/// back with `A`-`Z` mapped to `a`-`z` and every other character kept (the
/// Unicode lowercase mapping of the ASCII range), and that any other string
/// comes back as the named `unicode_lowercase` of its characters.
#[verifier::external_body]
pub(crate) fn to_lowercase(s: &str) -> (res: String)
    ensures
        res@ == lowercase(s@),
        is_ascii_text(s@) ==> res@ == ascii_lowercase(s@),
        !is_ascii_text(s@) ==> res@ == unicode_lowercase(s@),
{
    s.to_lowercase()
}

/// Calls `char::is_alphanumeric` (the Alphabetic or Numeric property). The
/// contract claims that an ASCII character is alphanumeric exactly when it is
/// a letter or a digit, and names the answer for any other character.
#[verifier::external_body]
pub(crate) fn is_alphanumeric(c: char) -> (res: bool)
    ensures
        res == alphanumeric(c),
        (c as u32) < 0x80 ==> res == ascii_alphanumeric(c),
        (c as u32) >= 0x80 ==> res == unicode_alphanumeric(c),
{
    c.is_alphanumeric()
}

/// Whether a character is whitespace, as `whitespace` says.
pub fn is_whitespace(c: char) -> (res: bool)
    ensures
        res == whitespace(c),
{
    let v = c as u32;
    (0x09 <= v && v <= 0x0D) || v == 0x20 || v == 0x85 || v == 0xA0 || v == 0x1680 || (0x2000 <= v
        && v <= 0x200A) || v == 0x2028 || v == 0x2029 || v == 0x202F || v == 0x205F || v == 0x3000
}

/// Calls `String::push`, which appends one character.
#[verifier::external_body]
pub(crate) fn push_char(s: &mut String, c: char)
    ensures
        final(s)@ == old(s)@.push(c),
{
    s.push(c)
}

/// Calls `String::from_utf8`, which keeps the bytes as the string's
/// contents when they are valid UTF-8 and fails otherwise (the error is
/// dropped); the contract claims exactly that.
#[verifier::external_body]
pub(crate) fn string_from_utf8(bytes: Vec<u8>) -> (res: Option<String>)
    ensures
        res is Some <==> vstd::utf8::valid_utf8(bytes@),
        res matches Some(s) ==> vstd::utf8::encode_utf8(s@) == bytes@,
{
    String::from_utf8(bytes).ok()
}

/// The character sequences of a sequence of strings.
pub open spec fn string_views(v: Seq<String>) -> Seq<Seq<char>> {
    v.map_values(|s: String| s@)
}

/// Number of bytes of the UTF-8 encoding of a character sequence.
pub open spec fn utf8_len(s: Seq<char>) -> nat {
    vstd::utf8::encode_utf8(s).len()
}

/// Every character takes at least one byte, and a lone character takes one
/// byte exactly when it is ASCII.
pub proof fn lemma_utf8_len(s: Seq<char>)
    ensures
        utf8_len(s) >= s.len(),
        s.len() == 1 ==> (utf8_len(s) == 1 <==> (s[0] as u32) < 0x80),
    decreases s.len(),
{
    if s.len() > 0 {
        lemma_utf8_len(s.drop_first());
        assert(vstd::utf8::encode_utf8(s) == vstd::utf8::encode_scalar(s[0] as u32)
            + vstd::utf8::encode_utf8(s.drop_first()));
        if s.len() == 1 {
            assert(s.drop_first() =~= Seq::<char>::empty());
        }
    }
}

/// Where valid UTF-8 bytes begin another valid UTF-8 sequence, the other
/// sequence has a character boundary right after them.
proof fn lemma_utf8_prefix_boundary(p: Seq<u8>, b: Seq<u8>)
    requires
        vstd::utf8::valid_utf8(p),
        vstd::utf8::valid_utf8(b),
        p.len() <= b.len(),
        b.take(p.len() as int) == p,
    ensures
        vstd::utf8::is_char_boundary(b, p.len() as int),
    decreases p.len(),
{
    if p.len() > 0 {
        assert(p[0] == b[0]);
        let l = vstd::utf8::length_of_first_scalar(p);
        assert(vstd::utf8::length_of_first_scalar(b) == l);
        let pp = vstd::utf8::pop_first_scalar(p);
        let pb = vstd::utf8::pop_first_scalar(b);
        assert(pb.take(pp.len() as int) =~= pp) by {
            assert forall|i: int| 0 <= i < pp.len() implies pb[i] == pp[i] by {
                assert(pp[i] == p[i + l]);
                assert(pb[i] == b[i + l]);
                assert(b.take(p.len() as int)[i + l] == b[i + l]);
            }
        }
        lemma_utf8_prefix_boundary(pp, pb);
    }
}

/// A text whose UTF-8 encoding begins with the encoding of `p` begins with `p`.
pub proof fn lemma_utf8_prefix(p: Seq<char>, w: Seq<char>)
    requires
        vstd::utf8::encode_utf8(p).len() <= vstd::utf8::encode_utf8(w).len(),
        vstd::utf8::encode_utf8(w).take(vstd::utf8::encode_utf8(p).len() as int)
            == vstd::utf8::encode_utf8(p),
    ensures
        p.len() <= w.len(),
        w.take(p.len() as int) == p,
{
    let pb = vstd::utf8::encode_utf8(p);
    let wb = vstd::utf8::encode_utf8(w);
    let k = pb.len() as int;
    vstd::utf8::encode_utf8_valid_utf8(p);
    vstd::utf8::encode_utf8_valid_utf8(w);
    lemma_utf8_prefix_boundary(pb, wb);
    vstd::utf8::decode_utf8_split(wb, k);
    assert(wb.subrange(0, k) =~= pb);
    vstd::utf8::encode_utf8_decode_utf8(p);
    vstd::utf8::encode_utf8_decode_utf8(w);
    let rest = vstd::utf8::decode_utf8(wb.subrange(k, wb.len() as int));
    assert(w =~= p + rest);
    assert(w.take(p.len() as int) =~= p);
}

/// Whether the UTF-8 encoding of `s` has at least two bytes.
pub fn has_two_utf8_bytes(s: &str) -> (res: bool)
    ensures
        res == (utf8_len(s@) >= 2),
{
    proof {
        lemma_utf8_len(s@);
    }
    let n = s.unicode_len();
    if n >= 2 {
        true
    } else if n == 1 {
        let c = s.get_char(0);
        (c as u32) >= 0x80
    } else {
        false
    }
}

/// The characters of `s`, in order.
pub fn chars_of(s: &str) -> (v: Vec<char>)
    ensures
        v@ == s@,
{
    let mut v: Vec<char> = Vec::new();
    for c in it: s.chars()
        invariant
            v@ == it.seq().take(it.index() as int),
    {
        v.push(c);
    }
    v
}

/// A string with the characters of `cs` from `from` up to `to`.
pub fn string_of(cs: &Vec<char>, from: usize, to: usize) -> (s: String)
    requires
        from <= to <= cs@.len(),
    ensures
        s@ == cs@.subrange(from as int, to as int),
{
    let mut s = String::new();
    let mut i = from;
    while i < to
        invariant
            from <= i <= to,
            to <= cs@.len(),
            s@ == cs@.subrange(from as int, i as int),
        decreases to - i,
    {
        push_char(&mut s, cs[i]);
        assert(cs@.subrange(from as int, i + 1) =~= cs@.subrange(from as int, i as int).push(
            cs@[i as int],
        ));
        i = i + 1;
    }
    s
}

/// `s` without its leading whitespace.
pub open spec fn trim_start_ws(s: Seq<char>) -> Seq<char>
    decreases s.len(),
{
    if s.len() > 0 && whitespace(s[0]) {
        trim_start_ws(s.drop_first())
    } else {
        s
    }
}

/// `s` without its trailing whitespace.
pub open spec fn trim_end_ws(s: Seq<char>) -> Seq<char>
    decreases s.len(),
{
    if s.len() > 0 && whitespace(s.last()) {
        trim_end_ws(s.drop_last())
    } else {
        s
    }
}

/// `s` without leading and trailing whitespace, as `str::trim` gives it.
pub open spec fn trim_ws(s: Seq<char>) -> Seq<char> {
    trim_end_ws(trim_start_ws(s))
}

/// Remove leading and trailing whitespace.
pub fn trim(s: &str) -> (res: String)
    ensures
        res@ == trim_ws(s@),
{
    let cs = chars_of(s);
    let mut start: usize = 0;
    assert(cs@.skip(0) =~= cs@);
    while start < cs.len() && is_whitespace(cs[start])
        invariant
            start <= cs@.len(),
            cs@ == s@,
            trim_start_ws(s@) == trim_start_ws(cs@.skip(start as int)),
        decreases cs.len() - start,
    {
        assert(cs@.skip(start as int).drop_first() =~= cs@.skip(start + 1));
        start = start + 1;
    }
    let ghost t = cs@.skip(start as int);
    assert(trim_start_ws(t) == t);
    let mut end: usize = cs.len();
    assert(t.take(t.len() as int) =~= t);
    while end > start && is_whitespace(cs[end - 1])
        invariant
            start <= end <= cs@.len(),
            t == cs@.skip(start as int),
            trim_end_ws(t) == trim_end_ws(cs@.subrange(start as int, end as int)),
        decreases end - start,
    {
        assert(cs@.subrange(start as int, end as int).drop_last() =~= cs@.subrange(
            start as int,
            end - 1,
        ));
        end = end - 1;
    }
    string_of(&cs, start, end)
}

/// Whether `s` begins with `prefix`.
pub fn starts_with_chars(s: &Vec<char>, prefix: &str) -> (b: bool)
    ensures
        b == (prefix@.len() <= s@.len() && s@.take(prefix@.len() as int) == prefix@),
{
    let p = chars_of(prefix);
    if p.len() > s.len() {
        return false;
    }
    let mut i: usize = 0;
    while i < p.len()
        invariant
            i <= p@.len(),
            p@.len() <= s@.len(),
            p@ == prefix@,
            s@.take(i as int) == p@.take(i as int),
        decreases p.len() - i,
    {
        if s[i] != p[i] {
            assert(s@.take(p@.len() as int)[i as int] != p@[i as int]);
            return false;
        }
        assert(s@.take(i + 1) =~= s@.take(i as int).push(s@[i as int]));
        assert(p@.take(i + 1) =~= p@.take(i as int).push(p@[i as int]));
        i = i + 1;
    }
    assert(p@.take(p@.len() as int) =~= p@);
    true
}

/// Whether `s` ends with `suffix`.
pub fn ends_with_chars(s: &Vec<char>, suffix: &Vec<char>) -> (b: bool)
    ensures
        b == (suffix@.len() <= s@.len() && s@.skip(s@.len() - suffix@.len()) == suffix@),
{
    if suffix.len() > s.len() {
        return false;
    }
    let off = s.len() - suffix.len();
    let mut i: usize = 0;
    while i < suffix.len()
        invariant
            i <= suffix@.len(),
            off + suffix@.len() == s@.len(),
            s@.len() <= usize::MAX,
            forall|j: int| 0 <= j < i ==> s@[off + j] == suffix@[j],
        decreases suffix.len() - i,
    {
        if s[off + i] != suffix[i] {
            assert(s@.skip(off as int)[i as int] != suffix@[i as int]);
            return false;
        }
        i = i + 1;
    }
    assert(s@.skip(off as int) =~= suffix@);
    true
}

/// Whether `hay` holds `needle` as a contiguous run.
pub open spec fn contains_run(hay: Seq<char>, needle: Seq<char>) -> bool {
    exists|i: int| 0 <= i && i + needle.len() <= hay.len() && #[trigger] hay.subrange(i, i + needle.len()) == needle
}

/// Whether `hay` holds `needle` as a contiguous run.
pub fn contains_chars(hay: &Vec<char>, needle: &Vec<char>) -> (b: bool)
    ensures
        b == contains_run(hay@, needle@),
{
    if needle.len() > hay.len() {
        return false;
    }
    if needle.len() == 0 {
        assert(hay@.subrange(0, 0int + needle@.len()) =~= needle@);
        assert(contains_run(hay@, needle@));
        return true;
    }
    let last = hay.len() - needle.len();
    let mut i: usize = 0;
    while i <= last
        invariant
            last + needle@.len() == hay@.len(),
            hay@.len() <= usize::MAX,
            needle@.len() >= 1,
            i <= last + 1,
            forall|k: int| 0 <= k < i ==> #[trigger] hay@.subrange(k, k + needle@.len()) != needle@,
        decreases last + 1 - i,
    {
        let mut j: usize = 0;
        let mut same = true;
        while j < needle.len() && same
            invariant
                j <= needle@.len(),
                i <= last,
                last + needle@.len() == hay@.len(),
                hay@.len() <= usize::MAX,
                forall|m: int| 0 <= m < j ==> hay@[i + m] == needle@[m],
                !same ==> j < needle@.len() && hay@[i + j] != needle@[j as int],
            decreases needle.len() - j + (if same { 1int } else { 0int }),
        {
            if hay[i + j] != needle[j] {
                same = false;
            } else {
                j = j + 1;
            }
        }
        if same {
            assert(hay@.subrange(i as int, i + needle@.len()) =~= needle@);
            return true;
        }
        assert(hay@.subrange(i as int, i + needle@.len())[j as int] != needle@[j as int]);
        i = i + 1;
    }
    assert forall|k: int| 0 <= k && k + needle@.len() <= hay@.len() implies #[trigger] hay@.subrange(k, k + needle@.len()) != needle@ by {
        assert(k < i);
    }
    false
}

} // verus!
