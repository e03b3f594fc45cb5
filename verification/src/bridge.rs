//! Text framing for the host-language bridge: base64 for binary values and
//! the small JSON documents that the bridge hands back.

use vstd::prelude::*;
use crate::text::{chars_of, push_char};

verus! {

/// The base64 digit of a 6-bit value.
pub open spec fn b64_digit(v: int) -> char {
    if v < 26 {
        ('A' as int + v) as char
    } else if v < 52 {
        ('a' as int + (v - 26)) as char
    } else if v < 62 {
        ('0' as int + (v - 52)) as char
    } else if v == 62 {
        '+'
    } else {
        '/'
    }
}

/// The four characters that encode a group of one to three bytes: the
/// bytes taken as a 24-bit number (missing bytes as zero) cut into four
/// 6-bit digits, a missing byte's last digit written as `=`.
pub open spec fn b64_group(g: Seq<u8>) -> Seq<char> {
    let b0 = g[0] as int;
    let b1 = if g.len() > 1 { g[1] as int } else { 0 };
    let b2 = if g.len() > 2 { g[2] as int } else { 0 };
    seq![
        b64_digit(b0 / 4),
        b64_digit((b0 % 4) * 16 + b1 / 16),
        if g.len() > 1 { b64_digit((b1 % 16) * 4 + b2 / 64) } else { '=' },
        if g.len() > 2 { b64_digit(b2 % 64) } else { '=' },
    ]
}

/// The standard base64 encoding (RFC 4648 alphabet, `=` padding) of `d`.
pub open spec fn base64(d: Seq<u8>) -> Seq<char>
    decreases d.len(),
{
    if d.len() == 0 {
        Seq::empty()
    } else {
        let n: int = if d.len() >= 3 { 3 } else { d.len() as int };
        b64_group(d.take(n)) + base64(d.skip(n))
    }
}

/// The base64 digit of a 6-bit value.
fn digit(v: u32) -> (c: char)
    requires
        v < 64,
    ensures
        c == b64_digit(v as int),
{
    if v < 26 {
        (('A' as u32) + v) as u8 as char
    } else if v < 52 {
        (('a' as u32) + (v - 26)) as u8 as char
    } else if v < 62 {
        (('0' as u32) + (v - 52)) as u8 as char
    } else if v == 62 {
        '+'
    } else {
        '/'
    }
}

/// The base64 encoding of `data`, as `base64` says.
pub fn base64_encode(data: &[u8]) -> (res: String)
    ensures
        res@ == base64(data@),
{
    let mut result = String::new();
    let mut i: usize = 0;
    assert(data@.skip(0) =~= data@);
    while i < data.len()
        invariant
            i <= data@.len(),
            result@ + base64(data@.skip(i as int)) == base64(data@),
        decreases data.len() - i,
    {
        let n: usize = if data.len() - i >= 3 {
            3
        } else {
            data.len() - i
        };
        let b0 = data[i] as u32;
        let b1: u32 = if n > 1 {
            data[i + 1] as u32
        } else {
            0
        };
        let b2: u32 = if n > 2 {
            data[i + 2] as u32
        } else {
            0
        };
        let triple: u32 = (b0 << 16) | (b1 << 8) | b2;
        let s0 = (triple >> 18) & 0x3F;
        let s1 = (triple >> 12) & 0x3F;
        let s2 = (triple >> 6) & 0x3F;
        let s3 = triple & 0x3F;
        assert(s0 == b0 / 4 && s1 == (b0 % 4) * 16 + b1 / 16 && s2 == (b1 % 16) * 4 + b2 / 64 && s3 == b2 % 64) by (bit_vector)
            requires
                b0 < 256,
                b1 < 256,
                b2 < 256,
                triple == (b0 << 16) | (b1 << 8) | b2,
                s0 == (triple >> 18) & 0x3F,
                s1 == (triple >> 12) & 0x3F,
                s2 == (triple >> 6) & 0x3F,
                s3 == triple & 0x3F,
        ;
        let ghost before = result@;
        push_char(&mut result, digit(s0));
        push_char(&mut result, digit(s1));
        if n > 1 {
            push_char(&mut result, digit(s2));
        } else {
            push_char(&mut result, '=');
        }
        if n > 2 {
            push_char(&mut result, digit(s3));
        } else {
            push_char(&mut result, '=');
        }
        let ghost rest = data@.skip(i as int);
        assert(rest.take(n as int)[0] == data@[i as int]);
        assert(n > 1 ==> rest.take(n as int)[1] == data@[i + 1]);
        assert(n > 2 ==> rest.take(n as int)[2] == data@[i + 2]);
        assert(result@ =~= before + b64_group(rest.take(n as int)));
        assert(rest.skip(n as int) =~= data@.skip(i + n));
        i = i + n;
    }
    assert(data@.skip(data@.len() as int) =~= Seq::<u8>::empty());
    assert(result@ + Seq::<char>::empty() =~= result@);
    result
}

/// `s` with each double quote preceded by a backslash.
pub open spec fn escape_quotes(s: Seq<char>) -> Seq<char>
    decreases s.len(),
{
    if s.len() == 0 {
        Seq::empty()
    } else if s.last() == '"' {
        escape_quotes(s.drop_last()) + seq!['\\', '"']
    } else {
        escape_quotes(s.drop_last()).push(s.last())
    }
}

/// `s` in double quotes, its double quotes escaped.
pub open spec fn quoted(s: Seq<char>) -> Seq<char> {
    seq!['"'] + escape_quotes(s) + seq!['"']
}

/// The decimal digits of `n`.
pub open spec fn decimal(n: nat) -> Seq<char>
    decreases n,
{
    if n < 10 {
        seq![('0' as int + n) as char]
    } else {
        decimal(n / 10).push(('0' as int + n % 10) as char)
    }
}

/// The parts joined with commas.
pub open spec fn join_commas(parts: Seq<Seq<char>>) -> Seq<char>
    decreases parts.len(),
{
    if parts.len() == 0 {
        Seq::empty()
    } else if parts.len() == 1 {
        parts[0]
    } else {
        join_commas(parts.drop_last()) + seq![','] + parts.last()
    }
}

/// A JSON array of the given element texts.
pub open spec fn json_array(parts: Seq<Seq<char>>) -> Seq<char> {
    seq!['['] + join_commas(parts) + seq![']']
}

/// The answer to a lookup: whether the key was found, and its value in base64.
pub open spec fn found_json(value: Option<Seq<u8>>) -> Seq<char> {
    match value {
        Some(v) => "{\"found\":true,\"value\":\""@ + base64(v) + "\"}"@,
        None => "{\"found\":false,\"value\":\"\"}"@,
    }
}

/// A JSON array of suggestions, each a quoted string.
pub open spec fn suggestions_json(items: Seq<Seq<char>>) -> Seq<char> {
    json_array(items.map_values(|t: Seq<char>| quoted(t)))
}

/// The JSON object of one fuzzy hit.
pub open spec fn hit_json(id: u64, text: Seq<char>) -> Seq<char> {
    "{\"id\":"@ + decimal(id as nat) + ",\"text\":"@ + quoted(text) + "}"@
}

/// A JSON array of fuzzy hits.
pub open spec fn hits_json(items: Seq<(u64, Seq<char>)>) -> Seq<char> {
    json_array(items.map_values(|h: (u64, Seq<char>)| hit_json(h.0, h.1)))
}

/// Append `s` in double quotes, its double quotes escaped.
fn push_quoted(out: &mut String, s: &str)
    ensures
        final(out)@ == old(out)@ + quoted(s@),
{
    let cs = chars_of(s);
    let ghost start = out@;
    push_char(out, '"');
    let mut i: usize = 0;
    assert(cs@.take(0) =~= Seq::<char>::empty());
    while i < cs.len()
        invariant
            i <= cs@.len(),
            cs@ == s@,
            out@ == start + seq!['"'] + escape_quotes(cs@.take(i as int)),
        decreases cs.len() - i,
    {
        let c = cs[i];
        assert(cs@.take(i + 1).drop_last() =~= cs@.take(i as int));
        if c == '"' {
            push_char(out, '\\');
            push_char(out, '"');
            assert(out@ =~= start + seq!['"'] + escape_quotes(cs@.take(i + 1)));
        } else {
            push_char(out, c);
            assert(out@ =~= start + seq!['"'] + escape_quotes(cs@.take(i + 1)));
        }
        i = i + 1;
    }
    assert(cs@.take(cs@.len() as int) =~= cs@);
    push_char(out, '"');
    assert(out@ =~= start + quoted(s@));
}

/// Append the decimal digits of `n`.
pub fn push_decimal(out: &mut String, n: u64)
    ensures
        final(out)@ == old(out)@ + decimal(n as nat),
    decreases n,
{
    if n >= 10 {
        push_decimal(out, n / 10);
    }
    let d = (n % 10) as u32;
    let c = (('0' as u32) + d) as u8 as char;
    push_char(out, c);
    proof {
        if n < 10 {
            assert(decimal(n as nat) =~= seq![c]);
        }
    }
}

/// The answer to a lookup, as `found_json` says.
pub fn lookup_json(value: &Option<Vec<u8>>) -> (res: String)
    ensures
        res@ == found_json(match value {
            Some(v) => Some(v@),
            None => None,
        }),
{
    match value {
        Some(v) => {
            let mut out = String::from_str("{\"found\":true,\"value\":\"");
            let enc = base64_encode(v.as_slice());
            out.append(enc.as_str());
            out.append("\"}");
            out
        },
        None => String::from_str("{\"found\":false,\"value\":\"\"}"),
    }
}

/// A JSON array of suggestions, as `suggestions_json` says.
pub fn suggestions_to_json(items: &Vec<String>) -> (res: String)
    ensures
        res@ == suggestions_json(crate::text::string_views(items@)),
{
    let ghost parts = crate::text::string_views(items@).map_values(|t: Seq<char>| quoted(t));
    let mut out = String::new();
    push_char(&mut out, '[');
    let mut i: usize = 0;
    assert(parts.take(0) =~= Seq::<Seq<char>>::empty());
    while i < items.len()
        invariant
            i <= items@.len(),
            parts == crate::text::string_views(items@).map_values(|t: Seq<char>| quoted(t)),
            out@ == seq!['['] + join_commas(parts.take(i as int)),
        decreases items.len() - i,
    {
        let ghost before = out@;
        if i > 0 {
            push_char(&mut out, ',');
        }
        push_quoted(&mut out, items[i].as_str());
        assert(parts[i as int] == quoted(items@[i as int]@));
        assert(parts.take(i + 1).drop_last() =~= parts.take(i as int));
        if i == 0 {
            assert(join_commas(parts.take(1)) == parts[0]);
        }
        assert(out@ =~= seq!['['] + join_commas(parts.take(i + 1)));
        i = i + 1;
    }
    push_char(&mut out, ']');
    assert(parts.take(parts.len() as int) =~= parts);
    assert(out@ =~= json_array(parts));
    out
}

/// The fuzzy hits as pairs of id and text characters.
pub open spec fn hit_views(items: Seq<(u64, String)>) -> Seq<(u64, Seq<char>)> {
    items.map_values(|h: (u64, String)| (h.0, h.1@))
}

/// A JSON array of fuzzy hits, as `hits_json` says.
pub fn hits_to_json(items: &Vec<(u64, String)>) -> (res: String)
    ensures
        res@ == hits_json(hit_views(items@)),
{
    let ghost parts = hit_views(items@).map_values(|h: (u64, Seq<char>)| hit_json(h.0, h.1));
    let mut out = String::new();
    push_char(&mut out, '[');
    let mut i: usize = 0;
    assert(parts.take(0) =~= Seq::<Seq<char>>::empty());
    while i < items.len()
        invariant
            i <= items@.len(),
            parts == hit_views(items@).map_values(|h: (u64, Seq<char>)| hit_json(h.0, h.1)),
            out@ == seq!['['] + join_commas(parts.take(i as int)),
        decreases items.len() - i,
    {
        let ghost before = out@;
        if i > 0 {
            push_char(&mut out, ',');
        }
        let ghost mid = out@;
        out.append("{\"id\":");
        push_decimal(&mut out, items[i].0);
        out.append(",\"text\":");
        push_quoted(&mut out, items[i].1.as_str());
        out.append("}");
        assert(parts[i as int] == hit_json(items@[i as int].0, items@[i as int].1@));
        assert(out@ =~= mid + hit_json(items@[i as int].0, items@[i as int].1@));
        assert(parts.take(i + 1).drop_last() =~= parts.take(i as int));
        if i == 0 {
            assert(join_commas(parts.take(1)) == parts[0]);
        }
        assert(out@ =~= seq!['['] + join_commas(parts.take(i + 1)));
        i = i + 1;
    }
    push_char(&mut out, ']');
    assert(parts.take(parts.len() as int) =~= parts);
    assert(out@ =~= json_array(parts));
    out
}

/// Every three bytes, or fewer at the end, become four characters.
pub proof fn law_base64_length(d: Seq<u8>)
    ensures
        base64(d).len() == 4 * ((d.len() + 2) / 3),
    decreases d.len(),
{
    if d.len() > 0 {
        let n: int = if d.len() >= 3 { 3 } else { d.len() as int };
        law_base64_length(d.skip(n));
        assert(b64_group(d.take(n)).len() == 4);
    }
}

} // verus!
