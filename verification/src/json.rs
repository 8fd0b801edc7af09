use vstd::prelude::*;

use crate::value::CanonicalValue;

verus! {

/// The lower-case hexadecimal digit for `n`, for `0 <= n < 16`.
pub open spec fn hex_digit(n: int) -> char {
    if n == 0 { '0' }
    else if n == 1 { '1' }
    else if n == 2 { '2' }
    else if n == 3 { '3' }
    else if n == 4 { '4' }
    else if n == 5 { '5' }
    else if n == 6 { '6' }
    else if n == 7 { '7' }
    else if n == 8 { '8' }
    else if n == 9 { '9' }
    else if n == 10 { 'a' }
    else if n == 11 { 'b' }
    else if n == 12 { 'c' }
    else if n == 13 { 'd' }
    else if n == 14 { 'e' }
    else { 'f' }
}

/// How one character of a string value appears inside the canonical JSON
/// quotes: the quote, the backslash and the common control characters get a
/// two-character escape, the remaining control characters get `\u00xx`, and
/// every other character stands for itself.
pub open spec fn esc_char(c: char) -> Seq<char> {
    if c == '"' { seq!['\\', '"'] }
    else if c == '\\' { seq!['\\', '\\'] }
    else if c == '\n' { seq!['\\', 'n'] }
    else if c == '\r' { seq!['\\', 'r'] }
    else if c == '\t' { seq!['\\', 't'] }
    else if c == '\u{8}' { seq!['\\', 'b'] }
    else if c == '\u{c}' { seq!['\\', 'f'] }
    else if (c as u32) < 32 {
        seq!['\\', 'u', '0', '0', hex_digit((c as u32) as int / 16), hex_digit((c as u32) as int % 16)]
    } else {
        seq![c]
    }
}

/// The escaped body of a string value.
pub open spec fn esc_str(s: Seq<char>) -> Seq<char>
    decreases s.len(),
{
    if s.len() == 0 {
        Seq::empty()
    } else {
        esc_str(s.drop_last()) + esc_char(s.last())
    }
}

/// A string value in canonical JSON: the escaped body between quotes.
pub open spec fn json_string(s: Seq<char>) -> Seq<char> {
    seq!['"'] + esc_str(s) + seq!['"']
}

/// The canonical JSON text of a value.
pub open spec fn json_of(v: CanonicalValue) -> Seq<char>
    decreases v, 0int,
{
    match v {
        CanonicalValue::Null => seq!['n', 'u', 'l', 'l'],
        CanonicalValue::Bool(b) => if b {
            seq!['t', 'r', 'u', 'e']
        } else {
            seq!['f', 'a', 'l', 's', 'e']
        },
        CanonicalValue::Number(t) => t@,
        CanonicalValue::Text(t) => json_string(t@),
        CanonicalValue::Array(es) => seq!['['] + json_items(es@) + seq![']'],
        CanonicalValue::Object(fs) => seq!['{'] + json_members(fs@) + seq!['}'],
    }
}

/// The comma-separated bodies of an array's elements.
pub open spec fn json_items(es: Seq<CanonicalValue>) -> Seq<char>
    decreases es, 1int,
{
    if es.len() == 0 {
        Seq::empty()
    } else if es.len() == 1 {
        json_of(es[0])
    } else {
        json_items(es.drop_last()) + seq![','] + json_of(es.last())
    }
}

/// One object member: the quoted key, a colon, the value.
pub open spec fn json_member(f: (String, CanonicalValue)) -> Seq<char>
    decreases f, 0int,
{
    json_string(f.0@) + seq![':'] + json_of(f.1)
}

/// The comma-separated members of an object.
pub open spec fn json_members(fs: Seq<(String, CanonicalValue)>) -> Seq<char>
    decreases fs, 1int,
{
    if fs.len() == 0 {
        Seq::empty()
    } else if fs.len() == 1 {
        json_member(fs[0])
    } else {
        json_members(fs.drop_last()) + seq![','] + json_member(fs.last())
    }
}

/// Appends the characters of `s` to `out`.
fn push_str_chars(out: &mut Vec<char>, s: &str)
    ensures
        final(out)@ == old(out)@ + s@,
{
    let len = s.unicode_len();
    let mut i: usize = 0;
    while i < len
        invariant
            i <= len,
            len == s@.len(),
            out@ == old(out)@ + s@.take(i as int),
        decreases len - i,
    {
        let c = s.get_char(i);
        out.push(c);
        proof {
            assert(s@.take(i + 1 as int).drop_last() =~= s@.take(i as int));
            assert(out@ =~= old(out)@ + s@.take(i + 1 as int));
        }
        i += 1;
    }
    proof {
        assert(s@.take(len as int) =~= s@);
    }
}

/// The executable form of `hex_digit`.
fn hex_digit_char(n: u32) -> (r: char)
    requires
        n < 16,
    ensures
        r == hex_digit(n as int),
{
    if n == 0 { '0' }
    else if n == 1 { '1' }
    else if n == 2 { '2' }
    else if n == 3 { '3' }
    else if n == 4 { '4' }
    else if n == 5 { '5' }
    else if n == 6 { '6' }
    else if n == 7 { '7' }
    else if n == 8 { '8' }
    else if n == 9 { '9' }
    else if n == 10 { 'a' }
    else if n == 11 { 'b' }
    else if n == 12 { 'c' }
    else if n == 13 { 'd' }
    else if n == 14 { 'e' }
    else { 'f' }
}

/// Appends the escaped body of `s` to `out`.
fn push_escaped(out: &mut Vec<char>, s: &str)
    ensures
        final(out)@ == old(out)@ + esc_str(s@),
{
    let len = s.unicode_len();
    let mut i: usize = 0;
    while i < len
        invariant
            i <= len,
            len == s@.len(),
            out@ == old(out)@ + esc_str(s@.take(i as int)),
        decreases len - i,
    {
        let c = s.get_char(i);
        if c == '"' {
            out.push('\\');
            out.push('"');
        } else if c == '\\' {
            out.push('\\');
            out.push('\\');
        } else if c == '\n' {
            out.push('\\');
            out.push('n');
        } else if c == '\r' {
            out.push('\\');
            out.push('r');
        } else if c == '\t' {
            out.push('\\');
            out.push('t');
        } else if c == '\u{8}' {
            out.push('\\');
            out.push('b');
        } else if c == '\u{c}' {
            out.push('\\');
            out.push('f');
        } else if (c as u32) < 32 {
            out.push('\\');
            out.push('u');
            out.push('0');
            out.push('0');
            out.push(hex_digit_char((c as u32) / 16));
            out.push(hex_digit_char((c as u32) % 16));
        } else {
            out.push(c);
        }
        proof {
            assert(s@.take(i + 1 as int).drop_last() =~= s@.take(i as int));
            assert(s@.take(i + 1 as int).last() == s@[i as int]);
            assert(out@ =~= old(out)@ + esc_str(s@.take(i + 1 as int)));
        }
        i += 1;
    }
    proof {
        assert(s@.take(len as int) =~= s@);
    }
}

pub(crate) proof fn lemma_json_items_snoc(es: Seq<CanonicalValue>, i: int)
    requires
        0 <= i < es.len(),
    ensures
        i == 0 ==> json_items(es.take(1)) == json_of(es[0]),
        i > 0 ==> json_items(es.take(i + 1)) == json_items(es.take(i)) + seq![','] + json_of(
            es[i],
        ),
{
    assert(es.take(i + 1).drop_last() =~= es.take(i));
    assert(es.take(i + 1).last() == es[i]);
    if i == 0 {
        assert(es.take(1)[0] == es[0]);
    }
}

pub(crate) proof fn lemma_json_members_snoc(fs: Seq<(String, CanonicalValue)>, i: int)
    requires
        0 <= i < fs.len(),
    ensures
        i == 0 ==> json_members(fs.take(1)) == json_member(fs[0]),
        i > 0 ==> json_members(fs.take(i + 1)) == json_members(fs.take(i)) + seq![',']
            + json_member(fs[i]),
{
    assert(fs.take(i + 1).drop_last() =~= fs.take(i));
    assert(fs.take(i + 1).last() == fs[i]);
    if i == 0 {
        assert(fs.take(1)[0] == fs[0]);
    }
}

/// Appends the canonical JSON text of `v` to `out`.
fn write_json(v: &CanonicalValue, out: &mut Vec<char>)
    ensures
        final(out)@ == old(out)@ + json_of(*v),
    decreases *v,
{
    match v {
        CanonicalValue::Null => {
            out.push('n');
            out.push('u');
            out.push('l');
            out.push('l');
            proof {
                assert(out@ =~= old(out)@ + json_of(*v));
            }
        },
        CanonicalValue::Bool(b) => {
            if *b {
                out.push('t');
                out.push('r');
                out.push('u');
                out.push('e');
            } else {
                out.push('f');
                out.push('a');
                out.push('l');
                out.push('s');
                out.push('e');
            }
            proof {
                assert(out@ =~= old(out)@ + json_of(*v));
            }
        },
        CanonicalValue::Number(t) => {
            push_str_chars(out, t.as_str());
        },
        CanonicalValue::Text(t) => {
            out.push('"');
            push_escaped(out, t.as_str());
            out.push('"');
            proof {
                assert(out@ =~= old(out)@ + json_of(*v));
            }
        },
        CanonicalValue::Array(es) => {
            out.push('[');
            let n = es.len();
            let mut i: usize = 0;
            while i < n
                invariant
                    i <= n,
                    n == es@.len(),
                    *v == CanonicalValue::Array(*es),
                    out@ == old(out)@ + seq!['['] + json_items(es@.take(i as int)),
                decreases n - i,
            {
                if i > 0 {
                    out.push(',');
                }
                proof {
                    assert((*v)->Array_0 == *es);
                    assert(decreases_to!(*v => (*v)->Array_0));
                    assert(decreases_to!(*es => es@));
                    assert(decreases_to!(es@ => es@[i as int]));
                }
                write_json(&es[i], out);
                proof {
                    lemma_json_items_snoc(es@, i as int);
                    assert(out@ =~= old(out)@ + seq!['['] + json_items(es@.take(i + 1 as int)));
                }
                i += 1;
            }
            out.push(']');
            proof {
                assert(es@.take(n as int) =~= es@);
                assert(out@ =~= old(out)@ + json_of(*v));
            }
        },
        CanonicalValue::Object(fs) => {
            out.push('{');
            let n = fs.len();
            let mut i: usize = 0;
            while i < n
                invariant
                    i <= n,
                    n == fs@.len(),
                    *v == CanonicalValue::Object(*fs),
                    out@ == old(out)@ + seq!['{'] + json_members(fs@.take(i as int)),
                decreases n - i,
            {
                if i > 0 {
                    out.push(',');
                }
                out.push('"');
                push_escaped(out, fs[i].0.as_str());
                out.push('"');
                out.push(':');
                proof {
                    assert((*v)->Object_0 == *fs);
                    assert(decreases_to!(*v => (*v)->Object_0));
                    assert(decreases_to!(*fs => fs@));
                    assert(decreases_to!(fs@ => fs@[i as int]));
                    assert(decreases_to!(fs@[i as int] => fs@[i as int].1));
                }
                write_json(&fs[i].1, out);
                proof {
                    lemma_json_members_snoc(fs@, i as int);
                    assert(out@ =~= old(out)@ + seq!['{'] + json_members(fs@.take(i + 1 as int)));
                }
                i += 1;
            }
            out.push('}');
            proof {
                assert(fs@.take(n as int) =~= fs@);
                assert(out@ =~= old(out)@ + json_of(*v));
            }
        },
    }
}

/// Serializes a canonical value to its canonical JSON text: the textual form
/// every invocation result and every stored value takes on the wire.
pub fn to_json_text(v: &CanonicalValue) -> (r: String)
    ensures
        r@ == json_of(*v),
{
    let mut out: Vec<char> = Vec::new();
    write_json(v, &mut out);
    crate::text::string_from_chars(&out)
}

} // verus!
