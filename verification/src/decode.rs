use vstd::prelude::*;

use crate::json::esc_char;
use crate::value::digit_run;
use crate::value::exp_tail;
use crate::value::frac_exp_tail;
use crate::value::is_digit;
use crate::value::num_text;
use crate::value::wf_value;
use crate::json::esc_str;
use crate::json::hex_digit;
use crate::json::json_items;
use crate::json::json_member;
use crate::json::json_members;
use crate::json::json_of;
use crate::json::json_string;
use crate::json::lemma_json_items_snoc;
use crate::json::lemma_json_members_snoc;
use crate::text::string_from_chars;
use crate::value::CanonicalValue;

verus! {

/// The characters a canonical number token is drawn from.
pub open spec fn is_num_char(c: char) -> bool {
    ('0' <= c && c <= '9') || c == '.' || c == 'e' || c == 'E' || c == '+' || c == '-'
}

fn num_char(c: char) -> (r: bool)
    ensures
        r == is_num_char(c),
{
    ('0' <= c && c <= '9') || c == '.' || c == 'e' || c == 'E' || c == '+' || c == '-'
}

/// The value of a lower-case hexadecimal digit, refusing anything else.
fn unhex(c: char) -> (r: Option<u32>)
    ensures
        r matches Some(n) ==> n < 16 && hex_digit(n as int) == c,
        r is None ==> forall|n: int| 0 <= n < 16 ==> c != hex_digit(n),
{
    if c == '0' { Some(0) }
    else if c == '1' { Some(1) }
    else if c == '2' { Some(2) }
    else if c == '3' { Some(3) }
    else if c == '4' { Some(4) }
    else if c == '5' { Some(5) }
    else if c == '6' { Some(6) }
    else if c == '7' { Some(7) }
    else if c == '8' { Some(8) }
    else if c == '9' { Some(9) }
    else if c == 'a' { Some(10) }
    else if c == 'b' { Some(11) }
    else if c == 'c' { Some(12) }
    else if c == 'd' { Some(13) }
    else if c == 'e' { Some(14) }
    else if c == 'f' { Some(15) }
    else { None }
}

/// What can follow a value in canonical JSON: nothing, or an element
/// separator, or the closer of the surrounding array or object.
spec fn value_boundary(rest: Seq<char>) -> bool {
    rest.len() == 0 || rest[0] == ',' || rest[0] == ']' || rest[0] == '}'
}

/// The shapes a canonical escape can take, and what each observed prefix of
/// one determines about the escaped character.
proof fn lemma_esc_char_shape(c: char)
    ensures
        esc_char(c).len() == 1 || esc_char(c).len() == 2 || esc_char(c).len() == 6,
        esc_char(c)[0] != '"',
        esc_char(c)[0] != '\\' ==> esc_char(c) == seq![c] && c != '"' && c != '\\' && (c as u32)
            >= 32,
        esc_char(c).len() == 1 ==> esc_char(c)[0] != '\\',
        esc_char(c).len() == 2 ==> esc_char(c)[0] == '\\' && esc_char(c)[1] != 'u' && {
            &&& (esc_char(c)[1] == '"' <==> c == '"')
            &&& (esc_char(c)[1] == '\\' <==> c == '\\')
            &&& (esc_char(c)[1] == 'n' <==> c == '\n')
            &&& (esc_char(c)[1] == 'r' <==> c == '\r')
            &&& (esc_char(c)[1] == 't' <==> c == '\t')
            &&& (esc_char(c)[1] == 'b' <==> c == '\u{8}')
            &&& (esc_char(c)[1] == 'f' <==> c == '\u{c}')
        },
        esc_char(c).len() == 6 ==> esc_char(c)[0] == '\\' && esc_char(c)[1] == 'u' && esc_char(
            c,
        )[2] == '0' && esc_char(c)[3] == '0' && esc_char(c)[4] == hex_digit(
            (c as u32) as int / 16,
        ) && esc_char(c)[5] == hex_digit((c as u32) as int % 16) && (c as u32) < 32 && (c as u32)
            != 8 && (c as u32) != 9 && (c as u32) != 10 && (c as u32) != 12 && (c as u32) != 13,
{
    if c == '\n' {
        assert(c as u32 == 10);
    }
    if c == '\r' {
        assert(c as u32 == 13);
    }
    if c == '\t' {
        assert(c as u32 == 9);
    }
    if c == '\u{8}' {
        assert(c as u32 == 8);
    }
    if c == '\u{c}' {
        assert(c as u32 == 12);
    }
}

proof fn lemma_hex_digit_inj(a: int, b: int)
    requires
        0 <= a < 16,
        0 <= b < 16,
        hex_digit(a) == hex_digit(b),
    ensures
        a == b,
{
}

proof fn lemma_esc_str_concat(a: Seq<char>, b: Seq<char>)
    ensures
        esc_str(a + b) == esc_str(a) + esc_str(b),
    decreases b.len(),
{
    if b.len() == 0 {
        assert(a + b =~= a);
        assert(esc_str(a) + esc_str(b) =~= esc_str(a));
    } else {
        assert((a + b).drop_last() =~= a + b.drop_last());
        assert((a + b).last() == b.last());
        lemma_esc_str_concat(a, b.drop_last());
        assert((esc_str(a) + esc_str(b.drop_last())) + esc_char(b.last()) =~= esc_str(a) + (
        esc_str(b.drop_last()) + esc_char(b.last())));
    }
}

proof fn lemma_esc_str_front(u: Seq<char>)
    requires
        u.len() > 0,
    ensures
        esc_str(u) == esc_char(u[0]) + esc_str(u.drop_first()),
{
    assert(u =~= seq![u[0]] + u.drop_first());
    lemma_esc_str_concat(seq![u[0]], u.drop_first());
    assert(seq![u[0]].drop_last() =~= Seq::<char>::empty());
    assert(seq![u[0]].last() == u[0]);
    assert(esc_str(Seq::<char>::empty()) == Seq::<char>::empty());
    assert(esc_str(seq![u[0]]) == esc_str(seq![u[0]].drop_last()) + esc_char(seq![u[0]].last()));
    assert(Seq::<char>::empty() + esc_char(u[0]) =~= esc_char(u[0]));
}

proof fn lemma_json_items_front(es: Seq<CanonicalValue>)
    requires
        es.len() > 0,
    ensures
        json_items(es) == json_of(es[0]) + if es.len() == 1 {
            Seq::<char>::empty()
        } else {
            seq![','] + json_items(es.drop_first())
        },
    decreases es.len(),
{
    if es.len() == 1 {
        assert(json_of(es[0]) + Seq::<char>::empty() =~= json_of(es[0]));
    } else if es.len() == 2 {
        assert(es.drop_last().len() == 1);
        assert(es.drop_last()[0] == es[0]);
        assert(es.drop_first().len() == 1);
        assert(es.drop_first()[0] == es.last());
        assert(json_of(es[0]) + (seq![','] + json_of(es.last())) =~= json_items(es.drop_last())
            + seq![','] + json_of(es.last()));
    } else {
        lemma_json_items_front(es.drop_last());
        assert(es.drop_last()[0] == es[0]);
        assert(es.drop_last().drop_first() =~= es.drop_first().drop_last());
        assert(es.drop_first().last() == es.last());
        assert(es.drop_first().len() >= 2);
        assert((json_of(es[0]) + (seq![','] + json_items(es.drop_first().drop_last()))) + seq![',']
            + json_of(es.last()) =~= json_of(es[0]) + (seq![','] + (json_items(
            es.drop_first().drop_last(),
        ) + seq![','] + json_of(es.drop_first().last()))));
    }
}

proof fn lemma_json_members_front(fs: Seq<(String, CanonicalValue)>)
    requires
        fs.len() > 0,
    ensures
        json_members(fs) == json_member(fs[0]) + if fs.len() == 1 {
            Seq::<char>::empty()
        } else {
            seq![','] + json_members(fs.drop_first())
        },
    decreases fs.len(),
{
    if fs.len() == 1 {
        assert(json_member(fs[0]) + Seq::<char>::empty() =~= json_member(fs[0]));
    } else if fs.len() == 2 {
        assert(fs.drop_last().len() == 1);
        assert(fs.drop_last()[0] == fs[0]);
        assert(fs.drop_first().len() == 1);
        assert(fs.drop_first()[0] == fs.last());
        assert(json_member(fs[0]) + (seq![','] + json_member(fs.last())) =~= json_members(
            fs.drop_last(),
        ) + seq![','] + json_member(fs.last()));
    } else {
        lemma_json_members_front(fs.drop_last());
        assert(fs.drop_last()[0] == fs[0]);
        assert(fs.drop_last().drop_first() =~= fs.drop_first().drop_last());
        assert(fs.drop_first().last() == fs.last());
        assert(fs.drop_first().len() >= 2);
        assert((json_member(fs[0]) + (seq![','] + json_members(fs.drop_first().drop_last())))
            + seq![','] + json_member(fs.last()) =~= json_member(fs[0]) + (seq![','] + (
        json_members(fs.drop_first().drop_last()) + seq![','] + json_member(
            fs.drop_first().last(),
        ))));
    }
}

proof fn lemma_digit_run_chars(s: Seq<char>)
    ensures
        0 <= digit_run(s) <= s.len(),
        forall|j: int| 0 <= j < digit_run(s) ==> is_digit(#[trigger] s[j]),
    decreases s.len(),
{
    if s.len() > 0 && is_digit(s[0]) {
        lemma_digit_run_chars(s.drop_first());
        assert(forall|j: int| 1 <= j < digit_run(s) ==> s[j] == s.drop_first()[j - 1]);
    }
}

proof fn lemma_exp_tail_chars(s: Seq<char>)
    requires
        exp_tail(s),
    ensures
        forall|j: int| 0 <= j < s.len() ==> is_num_char(#[trigger] s[j]),
{
    if s.len() > 0 {
        let t = if s.len() >= 2 && (s[1] == '+' || s[1] == '-') {
            s.subrange(2, s.len() as int)
        } else {
            s.drop_first()
        };
        lemma_digit_run_chars(t);
        assert forall|j: int| 0 <= j < s.len() implies is_num_char(#[trigger] s[j]) by {
            if j > 0 {
                if s.len() >= 2 && (s[1] == '+' || s[1] == '-') {
                    if j >= 2 {
                        assert(s[j] == t[j - 2]);
                    }
                } else {
                    assert(s[j] == t[j - 1]);
                }
            }
        }
    }
}

proof fn lemma_frac_exp_chars(s: Seq<char>)
    requires
        frac_exp_tail(s),
    ensures
        forall|j: int| 0 <= j < s.len() ==> is_num_char(#[trigger] s[j]),
{
    if s.len() > 0 {
        if s[0] == '.' {
            let t = s.drop_first();
            let k = digit_run(t);
            lemma_digit_run_chars(t);
            lemma_exp_tail_chars(t.skip(k));
            assert forall|j: int| 0 <= j < s.len() implies is_num_char(#[trigger] s[j]) by {
                if 1 <= j <= k {
                    assert(s[j] == t[j - 1]);
                } else if j > k {
                    assert(s[j] == t.skip(k)[j - 1 - k]);
                }
            }
        } else {
            lemma_exp_tail_chars(s);
        }
    }
}

proof fn lemma_num_text_chars(s: Seq<char>)
    requires
        num_text(s),
    ensures
        s.len() > 0,
        s[0] == '-' || is_digit(s[0]),
        forall|j: int| 0 <= j < s.len() ==> is_num_char(#[trigger] s[j]),
{
    let t = if s.len() > 0 && s[0] == '-' {
        s.drop_first()
    } else {
        s
    };
    let k = digit_run(t);
    lemma_digit_run_chars(t);
    lemma_frac_exp_chars(t.skip(k));
    let off: int = if s.len() > 0 && s[0] == '-' {
        1
    } else {
        0
    };
    assert forall|j: int| 0 <= j < s.len() implies is_num_char(#[trigger] s[j]) by {
        if j >= off {
            if j - off < k {
                assert(s[j] == t[j - off]);
            } else {
                assert(s[j] == t.skip(k)[j - off - k]);
            }
        }
    }
}

/// The first character and the positive length of every well-formed value's
/// canonical text, by variant.
proof fn lemma_json_head(v: CanonicalValue)
    requires
        wf_value(v),
    ensures
        json_of(v).len() > 0,
        v is Null ==> json_of(v) == seq!['n', 'u', 'l', 'l'],
        v matches CanonicalValue::Bool(b) && b ==> json_of(v) == seq!['t', 'r', 'u', 'e'],
        v matches CanonicalValue::Bool(b) && !b ==> json_of(v) == seq!['f', 'a', 'l', 's', 'e'],
        v is Number ==> (json_of(v)[0] == '-' || is_digit(json_of(v)[0])),
        v is Text ==> json_of(v)[0] == '"',
        v is Array ==> json_of(v)[0] == '[',
        v is Object ==> json_of(v)[0] == '{',
{
    match v {
        CanonicalValue::Number(t) => {
            lemma_num_text_chars(t@);
        },
        CanonicalValue::Text(t) => {
            assert(json_of(v)[0] == '"');
        },
        CanonicalValue::Array(es) => {
            assert(json_of(v)[0] == '[');
        },
        CanonicalValue::Object(fs) => {
            assert(json_of(v)[0] == '{');
        },
        _ => {},
    }
}

/// What the text looks like at a position inside a canonical string body: if
/// the whole suffix at `i` is a quoted string followed by `rest`, and `acc` is
/// the decoded prefix so far, then the next characters are either the closing
/// quote (body done) or exactly the escape of the next body character.
proof fn lemma_string_step(
    sv: Seq<char>,
    i: int,
    k: int,
    acc: Seq<char>,
    t: Seq<char>,
    rest: Seq<char>,
)
    requires
        0 <= i,
        i + 1 <= k <= sv.len(),
        sv.skip(i) == json_string(t) + rest,
        acc.len() <= t.len(),
        acc == t.take(acc.len() as int),
        sv.skip(k) == esc_str(t.skip(acc.len() as int)) + seq!['"'] + rest,
    ensures
        k < sv.len(),
        (acc.len() == t.len()) <==> (sv[k] == '"'),
        acc.len() == t.len() ==> sv.len() - k == 1 + rest.len(),
        acc.len() < t.len() ==> ({
            let e = esc_char(t[acc.len() as int]);
            &&& e.len() >= 1
            &&& k + e.len() + 1 <= sv.len()
            &&& (forall|j: int| 0 <= j < e.len() ==> sv[k + j] == e[j])
            &&& sv.skip(k + e.len()) == esc_str(t.skip(acc.len() as int + 1)) + seq!['"'] + rest
        }),
{
    let m = acc.len() as int;
    if m < t.len() {
        lemma_esc_str_front(t.skip(m));
        assert(t.skip(m)[0] == t[m]);
        lemma_esc_char_shape(t[m]);
        assert(t.skip(m).drop_first() =~= t.skip(m + 1));
        let e = esc_char(t[m]);
        let tail = esc_str(t.skip(m + 1)) + seq!['"'] + rest;
        assert(sv.skip(k) =~= e + tail);
        assert(sv.skip(k).len() == sv.len() - k);
        assert(sv.len() - k == e.len() + tail.len());
        assert forall|j: int| 0 <= j < e.len() implies sv[k + j] == e[j] by {
            assert(sv.skip(k)[j] == sv[k + j]);
        }
        assert forall|j: int| 0 <= j < tail.len() implies sv.skip(k + e.len())[j] == tail[j] by {
            assert(sv.skip(k + e.len())[j] == sv[k + e.len() + j]);
            assert(sv.skip(k)[e.len() + j] == sv[k + e.len() + j]);
            assert((e + tail)[e.len() + j] == tail[j]);
        }
        assert(sv.skip(k + e.len()).len() == tail.len());
        assert(sv.skip(k + e.len()) =~= tail);
        assert(sv[k] == e[0]);
    } else {
        assert(t.skip(m) =~= Seq::<char>::empty());
        assert(esc_str(Seq::<char>::empty()) == Seq::<char>::empty());
        assert(sv.skip(k) =~= seq!['"'] + rest);
        assert(sv.skip(k).len() == sv.len() - k);
        assert(sv.len() - k == 1 + rest.len());
        assert(sv.skip(k)[0] == sv[k]);
    }
}

/// Two canonical escapes standing at the front of the same text escape the
/// same character.
proof fn lemma_esc_match(z: Seq<char>, a: char, b: char)
    requires
        esc_char(a).len() <= z.len(),
        esc_char(b).len() <= z.len(),
        forall|j: int| 0 <= j < esc_char(a).len() ==> z[j] == esc_char(a)[j],
        forall|j: int| 0 <= j < esc_char(b).len() ==> z[j] == esc_char(b)[j],
    ensures
        a == b,
        esc_char(a).len() == esc_char(b).len(),
{
    lemma_esc_char_shape(a);
    lemma_esc_char_shape(b);
    if esc_char(a)[0] != '\\' {
        assert(z[0] == a);
        assert(esc_char(b)[0] == a);
        assert(esc_char(b)[0] != '\\');
        assert(b == a);
    } else {
        assert(z[0] == '\\');
        assert(esc_char(b)[0] == '\\');
        if esc_char(a).len() == 2 {
            assert(z[1] == esc_char(a)[1]);
            assert(esc_char(a)[1] != 'u');
            assert(esc_char(b).len() == 2) by {
                if esc_char(b).len() == 6 {
                    assert(esc_char(b)[1] == 'u');
                    assert(z[1] == 'u');
                }
            }
            assert(esc_char(b)[1] == z[1]);
        } else {
            assert(esc_char(a)[1] == 'u');
            assert(z[1] == 'u');
            assert(esc_char(b).len() == 6) by {
                if esc_char(b).len() == 2 {
                    assert(esc_char(b)[1] != 'u');
                }
            }
            assert(z[4] == hex_digit((a as u32) as int / 16));
            assert(z[4] == hex_digit((b as u32) as int / 16));
            assert(z[5] == hex_digit((a as u32) as int % 16));
            assert(z[5] == hex_digit((b as u32) as int % 16));
            lemma_hex_digit_inj((a as u32) as int / 16, (b as u32) as int / 16);
            lemma_hex_digit_inj((a as u32) as int % 16, (b as u32) as int % 16);
            assert(a as u32 == b as u32);
            assert(a == b);
        }
    }
}

/// Reads one quoted string starting at the opening quote; accepts exactly the
/// canonical escapes, so whatever it returns re-encodes to the consumed text,
/// and it succeeds on every text the encoder can produce.
fn parse_string(s: &str, i: usize) -> (r: Option<(String, usize)>)
    requires
        i < s@.len(),
        s@[i as int] == '"',
    ensures
        r matches Some((t, j)) ==> i < j <= s@.len() && json_string(t@) == s@.subrange(
            i as int,
            j as int,
        ),
        forall|t: Seq<char>, rest: Seq<char>|
            s@.skip(i as int) == #[trigger] (json_string(t) + rest) ==> (r matches Some((t2, j))
                && j == i + json_string(t).len()),
{
    let len = s.unicode_len();
    let mut acc: Vec<char> = Vec::new();
    let mut k: usize = i + 1;
    proof {
        assert(esc_str(acc@) =~= s@.subrange(i + 1 as int, i + 1 as int));
        assert forall|t: Seq<char>, rest: Seq<char>|
            s@.skip(i as int) == #[trigger] (json_string(t) + rest) implies {
            &&& acc@.len() <= t.len()
            &&& acc@ == t.take(acc@.len() as int)
            &&& s@.skip(k as int) == esc_str(t.skip(acc@.len() as int)) + seq!['"'] + rest
        } by {
            assert(acc@ =~= t.take(0));
            assert(t.skip(0) =~= t);
            assert(json_string(t) + rest =~= seq!['"'] + (esc_str(t) + seq!['"'] + rest));
            assert(s@.skip(i + 1 as int) =~= s@.skip(i as int).drop_first());
            assert((seq!['"'] + (esc_str(t) + seq!['"'] + rest)).drop_first() =~= esc_str(t)
                + seq!['"'] + rest);
        }
    }
    while k < len
        invariant
            i + 1 <= k <= len,
            len == s@.len(),
            i < s@.len() && s@[i as int] == '"',
            esc_str(acc@) == s@.subrange(i + 1 as int, k as int),
            forall|t: Seq<char>, rest: Seq<char>|
                s@.skip(i as int) == #[trigger] (json_string(t) + rest) ==> {
                    &&& acc@.len() <= t.len()
                    &&& acc@ == t.take(acc@.len() as int)
                    &&& s@.skip(k as int) == esc_str(t.skip(acc@.len() as int)) + seq!['"'] + rest
                },
        decreases len - k,
    {
        let ghost acc0 = acc@;
        let ghost k0 = k as int;
        let c = s.get_char(k);
        if c == '"' {
            let t = string_from_chars(&acc);
            proof {
                assert(json_string(t@) =~= s@.subrange(i as int, k + 1 as int));
                assert forall|tq: Seq<char>, rest: Seq<char>|
                    s@.skip(i as int) == #[trigger] (json_string(tq) + rest) implies k + 1 == i
                    + json_string(tq).len() by {
                    lemma_string_step(s@, i as int, k0, acc0, tq, rest);
                    assert(acc0 =~= tq);
                }
            }
            return Some((t, k + 1));
        } else if c == '\\' {
            if len - k < 2 {
                proof {
                    assert forall|tq: Seq<char>, rest: Seq<char>|
                        s@.skip(i as int) == #[trigger] (json_string(tq) + rest) implies false by {
                        lemma_string_step(s@, i as int, k0, acc0, tq, rest);
                        lemma_esc_char_shape(tq[acc0.len() as int]);
                    }
                }
                return None;
            }
            let d = s.get_char(k + 1);
            if d == '"' {
                acc.push('"');
                k = k + 2;
            } else if d == '\\' {
                acc.push('\\');
                k = k + 2;
            } else if d == 'n' {
                acc.push('\n');
                k = k + 2;
            } else if d == 'r' {
                acc.push('\r');
                k = k + 2;
            } else if d == 't' {
                acc.push('\t');
                k = k + 2;
            } else if d == 'b' {
                acc.push('\u{8}');
                k = k + 2;
            } else if d == 'f' {
                acc.push('\u{c}');
                k = k + 2;
            } else if d == 'u' {
                if len - k < 6 {
                    proof {
                        assert forall|tq: Seq<char>, rest: Seq<char>|
                            s@.skip(i as int) == #[trigger] (json_string(tq) + rest) implies false by {
                            lemma_string_step(s@, i as int, k0, acc0, tq, rest);
                            lemma_esc_char_shape(tq[acc0.len() as int]);
                        }
                    }
                    return None;
                }
                if s.get_char(k + 2) != '0' || s.get_char(k + 3) != '0' {
                    proof {
                        assert forall|tq: Seq<char>, rest: Seq<char>|
                            s@.skip(i as int) == #[trigger] (json_string(tq) + rest) implies false by {
                            lemma_string_step(s@, i as int, k0, acc0, tq, rest);
                            lemma_esc_char_shape(tq[acc0.len() as int]);
                        }
                    }
                    return None;
                }
                let g4 = s.get_char(k + 4);
                let g5 = s.get_char(k + 5);
                let h1 = match unhex(g4) {
                    Some(n) => n,
                    None => {
                        proof {
                            assert forall|tq: Seq<char>, rest: Seq<char>|
                                s@.skip(i as int) == #[trigger] (json_string(tq) + rest) implies false by {
                                lemma_string_step(s@, i as int, k0, acc0, tq, rest);
                                lemma_esc_char_shape(tq[acc0.len() as int]);
                                assert((tq[acc0.len() as int] as u32) as int / 16 < 16);
                                assert(g4 == hex_digit((tq[acc0.len() as int] as u32) as int / 16));
                            }
                        }
                        return None;
                    },
                };
                let h2 = match unhex(g5) {
                    Some(n) => n,
                    None => {
                        proof {
                            assert forall|tq: Seq<char>, rest: Seq<char>|
                                s@.skip(i as int) == #[trigger] (json_string(tq) + rest) implies false by {
                                lemma_string_step(s@, i as int, k0, acc0, tq, rest);
                                lemma_esc_char_shape(tq[acc0.len() as int]);
                                assert((tq[acc0.len() as int] as u32) as int % 16 < 16);
                                assert(g5 == hex_digit((tq[acc0.len() as int] as u32) as int % 16));
                            }
                        }
                        return None;
                    },
                };
                let val = h1 * 16 + h2;
                if val >= 32 || val == 8 || val == 9 || val == 10 || val == 12 || val == 13 {
                    proof {
                        assert forall|tq: Seq<char>, rest: Seq<char>|
                            s@.skip(i as int) == #[trigger] (json_string(tq) + rest) implies false by {
                            lemma_string_step(s@, i as int, k0, acc0, tq, rest);
                            let c0 = tq[acc0.len() as int];
                            lemma_esc_char_shape(c0);
                            assert(g4 == hex_digit((c0 as u32) as int / 16));
                            assert(g5 == hex_digit((c0 as u32) as int % 16));
                            lemma_hex_digit_inj(h1 as int, (c0 as u32) as int / 16);
                            lemma_hex_digit_inj(h2 as int, (c0 as u32) as int % 16);
                            assert(val == c0 as u32);
                        }
                    }
                    return None;
                }
                let c2 = (val as u8) as char;
                proof {
                    assert(c2 as u32 == val);
                    assert(val / 16 == h1 && val % 16 == h2);
                    assert(esc_char(c2) =~= s@.subrange(k0, k0 + 6));
                }
                acc.push(c2);
                k = k + 6;
            } else {
                proof {
                    assert forall|tq: Seq<char>, rest: Seq<char>|
                        s@.skip(i as int) == #[trigger] (json_string(tq) + rest) implies false by {
                        lemma_string_step(s@, i as int, k0, acc0, tq, rest);
                        lemma_esc_char_shape(tq[acc0.len() as int]);
                    }
                }
                return None;
            }
        } else {
            if (c as u32) < 32 {
                proof {
                    assert forall|tq: Seq<char>, rest: Seq<char>|
                        s@.skip(i as int) == #[trigger] (json_string(tq) + rest) implies false by {
                        lemma_string_step(s@, i as int, k0, acc0, tq, rest);
                        lemma_esc_char_shape(tq[acc0.len() as int]);
                    }
                }
                return None;
            }
            acc.push(c);
            k = k + 1;
        }
        proof {
            assert(acc@.drop_last() =~= acc0);
            assert(esc_char(acc@.last()) =~= s@.subrange(k0, k as int));
            assert(esc_str(acc@) == esc_str(acc0) + esc_char(acc@.last()));
            assert(esc_str(acc@) =~= s@.subrange(i + 1 as int, k as int));
            assert forall|tq: Seq<char>, rest: Seq<char>|
                s@.skip(i as int) == #[trigger] (json_string(tq) + rest) implies {
                &&& acc@.len() <= tq.len()
                &&& acc@ == tq.take(acc@.len() as int)
                &&& s@.skip(k as int) == esc_str(tq.skip(acc@.len() as int)) + seq!['"'] + rest
            } by {
                lemma_string_step(s@, i as int, k0, acc0, tq, rest);
                let c0 = tq[acc0.len() as int];
                lemma_esc_char_shape(c0);
                lemma_esc_char_shape(acc@.last());
                assert(esc_char(acc@.last()).len() == k as int - k0);
                assert forall|j: int|
                    0 <= j < esc_char(acc@.last()).len() implies s@.skip(k0)[j] == esc_char(
                    acc@.last(),
                )[j] by {
                    assert(s@.skip(k0)[j] == s@[k0 + j]);
                    assert(s@.subrange(k0, k as int)[j] == s@[k0 + j]);
                }
                assert forall|j: int|
                    0 <= j < esc_char(c0).len() implies s@.skip(k0)[j] == esc_char(c0)[j] by {
                    assert(s@.skip(k0)[j] == s@[k0 + j]);
                }
                lemma_esc_match(s@.skip(k0), acc@.last(), c0);
                assert(acc@ =~= tq.take(acc0.len() as int + 1));
                assert(k as int == k0 + esc_char(c0).len());
            }
        }
    }
    proof {
        assert forall|tq: Seq<char>, rest: Seq<char>|
            s@.skip(i as int) == #[trigger] (json_string(tq) + rest) implies false by {
            lemma_string_step(s@, i as int, k as int, acc@, tq, rest);
        }
    }
    None
}

/// Reads one number token: the maximal run of number characters.
fn parse_number(s: &str, i: usize) -> (r: (String, usize))
    requires
        i < s@.len(),
        is_num_char(s@[i as int]),
    ensures
        i < r.1 <= s@.len() && r.0@ == s@.subrange(i as int, r.1 as int),
        forall|m: int| i <= m < r.1 ==> is_num_char(#[trigger] s@[m]),
        r.1 == s@.len() || !is_num_char(s@[r.1 as int]),
{
    let len = s.unicode_len();
    let mut acc: Vec<char> = Vec::new();
    acc.push(s.get_char(i));
    let mut k: usize = i + 1;
    proof {
        assert(acc@ =~= s@.subrange(i as int, i + 1 as int));
    }
    while k < len
        invariant
            i < k <= len,
            len == s@.len(),
            acc@ == s@.subrange(i as int, k as int),
            forall|m: int| i <= m < k ==> is_num_char(#[trigger] s@[m]),
        decreases len - k,
    {
        let c = s.get_char(k);
        if !num_char(c) {
            return (string_from_chars(&acc), k);
        }
        acc.push(c);
        proof {
            assert(acc@ =~= s@.subrange(i as int, k + 1 as int));
        }
        k = k + 1;
    }
    (string_from_chars(&acc), k)
}

/// Index-level consequences of "the suffix at `i` is the canonical text of a
/// well-formed value followed by `rest`".
proof fn lemma_head_case(sv: Seq<char>, i: int, v: CanonicalValue, rest: Seq<char>)
    requires
        0 <= i <= sv.len(),
        wf_value(v),
        sv.skip(i) == json_of(v) + rest,
    ensures
        i < sv.len(),
        sv.len() - i == json_of(v).len() + rest.len(),
        sv[i] == json_of(v)[0],
        forall|q: int| 0 <= q < json_of(v).len() ==> sv[i + q] == json_of(v)[q],
        sv.skip(i + json_of(v).len()) == rest,
        rest.len() > 0 ==> sv[i + json_of(v).len()] == rest[0],
{
    lemma_json_head(v);
    assert(sv.skip(i).len() == sv.len() - i);
    assert forall|q: int| 0 <= q < json_of(v).len() implies sv[i + q] == json_of(v)[q] by {
        assert(sv.skip(i)[q] == sv[i + q]);
        assert((json_of(v) + rest)[q] == json_of(v)[q]);
    }
    let n = json_of(v).len() as int;
    assert forall|q: int| 0 <= q < rest.len() implies sv.skip(i + n)[q] == rest[q] by {
        assert(sv.skip(i + n)[q] == sv[i + n + q]);
        assert(sv.skip(i)[n + q] == sv[i + n + q]);
        assert((json_of(v) + rest)[n + q] == rest[q]);
    }
    assert(sv.skip(i + n).len() == rest.len());
    assert(sv.skip(i + n) =~= rest);
    if rest.len() > 0 {
        assert(sv.skip(i + n)[0] == sv[i + n]);
    }
}

/// Splitting a suffix equation: if the text from `k` on is `a` then `b`, the
/// characters of `a` stand at `k`, and `b` starts right after them.
proof fn lemma_peel(sv: Seq<char>, k: int, a: Seq<char>, b: Seq<char>)
    requires
        0 <= k <= sv.len(),
        sv.skip(k) == a + b,
    ensures
        sv.len() - k == a.len() + b.len(),
        forall|q: int| 0 <= q < a.len() ==> sv[k + q] == a[q],
        sv.skip(k + a.len()) == b,
        b.len() > 0 ==> k + a.len() < sv.len() && sv[k + a.len()] == b[0],
        a.len() > 0 ==> sv[k] == a[0],
{
    assert(sv.skip(k).len() == sv.len() - k);
    assert forall|q: int| 0 <= q < a.len() implies sv[k + q] == a[q] by {
        assert(sv.skip(k)[q] == sv[k + q]);
        assert((a + b)[q] == a[q]);
    }
    let n = a.len() as int;
    assert forall|q: int| 0 <= q < b.len() implies sv.skip(k + n)[q] == b[q] by {
        assert(sv.skip(k + n)[q] == sv[k + n + q]);
        assert(sv.skip(k)[n + q] == sv[k + n + q]);
        assert((a + b)[n + q] == b[q]);
    }
    assert(sv.skip(k + n).len() == b.len());
    assert(sv.skip(k + n) =~= b);
    if b.len() > 0 {
        assert(sv.skip(k + n)[0] == sv[k + n]);
    }
    if a.len() > 0 {
        assert(sv.skip(k)[0] == sv[k]);
    }
}

/// At an array position expecting an element: the text from `k` is exactly
/// the element's canonical text, then a separator or the closing bracket.
proof fn lemma_arr_elem(sv: Seq<char>, k: int, es: Seq<CanonicalValue>, p: int, rest: Seq<char>)
    requires
        0 <= k <= sv.len(),
        0 <= p < es.len(),
        forall|q: int| 0 <= q < es.len() ==> wf_value(#[trigger] es[q]),
        sv.skip(k) == json_items(es.skip(p)) + seq![']'] + rest,
    ensures
        ({
            let tailp = if p + 1 == es.len() {
                Seq::<char>::empty()
            } else {
                seq![','] + json_items(es.skip(p + 1))
            };
            &&& wf_value(es[p])
            &&& sv.skip(k) == json_of(es[p]) + (tailp + seq![']'] + rest)
            &&& value_boundary(tailp + seq![']'] + rest)
            &&& sv.skip(k + json_of(es[p]).len()) == tailp + seq![']'] + rest
            &&& k + json_of(es[p]).len() < sv.len()
            &&& sv[k + json_of(es[p]).len()] == (if p + 1 == es.len() {
                ']'
            } else {
                ','
            })
        }),
{
    lemma_json_items_front(es.skip(p));
    assert(es.skip(p)[0] == es[p]);
    assert(es.skip(p).drop_first() =~= es.skip(p + 1));
    assert(wf_value(es[p]));
    let tailp = if p + 1 == es.len() {
        Seq::<char>::empty()
    } else {
        seq![','] + json_items(es.skip(p + 1))
    };
    assert(es.skip(p).len() == es.len() - p);
    assert(json_items(es.skip(p)) == json_of(es[p]) + tailp);
    let rest2 = tailp + seq![']'] + rest;
    assert(sv.skip(k) =~= json_of(es[p]) + rest2);
    lemma_peel(sv, k, json_of(es[p]), rest2);
    if p + 1 == es.len() {
        assert(rest2 =~= seq![']'] + rest);
        assert(rest2[0] == ']');
    } else {
        assert((tailp + seq![']'] + rest)[0] == tailp[0]);
        assert(tailp[0] == ',');
    }
    assert(rest2.len() > 0);
}

/// At an object position expecting a member: the text from `k` is exactly the
/// quoted key, a colon, the value's canonical text, then a separator or the
/// closing brace.
proof fn lemma_obj_member(
    sv: Seq<char>,
    k: int,
    fs: Seq<(String, CanonicalValue)>,
    p: int,
    rest: Seq<char>,
)
    requires
        0 <= k <= sv.len(),
        0 <= p < fs.len(),
        forall|q: int| 0 <= q < fs.len() ==> wf_value(#[trigger] fs[q].1),
        sv.skip(k) == json_members(fs.skip(p)) + seq!['}'] + rest,
    ensures
        ({
            let tailp = if p + 1 == fs.len() {
                Seq::<char>::empty()
            } else {
                seq![','] + json_members(fs.skip(p + 1))
            };
            let ks = json_string(fs[p].0@).len() as int;
            let vs = json_of(fs[p].1).len() as int;
            &&& wf_value(fs[p].1)
            &&& k < sv.len() && sv[k] == '"'
            &&& sv.skip(k) == json_string(fs[p].0@) + (seq![':'] + (json_of(fs[p].1) + (tailp
                + seq!['}'] + rest)))
            &&& k + ks < sv.len() && sv[k + ks] == ':'
            &&& sv.skip(k + ks + 1) == json_of(fs[p].1) + (tailp + seq!['}'] + rest)
            &&& value_boundary(tailp + seq!['}'] + rest)
            &&& sv.skip(k + ks + 1 + vs) == tailp + seq!['}'] + rest
            &&& k + ks + 1 + vs < sv.len()
            &&& sv[k + ks + 1 + vs] == (if p + 1 == fs.len() {
                '}'
            } else {
                ','
            })
        }),
{
    lemma_json_members_front(fs.skip(p));
    assert(fs.skip(p)[0] == fs[p]);
    assert(fs.skip(p).drop_first() =~= fs.skip(p + 1));
    assert(wf_value(fs[p].1));
    let tailp = if p + 1 == fs.len() {
        Seq::<char>::empty()
    } else {
        seq![','] + json_members(fs.skip(p + 1))
    };
    assert(fs.skip(p).len() == fs.len() - p);
    assert(json_members(fs.skip(p)) == json_member(fs[p]) + tailp);
    let rest3 = tailp + seq!['}'] + rest;
    let key = json_string(fs[p].0@);
    let val = json_of(fs[p].1);
    assert(json_member(fs[p]) == key + seq![':'] + val);
    assert(sv.skip(k) =~= key + (seq![':'] + (val + rest3)));
    lemma_peel(sv, k, key, seq![':'] + (val + rest3));
    assert(key[0] == '"');
    assert(key.len() > 0);
    let ks = key.len() as int;
    assert((seq![':'] + (val + rest3))[0] == ':');
    lemma_peel(sv, k + ks, seq![':'], val + rest3);
    assert(sv[k + ks] == ':');
    lemma_peel(sv, k + ks + 1, val, rest3);
    if p + 1 == fs.len() {
        assert(rest3 =~= seq!['}'] + rest);
        assert(rest3[0] == '}');
    } else {
        assert((tailp + seq!['}'] + rest)[0] == tailp[0]);
        assert(tailp[0] == ',');
    }
    assert(rest3.len() > 0);
}

/// Reads one canonical JSON value starting at position `i`; whatever it
/// returns re-encodes to exactly the consumed characters, and it succeeds on
/// every text the encoder can produce for a well-formed value, consuming
/// exactly that text.
#[verifier::rlimit(100)]
fn parse_value(s: &str, i: usize) -> (r: Option<(CanonicalValue, usize)>)
    requires
        i <= s@.len(),
    ensures
        r matches Some((v, j)) ==> i < j <= s@.len() && json_of(v) == s@.subrange(
            i as int,
            j as int,
        ),
        forall|v: CanonicalValue, rest: Seq<char>|
            (wf_value(v) && s@.skip(i as int) == #[trigger] (json_of(v) + rest)
                && value_boundary(rest)) ==> (r matches Some((w, j)) && j == i + json_of(v).len()),
    decreases s@.len() - i,
{
    let len = s.unicode_len();
    if i >= len {
        proof {
            assert forall|v: CanonicalValue, rest: Seq<char>|
                (wf_value(v) && s@.skip(i as int) == #[trigger] (json_of(v) + rest)
                    && value_boundary(rest)) implies false by {
                lemma_head_case(s@, i as int, v, rest);
            }
        }
        return None;
    }
    let c = s.get_char(i);
    if c == 'n' {
        if len - i < 4 {
            proof {
                assert forall|v: CanonicalValue, rest: Seq<char>|
                    (wf_value(v) && s@.skip(i as int) == #[trigger] (json_of(v) + rest)
                        && value_boundary(rest)) implies false by {
                    lemma_head_case(s@, i as int, v, rest);
                    lemma_json_head(v);
                }
            }
            return None;
        }
        if s.get_char(i + 1) == 'u' && s.get_char(i + 2) == 'l' && s.get_char(i + 3) == 'l' {
            proof {
                assert(json_of(CanonicalValue::Null) =~= s@.subrange(i as int, i + 4 as int));
                assert forall|v: CanonicalValue, rest: Seq<char>|
                    (wf_value(v) && s@.skip(i as int) == #[trigger] (json_of(v) + rest)
                        && value_boundary(rest)) implies i + 4 == i + json_of(v).len() by {
                    lemma_head_case(s@, i as int, v, rest);
                    lemma_json_head(v);
                }
            }
            Some((CanonicalValue::Null, i + 4))
        } else {
            proof {
                assert forall|v: CanonicalValue, rest: Seq<char>|
                    (wf_value(v) && s@.skip(i as int) == #[trigger] (json_of(v) + rest)
                        && value_boundary(rest)) implies false by {
                    lemma_head_case(s@, i as int, v, rest);
                    lemma_json_head(v);
                }
            }
            None
        }
    } else if c == 't' {
        if len - i < 4 {
            proof {
                assert forall|v: CanonicalValue, rest: Seq<char>|
                    (wf_value(v) && s@.skip(i as int) == #[trigger] (json_of(v) + rest)
                        && value_boundary(rest)) implies false by {
                    lemma_head_case(s@, i as int, v, rest);
                    lemma_json_head(v);
                }
            }
            return None;
        }
        if s.get_char(i + 1) == 'r' && s.get_char(i + 2) == 'u' && s.get_char(i + 3) == 'e' {
            proof {
                assert(json_of(CanonicalValue::Bool(true)) =~= s@.subrange(i as int, i + 4 as int));
                assert forall|v: CanonicalValue, rest: Seq<char>|
                    (wf_value(v) && s@.skip(i as int) == #[trigger] (json_of(v) + rest)
                        && value_boundary(rest)) implies i + 4 == i + json_of(v).len() by {
                    lemma_head_case(s@, i as int, v, rest);
                    lemma_json_head(v);
                }
            }
            Some((CanonicalValue::Bool(true), i + 4))
        } else {
            proof {
                assert forall|v: CanonicalValue, rest: Seq<char>|
                    (wf_value(v) && s@.skip(i as int) == #[trigger] (json_of(v) + rest)
                        && value_boundary(rest)) implies false by {
                    lemma_head_case(s@, i as int, v, rest);
                    lemma_json_head(v);
                }
            }
            None
        }
    } else if c == 'f' {
        if len - i < 5 {
            proof {
                assert forall|v: CanonicalValue, rest: Seq<char>|
                    (wf_value(v) && s@.skip(i as int) == #[trigger] (json_of(v) + rest)
                        && value_boundary(rest)) implies false by {
                    lemma_head_case(s@, i as int, v, rest);
                    lemma_json_head(v);
                }
            }
            return None;
        }
        if s.get_char(i + 1) == 'a' && s.get_char(i + 2) == 'l' && s.get_char(i + 3) == 's'
            && s.get_char(i + 4) == 'e' {
            proof {
                assert(json_of(CanonicalValue::Bool(false)) =~= s@.subrange(
                    i as int,
                    i + 5 as int,
                ));
                assert forall|v: CanonicalValue, rest: Seq<char>|
                    (wf_value(v) && s@.skip(i as int) == #[trigger] (json_of(v) + rest)
                        && value_boundary(rest)) implies i + 5 == i + json_of(v).len() by {
                    lemma_head_case(s@, i as int, v, rest);
                    lemma_json_head(v);
                }
            }
            Some((CanonicalValue::Bool(false), i + 5))
        } else {
            proof {
                assert forall|v: CanonicalValue, rest: Seq<char>|
                    (wf_value(v) && s@.skip(i as int) == #[trigger] (json_of(v) + rest)
                        && value_boundary(rest)) implies false by {
                    lemma_head_case(s@, i as int, v, rest);
                    lemma_json_head(v);
                }
            }
            None
        }
    } else if c == '"' {
        match parse_string(s, i) {
            Some((t, j)) => {
                proof {
                    assert forall|v: CanonicalValue, rest: Seq<char>|
                        (wf_value(v) && s@.skip(i as int) == #[trigger] (json_of(v) + rest)
                            && value_boundary(rest)) implies j == i + json_of(v).len() by {
                        lemma_head_case(s@, i as int, v, rest);
                        lemma_json_head(v);
                        let tv = v->Text_0;
                        assert(json_of(v) == json_string(tv@));
                        assert(s@.skip(i as int) == json_string(tv@) + rest);
                    }
                }
                Some((CanonicalValue::Text(t), j))
            },
            None => {
                proof {
                    assert forall|v: CanonicalValue, rest: Seq<char>|
                        (wf_value(v) && s@.skip(i as int) == #[trigger] (json_of(v) + rest)
                            && value_boundary(rest)) implies false by {
                        lemma_head_case(s@, i as int, v, rest);
                        lemma_json_head(v);
                        let tv = v->Text_0;
                        assert(json_of(v) == json_string(tv@));
                        assert(s@.skip(i as int) == json_string(tv@) + rest);
                    }
                }
                None
            },
        }
    } else if num_char(c) {
        let (t, j) = parse_number(s, i);
        proof {
            assert forall|v: CanonicalValue, rest: Seq<char>|
                (wf_value(v) && s@.skip(i as int) == #[trigger] (json_of(v) + rest)
                    && value_boundary(rest)) implies j == i + json_of(v).len() by {
                lemma_head_case(s@, i as int, v, rest);
                lemma_json_head(v);
                let tv = v->Number_0;
                lemma_num_text_chars(tv@);
                assert(json_of(v) == tv@);
                if (j as int) < i + tv@.len() {
                    assert(s@[j as int] == tv@[j - i]);
                    assert(is_num_char(s@[j as int]));
                    assert(false);
                }
                if (j as int) > i + tv@.len() {
                    assert(rest.len() > 0);
                    assert(s@[i + tv@.len()] == rest[0]);
                    assert(is_num_char(s@[i + tv@.len()]));
                    assert(false);
                }
            }
        }
        Some((CanonicalValue::Number(t), j))
    } else if c == '[' {
        let mut elems: Vec<CanonicalValue> = Vec::new();
        if len - i < 2 {
            proof {
                assert forall|v: CanonicalValue, rest: Seq<char>|
                    (wf_value(v) && s@.skip(i as int) == #[trigger] (json_of(v) + rest)
                        && value_boundary(rest)) implies false by {
                    lemma_head_case(s@, i as int, v, rest);
                    lemma_json_head(v);
                    let es = v->Array_0@;
                    assert(json_of(v).len() == 2 + json_items(es).len());
                }
            }
            return None;
        }
        if s.get_char(i + 1) == ']' {
            proof {
                assert(json_of(CanonicalValue::Array(elems)) =~= s@.subrange(
                    i as int,
                    i + 2 as int,
                ));
                assert forall|v: CanonicalValue, rest: Seq<char>|
                    (wf_value(v) && s@.skip(i as int) == #[trigger] (json_of(v) + rest)
                        && value_boundary(rest)) implies i + 2 == i + json_of(v).len() by {
                    lemma_head_case(s@, i as int, v, rest);
                    lemma_json_head(v);
                    let es = v->Array_0@;
                    if es.len() > 0 {
                        lemma_json_items_front(es);
                        assert(wf_value(es[0]));
                        lemma_json_head(es[0]);
                        assert(s@[i + 1] == json_of(v)[1]);
                        assert(json_of(v)[1] == json_items(es)[0]);
                        assert(json_items(es)[0] == json_of(es[0])[0]);
                        assert(false);
                    }
                    assert(json_items(es) == Seq::<char>::empty());
                    assert(json_of(v).len() == 2);
                }
            }
            return Some((CanonicalValue::Array(elems), i + 2));
        }
        let mut k: usize = i + 1;
        proof {
            assert(s@.subrange(i as int, k as int) =~= seq!['['] + json_items(elems@));
            assert forall|v: CanonicalValue, rest: Seq<char>|
                (wf_value(v) && s@.skip(i as int) == #[trigger] (json_of(v) + rest)
                    && value_boundary(rest)) implies {
                &&& v is Array
                &&& elems@.len() < v->Array_0@.len()
                &&& s@.skip(k as int) == json_items(v->Array_0@.skip(elems@.len() as int))
                    + seq![']'] + rest
            } by {
                lemma_head_case(s@, i as int, v, rest);
                lemma_json_head(v);
                let es = v->Array_0@;
                if es.len() == 0 {
                    assert(json_items(es) == Seq::<char>::empty());
                    assert(s@[i + 1] == json_of(v)[1]);
                    assert(json_of(v)[1] == ']');
                    assert(false);
                }
                assert(es.skip(0) =~= es);
                assert(json_of(v) + rest =~= seq!['['] + (json_items(es) + seq![']'] + rest));
                assert(s@.skip(i + 1 as int) =~= s@.skip(i as int).drop_first());
                assert((seq!['['] + (json_items(es) + seq![']'] + rest)).drop_first()
                    =~= json_items(es) + seq![']'] + rest);
            }
        }
        loop
            invariant
                i < k <= len,
                len == s@.len(),
                i < s@.len() && s@[i as int] == '[',
                s@.subrange(i as int, k as int) == seq!['['] + json_items(elems@) + (
                if elems@.len() > 0 {
                    seq![',']
                } else {
                    Seq::<char>::empty()
                }),
                forall|v: CanonicalValue, rest: Seq<char>|
                    (wf_value(v) && s@.skip(i as int) == #[trigger] (json_of(v) + rest)
                        && value_boundary(rest)) ==> {
                        &&& v is Array
                        &&& elems@.len() < v->Array_0@.len()
                        &&& s@.skip(k as int) == json_items(v->Array_0@.skip(elems@.len() as int))
                            + seq![']'] + rest
                    },
            decreases len - k,
        {
            let ghost elems0 = elems@;
            let ghost k0 = k as int;
            match parse_value(s, k) {
                None => {
                    proof {
                        assert forall|v: CanonicalValue, rest: Seq<char>|
                            (wf_value(v) && s@.skip(i as int) == #[trigger] (json_of(v) + rest)
                                && value_boundary(rest)) implies false by {
                            lemma_arr_elem(s@, k0, v->Array_0@, elems0.len() as int, rest);
                        }
                    }
                    return None;
                },
                Some((w, j)) => {
                    elems.push(w);
                    proof {
                        lemma_json_items_snoc(elems@, elems@.len() - 1);
                        assert(elems@.take(elems@.len() as int) =~= elems@);
                        assert(elems@.take(elems@.len() - 1) =~= elems0);
                        assert(s@.subrange(i as int, j as int) =~= s@.subrange(i as int, k as int)
                            + s@.subrange(k as int, j as int));
                        if elems0.len() == 0 {
                            assert(json_items(elems@) == json_of(w));
                        } else {
                            assert(json_items(elems@) == json_items(elems0) + seq![','] + json_of(
                                w,
                            ));
                        }
                        assert(s@.subrange(i as int, j as int) =~= seq!['['] + json_items(elems@));
                    }
                    if j >= len {
                        proof {
                            assert forall|v: CanonicalValue, rest: Seq<char>|
                                (wf_value(v) && s@.skip(i as int) == #[trigger] (json_of(v) + rest)
                                    && value_boundary(rest)) implies false by {
                                lemma_arr_elem(s@, k0, v->Array_0@, elems0.len() as int, rest);
                                let es = v->Array_0@;
                                let p = elems0.len() as int;
                                assert(j == k0 + json_of(es[p]).len());
                            }
                        }
                        return None;
                    }
                    let c2 = s.get_char(j);
                    if c2 == ',' {
                        k = j + 1;
                        proof {
                            assert(s@.subrange(i as int, k as int) =~= seq!['['] + json_items(
                                elems@,
                            ) + seq![',']);
                            assert forall|v: CanonicalValue, rest: Seq<char>|
                                (wf_value(v) && s@.skip(i as int) == #[trigger] (json_of(v) + rest)
                                    && value_boundary(rest)) implies {
                                &&& v is Array
                                &&& elems@.len() < v->Array_0@.len()
                                &&& s@.skip(k as int) == json_items(
                                    v->Array_0@.skip(elems@.len() as int),
                                ) + seq![']'] + rest
                            } by {
                                lemma_arr_elem(s@, k0, v->Array_0@, elems0.len() as int, rest);
                                let es = v->Array_0@;
                                let p = elems0.len() as int;
                                assert(j == k0 + json_of(es[p]).len());
                                if p + 1 == es.len() {
                                    assert(s@[j as int] == ']');
                                    assert(false);
                                }
                                let rt = json_items(es.skip(p + 1)) + seq![']'] + rest;
                                assert(s@.skip(j as int) =~= seq![','] + rt);
                                assert(s@.skip(j + 1 as int) =~= s@.skip(j as int).drop_first());
                                assert((seq![','] + rt).drop_first() =~= rt);
                            }
                        }
                    } else if c2 == ']' {
                        proof {
                            assert(seq!['['] + json_items(elems@) + seq![']'] =~= s@.subrange(
                                i as int,
                                j + 1 as int,
                            ));
                            assert forall|v: CanonicalValue, rest: Seq<char>|
                                (wf_value(v) && s@.skip(i as int) == #[trigger] (json_of(v) + rest)
                                    && value_boundary(rest)) implies j + 1 == i + json_of(
                                v,
                            ).len() by {
                                lemma_arr_elem(s@, k0, v->Array_0@, elems0.len() as int, rest);
                                lemma_head_case(s@, i as int, v, rest);
                                let es = v->Array_0@;
                                let p = elems0.len() as int;
                                assert(j == k0 + json_of(es[p]).len());
                                if p + 1 < es.len() {
                                    assert(s@[j as int] == ',');
                                    assert(false);
                                }
                                assert(s@.skip(j as int) =~= seq![']'] + rest);
                                assert(s@.skip(j as int).len() == s@.len() - j);
                            }
                        }
                        return Some((CanonicalValue::Array(elems), j + 1));
                    } else {
                        proof {
                            assert forall|v: CanonicalValue, rest: Seq<char>|
                                (wf_value(v) && s@.skip(i as int) == #[trigger] (json_of(v) + rest)
                                    && value_boundary(rest)) implies false by {
                                lemma_arr_elem(s@, k0, v->Array_0@, elems0.len() as int, rest);
                                let es = v->Array_0@;
                                let p = elems0.len() as int;
                                assert(j == k0 + json_of(es[p]).len());
                            }
                        }
                        return None;
                    }
                },
            }
        }
    } else if c == '{' {
        let mut fields: Vec<(String, CanonicalValue)> = Vec::new();
        if len - i < 2 {
            proof {
                assert forall|v: CanonicalValue, rest: Seq<char>|
                    (wf_value(v) && s@.skip(i as int) == #[trigger] (json_of(v) + rest)
                        && value_boundary(rest)) implies false by {
                    lemma_head_case(s@, i as int, v, rest);
                    lemma_json_head(v);
                    let fs = v->Object_0@;
                    assert(json_of(v).len() == 2 + json_members(fs).len());
                }
            }
            return None;
        }
        if s.get_char(i + 1) == '}' {
            proof {
                assert(json_of(CanonicalValue::Object(fields)) =~= s@.subrange(
                    i as int,
                    i + 2 as int,
                ));
                assert forall|v: CanonicalValue, rest: Seq<char>|
                    (wf_value(v) && s@.skip(i as int) == #[trigger] (json_of(v) + rest)
                        && value_boundary(rest)) implies i + 2 == i + json_of(v).len() by {
                    lemma_head_case(s@, i as int, v, rest);
                    lemma_json_head(v);
                    let fs = v->Object_0@;
                    if fs.len() > 0 {
                        lemma_json_members_front(fs);
                        assert(s@[i + 1] == json_of(v)[1]);
                        assert(json_of(v)[1] == json_members(fs)[0]);
                        assert(json_members(fs)[0] == json_member(fs[0])[0]);
                        assert(json_member(fs[0])[0] == '"');
                        assert(false);
                    }
                    assert(json_members(fs) == Seq::<char>::empty());
                    assert(json_of(v).len() == 2);
                }
            }
            return Some((CanonicalValue::Object(fields), i + 2));
        }
        let mut k: usize = i + 1;
        proof {
            assert(s@.subrange(i as int, k as int) =~= seq!['{'] + json_members(fields@));
            assert forall|v: CanonicalValue, rest: Seq<char>|
                (wf_value(v) && s@.skip(i as int) == #[trigger] (json_of(v) + rest)
                    && value_boundary(rest)) implies {
                &&& v is Object
                &&& fields@.len() < v->Object_0@.len()
                &&& s@.skip(k as int) == json_members(v->Object_0@.skip(fields@.len() as int))
                    + seq!['}'] + rest
            } by {
                lemma_head_case(s@, i as int, v, rest);
                lemma_json_head(v);
                let fs = v->Object_0@;
                if fs.len() == 0 {
                    assert(json_members(fs) == Seq::<char>::empty());
                    assert(s@[i + 1] == json_of(v)[1]);
                    assert(json_of(v)[1] == '}');
                    assert(false);
                }
                assert(fs.skip(0) =~= fs);
                assert(json_of(v) + rest =~= seq!['{'] + (json_members(fs) + seq!['}'] + rest));
                assert(s@.skip(i + 1 as int) =~= s@.skip(i as int).drop_first());
                assert((seq!['{'] + (json_members(fs) + seq!['}'] + rest)).drop_first()
                    =~= json_members(fs) + seq!['}'] + rest);
            }
        }
        loop
            invariant
                i < k <= len,
                len == s@.len(),
                i < s@.len() && s@[i as int] == '{',
                s@.subrange(i as int, k as int) == seq!['{'] + json_members(fields@) + (
                if fields@.len() > 0 {
                    seq![',']
                } else {
                    Seq::<char>::empty()
                }),
                forall|v: CanonicalValue, rest: Seq<char>|
                    (wf_value(v) && s@.skip(i as int) == #[trigger] (json_of(v) + rest)
                        && value_boundary(rest)) ==> {
                        &&& v is Object
                        &&& fields@.len() < v->Object_0@.len()
                        &&& s@.skip(k as int) == json_members(
                            v->Object_0@.skip(fields@.len() as int),
                        ) + seq!['}'] + rest
                    },
            decreases len - k,
        {
            let ghost fields0 = fields@;
            let ghost k0 = k as int;
            if k >= len {
                proof {
                    assert forall|v: CanonicalValue, rest: Seq<char>|
                        (wf_value(v) && s@.skip(i as int) == #[trigger] (json_of(v) + rest)
                            && value_boundary(rest)) implies false by {
                        lemma_obj_member(s@, k0, v->Object_0@, fields0.len() as int, rest);
                    }
                }
                return None;
            }
            if s.get_char(k) != '"' {
                proof {
                    assert forall|v: CanonicalValue, rest: Seq<char>|
                        (wf_value(v) && s@.skip(i as int) == #[trigger] (json_of(v) + rest)
                            && value_boundary(rest)) implies false by {
                        lemma_obj_member(s@, k0, v->Object_0@, fields0.len() as int, rest);
                    }
                }
                return None;
            }
            match parse_string(s, k) {
                None => {
                    proof {
                        assert forall|v: CanonicalValue, rest: Seq<char>|
                            (wf_value(v) && s@.skip(i as int) == #[trigger] (json_of(v) + rest)
                                && value_boundary(rest)) implies false by {
                            lemma_obj_member(s@, k0, v->Object_0@, fields0.len() as int, rest);
                        }
                    }
                    return None;
                },
                Some((key, j1)) => {
                    if j1 >= len {
                        proof {
                            assert forall|v: CanonicalValue, rest: Seq<char>|
                                (wf_value(v) && s@.skip(i as int) == #[trigger] (json_of(v) + rest)
                                    && value_boundary(rest)) implies false by {
                                lemma_obj_member(s@, k0, v->Object_0@, fields0.len() as int, rest);
                            }
                        }
                        return None;
                    }
                    if s.get_char(j1) != ':' {
                        proof {
                            assert forall|v: CanonicalValue, rest: Seq<char>|
                                (wf_value(v) && s@.skip(i as int) == #[trigger] (json_of(v) + rest)
                                    && value_boundary(rest)) implies false by {
                                lemma_obj_member(s@, k0, v->Object_0@, fields0.len() as int, rest);
                            }
                        }
                        return None;
                    }
                    match parse_value(s, j1 + 1) {
                        None => {
                            proof {
                                assert forall|v: CanonicalValue, rest: Seq<char>|
                                    (wf_value(v) && s@.skip(i as int) == #[trigger] (json_of(v)
                                        + rest) && value_boundary(rest)) implies false by {
                                    lemma_obj_member(
                                        s@,
                                        k0,
                                        v->Object_0@,
                                        fields0.len() as int,
                                        rest,
                                    );
                                }
                            }
                            return None;
                        },
                        Some((v2, j2)) => {
                            let ghost gkey = key@;
                            fields.push((key, v2));
                            proof {
                                lemma_json_members_snoc(fields@, fields@.len() - 1);
                                assert(fields@.take(fields@.len() as int) =~= fields@);
                                assert(fields@.take(fields@.len() - 1) =~= fields0);
                                assert(json_member(fields@.last()) == json_string(gkey) + seq![':']
                                    + json_of(v2));
                                assert(seq![':'] =~= s@.subrange(j1 as int, j1 + 1 as int));
                                assert(json_member(fields@.last()) =~= s@.subrange(
                                    k as int,
                                    j2 as int,
                                ));
                                assert(s@.subrange(i as int, j2 as int) =~= s@.subrange(
                                    i as int,
                                    k as int,
                                ) + s@.subrange(k as int, j2 as int));
                                if fields0.len() == 0 {
                                    assert(json_members(fields@) == json_member(fields@.last()));
                                } else {
                                    assert(json_members(fields@) == json_members(fields0)
                                        + seq![','] + json_member(fields@.last()));
                                }
                                assert(s@.subrange(i as int, j2 as int) =~= seq!['{']
                                    + json_members(fields@));
                            }
                            if j2 >= len {
                                proof {
                                    assert forall|v: CanonicalValue, rest: Seq<char>|
                                        (wf_value(v) && s@.skip(i as int) == #[trigger] (json_of(v)
                                            + rest) && value_boundary(rest)) implies false by {
                                        lemma_obj_member(
                                            s@,
                                            k0,
                                            v->Object_0@,
                                            fields0.len() as int,
                                            rest,
                                        );
                                        let fs = v->Object_0@;
                                        let p = fields0.len() as int;
                                        assert(j1 == k0 + json_string(fs[p].0@).len());
                                        assert(j2 == j1 + 1 + json_of(fs[p].1).len());
                                    }
                                }
                                return None;
                            }
                            let c2 = s.get_char(j2);
                            if c2 == ',' {
                                k = j2 + 1;
                                proof {
                                    assert(s@.subrange(i as int, k as int) =~= seq!['{']
                                        + json_members(fields@) + seq![',']);
                                    assert forall|v: CanonicalValue, rest: Seq<char>|
                                        (wf_value(v) && s@.skip(i as int) == #[trigger] (json_of(v)
                                            + rest) && value_boundary(rest)) implies {
                                        &&& v is Object
                                        &&& fields@.len() < v->Object_0@.len()
                                        &&& s@.skip(k as int) == json_members(
                                            v->Object_0@.skip(fields@.len() as int),
                                        ) + seq!['}'] + rest
                                    } by {
                                        lemma_obj_member(
                                            s@,
                                            k0,
                                            v->Object_0@,
                                            fields0.len() as int,
                                            rest,
                                        );
                                        let fs = v->Object_0@;
                                        let p = fields0.len() as int;
                                        assert(j1 == k0 + json_string(fs[p].0@).len());
                                        assert(j2 == j1 + 1 + json_of(fs[p].1).len());
                                        if p + 1 == fs.len() {
                                            assert(s@[j2 as int] == '}');
                                            assert(false);
                                        }
                                        let rt = json_members(fs.skip(p + 1)) + seq!['}'] + rest;
                                        assert(s@.skip(j2 as int) =~= seq![','] + rt);
                                        assert(s@.skip(j2 + 1 as int) =~= s@.skip(
                                            j2 as int,
                                        ).drop_first());
                                        assert((seq![','] + rt).drop_first() =~= rt);
                                    }
                                }
                            } else if c2 == '}' {
                                proof {
                                    assert(seq!['{'] + json_members(fields@) + seq!['}']
                                        =~= s@.subrange(i as int, j2 + 1 as int));
                                    assert forall|v: CanonicalValue, rest: Seq<char>|
                                        (wf_value(v) && s@.skip(i as int) == #[trigger] (json_of(v)
                                            + rest) && value_boundary(rest)) implies j2 + 1 == i
                                        + json_of(v).len() by {
                                        lemma_obj_member(
                                            s@,
                                            k0,
                                            v->Object_0@,
                                            fields0.len() as int,
                                            rest,
                                        );
                                        lemma_head_case(s@, i as int, v, rest);
                                        let fs = v->Object_0@;
                                        let p = fields0.len() as int;
                                        assert(j1 == k0 + json_string(fs[p].0@).len());
                                        assert(j2 == j1 + 1 + json_of(fs[p].1).len());
                                        if p + 1 < fs.len() {
                                            assert(s@[j2 as int] == ',');
                                            assert(false);
                                        }
                                        assert(s@.skip(j2 as int) =~= seq!['}'] + rest);
                                        assert(s@.skip(j2 as int).len() == s@.len() - j2);
                                    }
                                }
                                return Some((CanonicalValue::Object(fields), j2 + 1));
                            } else {
                                proof {
                                    assert forall|v: CanonicalValue, rest: Seq<char>|
                                        (wf_value(v) && s@.skip(i as int) == #[trigger] (json_of(v)
                                            + rest) && value_boundary(rest)) implies false by {
                                        lemma_obj_member(
                                            s@,
                                            k0,
                                            v->Object_0@,
                                            fields0.len() as int,
                                            rest,
                                        );
                                        let fs = v->Object_0@;
                                        let p = fields0.len() as int;
                                        assert(j1 == k0 + json_string(fs[p].0@).len());
                                        assert(j2 == j1 + 1 + json_of(fs[p].1).len());
                                    }
                                }
                                return None;
                            }
                        },
                    }
                },
            }
        }
    } else {
        proof {
            assert forall|v: CanonicalValue, rest: Seq<char>|
                (wf_value(v) && s@.skip(i as int) == #[trigger] (json_of(v) + rest)
                    && value_boundary(rest)) implies false by {
                lemma_head_case(s@, i as int, v, rest);
                lemma_json_head(v);
            }
        }
        None
    }
}

/// Decodes canonical JSON text back into a canonical value.
///
/// The decoder accepts exactly the canonical form the encoder produces: a
/// decoded value re-encodes to the input, character for character, and it
/// refuses the input only when no well-formed value encodes to it.
pub fn decode_value(s: &str) -> (r: Option<CanonicalValue>)
    ensures
        r matches Some(v) ==> json_of(v) == s@,
        r is None ==> forall|v: CanonicalValue| wf_value(v) ==> json_of(v) != s@,
{
    match parse_value(s, 0) {
        Some((v, j)) => {
            if j == s.unicode_len() {
                proof {
                    assert(s@.subrange(0, s@.len() as int) =~= s@);
                }
                Some(v)
            } else {
                proof {
                    assert forall|v2: CanonicalValue| wf_value(v2) implies json_of(v2) != s@ by {
                        if json_of(v2) == s@ {
                            assert(s@.skip(0) =~= s@);
                            assert(json_of(v2) + Seq::<char>::empty() =~= json_of(v2));
                            assert(s@.skip(0) == json_of(v2) + Seq::<char>::empty());
                        }
                    }
                }
                None
            }
        },
        None => {
            proof {
                assert forall|v2: CanonicalValue| wf_value(v2) implies json_of(v2) != s@ by {
                    if json_of(v2) == s@ {
                        assert(s@.skip(0) =~= s@);
                        assert(json_of(v2) + Seq::<char>::empty() =~= json_of(v2));
                        assert(s@.skip(0) == json_of(v2) + Seq::<char>::empty());
                    }
                }
            }
            None
        },
    }
}

} // verus!
