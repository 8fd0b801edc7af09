use vstd::prelude::*;

verus! {

/// The tagged union that crosses the sandbox boundary: every script result and
/// every stored value is carried in this shape and serialized to its canonical
/// JSON text.
///
/// A number is kept as its canonical decimal text rather than as a machine
/// float, so that the full range of runtime numbers survives the round trip
/// and the core stays within integer reasoning.
#[derive(Debug, PartialEq)]
pub enum CanonicalValue {
    Null,
    Bool(bool),
    Number(String),
    Text(String),
    Array(Vec<CanonicalValue>),
    Object(Vec<(String, CanonicalValue)>),
}

pub open spec fn is_digit(c: char) -> bool {
    '0' <= c && c <= '9'
}

/// Length of the run of decimal digits at the front of `s`.
pub open spec fn digit_run(s: Seq<char>) -> int
    decreases s.len(),
{
    if s.len() == 0 || !is_digit(s[0]) {
        0
    } else {
        1 + digit_run(s.drop_first())
    }
}

/// An exponent suffix: empty, or `e`/`E`, an optional sign, then digits.
pub open spec fn exp_tail(s: Seq<char>) -> bool {
    if s.len() == 0 {
        true
    } else if s[0] == 'e' || s[0] == 'E' {
        let t = if s.len() >= 2 && (s[1] == '+' || s[1] == '-') {
            s.subrange(2, s.len() as int)
        } else {
            s.drop_first()
        };
        t.len() > 0 && digit_run(t) == t.len()
    } else {
        false
    }
}

/// A fraction-then-exponent suffix: empty, or `.` and digits followed by an
/// exponent suffix, or an exponent suffix alone.
pub open spec fn frac_exp_tail(s: Seq<char>) -> bool {
    if s.len() == 0 {
        true
    } else if s[0] == '.' {
        let t = s.drop_first();
        let k = digit_run(t);
        k > 0 && k + 1 <= s.len() && exp_tail(t.skip(k))
    } else {
        exp_tail(s)
    }
}

/// The canonical decimal text of a JSON number: an optional minus sign, an
/// integer part without a superfluous leading zero, then an optional fraction
/// and an optional exponent.
pub open spec fn num_text(s: Seq<char>) -> bool {
    let t = if s.len() > 0 && s[0] == '-' {
        s.drop_first()
    } else {
        s
    };
    let k = digit_run(t);
    k > 0 && (t[0] != '0' || k == 1) && frac_exp_tail(t.skip(k))
}

/// A well-formed canonical value: every number in it carries canonical
/// decimal text.
pub open spec fn wf_value(v: CanonicalValue) -> bool
    decreases v,
{
    match v {
        CanonicalValue::Null => true,
        CanonicalValue::Bool(_) => true,
        CanonicalValue::Number(t) => num_text(t@),
        CanonicalValue::Text(_) => true,
        CanonicalValue::Array(es) => forall|i: int|
            0 <= i < es@.len() ==> wf_value(#[trigger] es@[i]),
        CanonicalValue::Object(fs) => forall|i: int|
            0 <= i < fs@.len() ==> wf_value(#[trigger] fs@[i].1),
    }
}

/// Length of the digit run starting at position `from`.
fn scan_digits(s: &str, from: usize) -> (k: usize)
    requires
        from <= s@.len(),
    ensures
        from + k <= s@.len(),
        k as int == digit_run(s@.skip(from as int)),
{
    let len = s.unicode_len();
    let mut i: usize = from;
    while i < len
        invariant
            from <= i <= len,
            len == s@.len(),
            digit_run(s@.skip(from as int)) == i - from + digit_run(s@.skip(i as int)),
        decreases len - i,
    {
        let c = s.get_char(i);
        proof {
            assert(s@.skip(i as int)[0] == s@[i as int]);
        }
        if !('0' <= c && c <= '9') {
            return i - from;
        }
        proof {
            assert(s@.skip(i as int).drop_first() =~= s@.skip(i + 1 as int));
        }
        i += 1;
    }
    proof {
        assert(s@.skip(len as int) =~= Seq::<char>::empty());
    }
    i - from
}

/// Decides `exp_tail` for the suffix of `s` starting at `p`.
fn check_exp_tail(s: &str, p: usize) -> (r: bool)
    requires
        p <= s@.len(),
    ensures
        r == exp_tail(s@.skip(p as int)),
{
    let len = s.unicode_len();
    if p == len {
        proof {
            assert(s@.skip(p as int) =~= Seq::<char>::empty());
        }
        return true;
    }
    let c = s.get_char(p);
    proof {
        assert(s@.skip(p as int)[0] == s@[p as int]);
    }
    if !(c == 'e' || c == 'E') {
        return false;
    }
    let q: usize = if p + 1 < len {
        let d = s.get_char(p + 1);
        proof {
            assert(s@.skip(p as int)[1] == s@[p + 1 as int]);
        }
        if d == '+' || d == '-' {
            p + 2
        } else {
            p + 1
        }
    } else {
        p + 1
    };
    proof {
        let u = s@.skip(p as int);
        if q == p + 2 {
            assert(u.subrange(2, u.len() as int) =~= s@.skip(q as int));
        } else {
            assert(u.drop_first() =~= s@.skip(q as int));
        }
    }
    let k = scan_digits(s, q);
    q < len && q + k == len
}

/// Decides `frac_exp_tail` for the suffix of `s` starting at `p`.
fn check_frac_exp(s: &str, p: usize) -> (r: bool)
    requires
        p <= s@.len(),
    ensures
        r == frac_exp_tail(s@.skip(p as int)),
{
    let len = s.unicode_len();
    if p == len {
        proof {
            assert(s@.skip(p as int) =~= Seq::<char>::empty());
        }
        return true;
    }
    let c = s.get_char(p);
    proof {
        assert(s@.skip(p as int)[0] == s@[p as int]);
    }
    if c == '.' {
        proof {
            assert(s@.skip(p as int).drop_first() =~= s@.skip(p + 1 as int));
        }
        let k = scan_digits(s, p + 1);
        if k == 0 {
            return false;
        }
        proof {
            assert(s@.skip(p + 1 as int).skip(k as int) =~= s@.skip(p + 1 + k as int));
        }
        check_exp_tail(s, p + 1 + k)
    } else {
        check_exp_tail(s, p)
    }
}

/// Decides whether `s` is the canonical decimal text of a number.
pub fn number_text_valid(s: &str) -> (r: bool)
    ensures
        r == num_text(s@),
{
    let len = s.unicode_len();
    if len == 0 {
        return false;
    }
    let c0 = s.get_char(0);
    let start: usize = if c0 == '-' {
        1
    } else {
        0
    };
    proof {
        if c0 == '-' {
            assert(s@.drop_first() =~= s@.skip(1));
        } else {
            assert(s@.skip(0) =~= s@);
        }
    }
    if start >= len {
        return false;
    }
    let k = scan_digits(s, start);
    if k == 0 {
        return false;
    }
    let t0 = s.get_char(start);
    proof {
        assert(s@.skip(start as int)[0] == s@[start as int]);
    }
    if t0 == '0' && k != 1 {
        return false;
    }
    proof {
        assert(s@.skip(start as int).skip(k as int) =~= s@.skip(start + k as int));
    }
    check_frac_exp(s, start + k)
}

impl CanonicalValue {
    /// A number value from its canonical decimal text, refusing any other
    /// text, so that every value built this way is well formed.
    pub fn number(t: String) -> (r: Option<CanonicalValue>)
        ensures
            match r {
                Some(v) => v == CanonicalValue::Number(t) && wf_value(v),
                None => !num_text(t@),
            },
    {
        if number_text_valid(t.as_str()) {
            Some(CanonicalValue::Number(t))
        } else {
            None
        }
    }
}

} // verus!
