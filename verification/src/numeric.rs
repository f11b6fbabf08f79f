use vstd::prelude::*;

use crate::sheet::{ParseError, SpecParseError};

use crate::text::{
    chars_eq_str, find_char, find_chars, find_from, lower_seq, remove_all, remove_chars, replace_char,
    replace_char_exec, slice_chars, split_once, string_of, trim, trimmed_chars,
};

verus! {

pub open spec fn is_digit(c: char) -> bool {
    '0' <= c && c <= '9'
}

pub open spec fn all_digits(s: Seq<char>) -> bool {
    forall|i: int| 0 <= i < s.len() ==> is_digit(#[trigger] s[i])
}

/// The number written by a string of decimal digits.
pub open spec fn digits_value(s: Seq<char>) -> int
    decreases s.len(),
{
    if s.len() == 0 {
        0
    } else {
        digits_value(s.drop_last()) * 10 + (s.last() as int - '0' as int)
    }
}

/// The sign and digits of an integer written in `s`.
pub open spec fn sign_split(s: Seq<char>) -> (bool, Seq<char>) {
    if s.len() > 0 && s[0] == '-' {
        (true, s.skip(1))
    } else if s.len() > 0 && s[0] == '+' {
        (false, s.skip(1))
    } else {
        (false, s)
    }
}

/// The `i64` that `s` spells, if any: an optional sign, then at least one
/// decimal digit, with a value in range (`str::parse::<i64>`).
pub open spec fn integer_text(s: Seq<char>) -> Option<i64> {
    let neg = sign_split(s).0;
    let body = sign_split(s).1;
    if body.len() == 0 || !all_digits(body) {
        None
    } else {
        let v = if neg { -digits_value(body) } else { digits_value(body) };
        if i64::MIN <= v <= i64::MAX {
            Some(v as i64)
        } else {
            None
        }
    }
}

proof fn lemma_digits_value_nonneg(s: Seq<char>)
    requires
        all_digits(s),
    ensures
        digits_value(s) >= 0,
    decreases s.len(),
{
    if s.len() > 0 {
        assert(all_digits(s.drop_last())) by {
            assert forall|i: int| 0 <= i < s.drop_last().len() implies is_digit(#[trigger] s.drop_last()[i]) by {
                assert(s.drop_last()[i] == s[i]);
            }
        }
        lemma_digits_value_nonneg(s.drop_last());
    }
}

/// The `i64` written in `v`, if it is one.
pub fn parse_i64(v: &[char]) -> (r: Option<i64>)
    ensures
        r == integer_text(v@),
{
    let n = v.len();
    let neg = n > 0 && v[0] == '-';
    let start: usize = if n > 0 && (v[0] == '-' || v[0] == '+') { 1 } else { 0 };
    let ghost body = sign_split(v@).1;
    assert(body == v@.skip(start as int));
    if start >= n {
        return None;
    }
    let bound: u64 = 9223372036854775808;
    let mut mag: u64 = 0;
    let mut over = false;
    let mut i: usize = start;
    while i < n
        invariant
            start <= i <= n,
            n == v@.len(),
            body == v@.skip(start as int),
            body == sign_split(v@).1,
            neg == sign_split(v@).0,
            bound == 9223372036854775808,
            all_digits(body.take(i - start)),
            !over ==> mag == digits_value(body.take(i - start)) && mag <= bound,
            over ==> digits_value(body.take(i - start)) > bound,
        decreases n - i,
    {
        let c = v[i];
        let ghost pre = body.take(i - start);
        let ghost cur = body.take(i - start + 1);
        assert(cur.drop_last() == pre);
        assert(cur.last() == c);
        if !('0' <= c && c <= '9') {
            assert(body[i - start] == c);
            assert(!is_digit(body[i - start]));
            assert(!all_digits(body));
            assert(integer_text(v@) is None);
            return None;
        }
        assert(all_digits(cur)) by {
            assert forall|j: int| 0 <= j < cur.len() implies is_digit(#[trigger] cur[j]) by {
                if j < pre.len() {
                    assert(cur[j] == pre[j]);
                }
            }
        }
        let d = (c as u32 - '0' as u32) as u64;
        if over {
            proof {
                lemma_digits_value_nonneg(pre);
            }
        } else if mag <= 922337203685477580 {
            let next = mag * 10 + d;
            if next > bound {
                over = true;
            } else {
                mag = next;
            }
        } else {
            over = true;
        }
        i += 1;
    }
    assert(body.take(n - start) == body);
    if over {
        return None;
    }
    if neg {
        if mag == bound {
            Some(i64::MIN)
        } else {
            Some(-(mag as i64))
        }
    } else {
        if mag == bound {
            None
        } else {
            Some(mag as i64)
        }
    }
}

/// The digits and at most one point of a decimal mantissa, with a digit somewhere.
pub open spec fn is_mantissa(m: Seq<char>) -> bool {
    &&& forall|i: int| 0 <= i < m.len() ==> is_digit(#[trigger] m[i]) || m[i] == '.'
    &&& forall|i: int, j: int| 0 <= i < j < m.len() ==> !(#[trigger] m[i] == '.' && #[trigger] m[j] == '.')
    &&& exists|i: int| 0 <= i < m.len() && is_digit(#[trigger] m[i])
}

/// An exponent after the `e`: an optional sign and at least one digit.
pub open spec fn is_exponent(x: Seq<char>) -> bool {
    let d = if x.len() > 0 && (x[0] == '+' || x[0] == '-') { x.skip(1) } else { x };
    d.len() > 0 && all_digits(d)
}

/// A decimal number: a mantissa, optionally followed by `e` and an exponent.
pub open spec fn is_decimal(b: Seq<char>) -> bool {
    is_mantissa(b) || exists|k: int|
        0 <= k < b.len() && #[trigger] b[k] == 'e' && is_mantissa(b.take(k)) && is_exponent(b.skip(k + 1))
}

/// The text without a leading sign.
pub open spec fn unsigned_part(l: Seq<char>) -> Seq<char> {
    if l.len() > 0 && (l[0] == '+' || l[0] == '-') {
        l.skip(1)
    } else {
        l
    }
}

/// The texts that `str::parse::<f64>` accepts: with ASCII letters lowered,
/// an optional sign, then `inf`, `infinity`, `nan` or a decimal number.
pub open spec fn is_float_text(s: Seq<char>) -> bool {
    let b = unsigned_part(lower_seq(s));
    b == "inf"@ || b == "infinity"@ || b == "nan"@ || is_decimal(b)
}

fn check_mantissa(m: &[char]) -> (r: bool)
    ensures
        r == is_mantissa(m@),
{
    let n = m.len();
    let mut dot: Option<usize> = None;
    let mut digit = false;
    let mut i: usize = 0;
    while i < n
        invariant
            i <= n,
            n == m@.len(),
            forall|j: int| 0 <= j < i ==> is_digit(#[trigger] m@[j]) || m@[j] == '.',
            forall|j: int| 0 <= j < i && #[trigger] m@[j] == '.' ==> dot == Some(j as usize),
            dot matches Some(d) ==> d < i && m@[d as int] == '.',
            digit == exists|j: int| 0 <= j < i && is_digit(#[trigger] m@[j]),
        decreases n - i,
    {
        let c = m[i];
        if c == '.' {
            if let Some(d) = dot {
                assert(m@[d as int] == '.' && m@[i as int] == '.');
                return false;
            }
            dot = Some(i);
        } else if '0' <= c && c <= '9' {
            digit = true;
        } else {
            return false;
        }
        i += 1;
    }
    proof {
        assert forall|a: int, b: int| 0 <= a < b < m@.len() implies !(#[trigger] m@[a] == '.'
            && #[trigger] m@[b] == '.') by {}
    }
    digit
}

fn check_exponent(x: &[char]) -> (r: bool)
    ensures
        r == is_exponent(x@),
{
    let n = x.len();
    let start: usize = if n > 0 && (x[0] == '+' || x[0] == '-') { 1 } else { 0 };
    let ghost d = if x@.len() > 0 && (x@[0] == '+' || x@[0] == '-') { x@.skip(1) } else { x@ };
    assert(d == x@.skip(start as int));
    if start >= n {
        return false;
    }
    let mut i = start;
    while i < n
        invariant
            start <= i <= n,
            n == x@.len(),
            d == x@.skip(start as int),
            d == (if x@.len() > 0 && (x@[0] == '+' || x@[0] == '-') { x@.skip(1) } else { x@ }),
            forall|j: int| 0 <= j < i - start ==> is_digit(#[trigger] d[j]),
        decreases n - i,
    {
        if !('0' <= x[i] && x[i] <= '9') {
            assert(d[i - start] == x@[i as int]);
            return false;
        }
        i += 1;
    }
    true
}

fn check_decimal(b: &[char]) -> (r: bool)
    ensures
        r == is_decimal(b@),
{
    proof {
        crate::text::lemma_find_from_first(b@, seq!['e'], 0);
    }
    match find_char(b, 'e') {
        None => {
            proof {
                assert forall|k: int| 0 <= k < b@.len() && #[trigger] b@[k] == 'e' implies false by {
                    assert(b@.subrange(k, k + 1) =~= seq!['e']);
                    assert(crate::text::occurs_at(b@, seq!['e'], k));
                }
            }
            check_mantissa(b)
        },
        Some(k) => {
            assert(find_from(b@, seq!['e'], 0) == Some(k as int));
            assert(crate::text::occurs_at(b@, seq!['e'], k as int));
            assert(b@.subrange(k as int, k + 1)[0] == 'e');
            assert(k < b.len());
            let m = slice_chars(b, 0, k);
            let x = slice_chars(b, k + 1, b.len());
            assert(m@ == b@.take(k as int));
            assert(x@ == b@.skip(k + 1));
            let ok = check_mantissa(m.as_slice()) && check_exponent(x.as_slice());
            proof {
                if !ok {
                    assert(!is_mantissa(b@)) by {
                        assert(b@[k as int] == 'e');
                    }
                    assert forall|k2: int| 0 <= k2 < b@.len() && #[trigger] b@[k2] == 'e' implies !(is_mantissa(
                        b@.take(k2),
                    ) && is_exponent(b@.skip(k2 + 1))) by {
                        if k2 != k {
                            if k2 < k {
                                assert(b@.subrange(k2, k2 + 1) =~= seq!['e']);
                                assert(crate::text::occurs_at(b@, seq!['e'], k2));
                            } else {
                                assert(b@.take(k2)[k as int] == 'e');
                            }
                        }
                    }
                }
            }
            ok
        },
    }
}

/// Whether `v` is text that `str::parse::<f64>` accepts.
pub fn is_float_text_exec(v: &[char]) -> (r: bool)
    ensures
        r == is_float_text(v@),
{
    let mut l: Vec<char> = Vec::new();
    let mut i: usize = 0;
    while i < v.len()
        invariant
            i <= v@.len(),
            l@ == lower_seq(v@).take(i as int),
        decreases v@.len() - i,
    {
        l.push(crate::text::lower_ascii_char(v[i]));
        assert(lower_seq(v@).take(i + 1) == lower_seq(v@).take(i as int).push(crate::text::ascii_lower(v@[i as int])));
        i += 1;
    }
    assert(lower_seq(v@).take(v@.len() as int) == lower_seq(v@));
    let start: usize = if l.len() > 0 && (l[0] == '+' || l[0] == '-') { 1 } else { 0 };
    let b = slice_chars(l.as_slice(), start, l.len());
    assert(b@ == unsigned_part(lower_seq(v@)));
    chars_eq_str(b.as_slice(), "inf") || chars_eq_str(b.as_slice(), "infinity") || chars_eq_str(
        b.as_slice(),
        "nan",
    ) || check_decimal(b.as_slice())
}

/// A number as written in a sheet: one literal, or a product `a x b`.
/// The texts are those `str::parse::<f64>` accepts.
#[derive(Debug, Clone, PartialEq)]
pub enum NumericTerm {
    Number(String),
    Product(String, String),
}

pub enum SpecTerm {
    Number(Seq<char>),
    Product(Seq<char>, Seq<char>),
}

impl View for NumericTerm {
    type V = SpecTerm;

    open spec fn view(&self) -> SpecTerm {
        match self {
            NumericTerm::Number(a) => SpecTerm::Number(a@),
            NumericTerm::Product(a, b) => SpecTerm::Product(a@, b@),
        }
    }
}

/// The value of a sheet cell: empty, one number, or a range whose upper end
/// may be open.
#[derive(Debug, Clone, PartialEq)]
pub enum NumericValue {
    Null,
    Single(NumericTerm),
    Range(NumericTerm, Option<NumericTerm>),
}

pub enum SpecNumeric {
    Null,
    Single(SpecTerm),
    Range(SpecTerm, Option<SpecTerm>),
}

impl View for NumericValue {
    type V = SpecNumeric;

    open spec fn view(&self) -> SpecNumeric {
        match self {
            NumericValue::Null => SpecNumeric::Null,
            NumericValue::Single(t) => SpecNumeric::Single(t@),
            NumericValue::Range(a, b) => SpecNumeric::Range(
                a@,
                match b {
                    Some(t) => Some(t@),
                    None => None,
                },
            ),
        }
    }
}

/// One number, or the product of the numbers on either side of the first `x`.
pub open spec fn spec_term(v: Seq<char>) -> Result<SpecTerm, SpecParseError> {
    match split_once(v, seq!['x']) {
        Some((l, r)) => if !is_float_text(trim(l)) {
            Err(SpecParseError::InvalidNumber(l))
        } else if !is_float_text(trim(r)) {
            Err(SpecParseError::InvalidNumber(r))
        } else {
            Ok(SpecTerm::Product(trim(l), trim(r)))
        },
        None => if is_float_text(trim(v)) {
            Ok(SpecTerm::Number(trim(v)))
        } else {
            Err(SpecParseError::InvalidNumber(v))
        },
    }
}

fn number_text(v: &[char]) -> (r: Result<String, ParseError>)
    ensures
        match r {
            Ok(t) => is_float_text(trim(v@)) && t@ == trim(v@),
            Err(e) => !is_float_text(trim(v@)) && e@ == SpecParseError::InvalidNumber(v@),
        },
{
    let t = trimmed_chars(v);
    if is_float_text_exec(t.as_slice()) {
        Ok(string_of(t.as_slice()))
    } else {
        Err(ParseError::InvalidNumber(string_of(v)))
    }
}

pub fn parse_term(v: &[char]) -> (r: Result<NumericTerm, ParseError>)
    ensures
        match r {
            Ok(t) => spec_term(v@) == Ok::<SpecTerm, SpecParseError>(t@),
            Err(e) => spec_term(v@) == Err::<SpecTerm, SpecParseError>(e@),
        },
{
    match find_char(v, 'x') {
        Some(i) => {
            proof {
                crate::text::lemma_find_from_first(v@, seq!['x'], 0);
            }
            assert(crate::text::occurs_at(v@, seq!['x'], i as int));
            assert(i < v.len());
            let l = slice_chars(v, 0, i);
            let r = slice_chars(v, i + 1, v.len());
            assert(l@ == v@.take(i as int));
            assert(r@ == v@.skip(i + 1));
            let a = number_text(l.as_slice())?;
            let b = number_text(r.as_slice())?;
            Ok(NumericTerm::Product(a, b))
        },
        None => {
            let a = number_text(v)?;
            Ok(NumericTerm::Number(a))
        },
    }
}

/// The cell text with degree signs, `s`, `rpm`, `%` and `,` taken out, trimmed.
pub open spec fn cleaned(value: Seq<char>) -> Seq<char> {
    trim(remove_all(remove_all(remove_all(remove_all(remove_all(value, "°"@), "s"@), "rpm"@), "%"@), ","@))
}

/// What a sheet cell holds: nothing (blank or the dice sign), one number, or
/// (when a range is expected) `a - b`, `a > b` or the open range `a >`.
pub open spec fn spec_normalize(raw: Seq<char>, expect_range: bool) -> Result<SpecNumeric, SpecParseError> {
    let value = trim(raw);
    if value.len() == 0 || value == "🎲"@ {
        Ok(SpecNumeric::Null)
    } else {
        let c = cleaned(value);
        if expect_range {
            if c.len() > 0 && c.last() == '>' {
                match spec_term(trim(c.drop_last())) {
                    Ok(t) => Ok(SpecNumeric::Range(t, None)),
                    Err(e) => Err(e),
                }
            } else {
                let norm = replace_char(c, '>', '-');
                match split_once(norm, " - "@) {
                    Some((p0, p1)) => if split_once(p1, " - "@) is Some {
                        Err(SpecParseError::ExpectedRange(raw))
                    } else {
                        match spec_term(trim(p0)) {
                            Err(e) => Err(e),
                            Ok(t0) => match spec_term(trim(p1)) {
                                Err(e) => Err(e),
                                Ok(t1) => Ok(SpecNumeric::Range(t0, Some(t1))),
                            },
                        }
                    },
                    None => Err(SpecParseError::ExpectedRange(raw)),
                }
            }
        } else {
            match spec_term(trim(replace_char(c, '>', '-'))) {
                Ok(t) => Ok(SpecNumeric::Single(t)),
                Err(e) => Err(e),
            }
        }
    }
}

/// The units a sheet writes after a number: seconds, rounds per minute,
/// percent and degrees.
pub open spec fn is_unit(u: Seq<char>) -> bool {
    u == "s"@ || u == "rpm"@ || u == "%"@ || u == "°"@
}

proof fn lemma_unit_shape(u: Seq<char>)
    requires
        is_unit(u),
    ensures
        u.len() > 0,
        !crate::text::is_white_space(u.last()),
        forall|i: int| 0 <= i < u.len() ==> !is_digit(#[trigger] u[i]) && u[i] != '.',
        u == "s"@ || forall|i: int| 0 <= i < u.len() ==> #[trigger] u[i] != 's',
        u == "rpm"@ || forall|i: int| 0 <= i < u.len() ==> #[trigger] u[i] != 'r',
        u == "%"@ || forall|i: int| 0 <= i < u.len() ==> #[trigger] u[i] != '%',
        u == "°"@ || forall|i: int| 0 <= i < u.len() ==> #[trigger] u[i] != '°',
        forall|i: int| 0 <= i < u.len() ==> #[trigger] u[i] != ',',
{
    reveal_strlit("s");
    reveal_strlit("rpm");
    reveal_strlit("%");
    reveal_strlit("°");
}

/// Taking one of the cleaned-out marks out of what is left of a unit: the
/// unit goes when it is that mark, and stays otherwise.
proof fn lemma_strip_mark(w: Seq<char>, pat: Seq<char>)
    requires
        w.len() == 0 || is_unit(w),
        pat == "°"@ || pat == "s"@ || pat == "rpm"@ || pat == "%"@ || pat == ","@,
    ensures
        remove_all(w, pat) == (if w == pat {
            Seq::<char>::empty()
        } else {
            w
        }),
{
    reveal_strlit("°");
    reveal_strlit("s");
    reveal_strlit("rpm");
    reveal_strlit("%");
    reveal_strlit(",");
    if w.len() == 0 {
    } else if w == pat {
        crate::text::lemma_remove_all_self(pat);
    } else {
        lemma_unit_shape(w);
        crate::text::lemma_remove_all_after(w, Seq::empty(), pat);
        assert(w + Seq::<char>::empty() =~= w);
        assert(remove_all(Seq::<char>::empty(), pat) == Seq::<char>::empty());
    }
}

proof fn lemma_mantissa_keeps(d: Seq<char>, w: Seq<char>, pat: Seq<char>)
    requires
        is_mantissa(d),
        w.len() == 0 || is_unit(w),
        pat == "°"@ || pat == "s"@ || pat == "rpm"@ || pat == "%"@ || pat == ","@,
    ensures
        remove_all(d + w, pat) == d + (if w == pat {
            Seq::<char>::empty()
        } else {
            w
        }),
{
    reveal_strlit("°");
    reveal_strlit("s");
    reveal_strlit("rpm");
    reveal_strlit("%");
    reveal_strlit(",");
    assert(pat.len() > 0);
    assert forall|i: int| 0 <= i < d.len() implies #[trigger] d[i] != pat[0] by {
        assert(is_digit(d[i]) || d[i] == '.');
    }
    crate::text::lemma_remove_all_after(d, w, pat);
    lemma_strip_mark(w, pat);
}

proof fn lemma_mantissa_float(d: Seq<char>)
    requires
        is_mantissa(d),
    ensures
        trim(d) == d,
        replace_char(d, '>', '-') == d,
        is_float_text(d),
        spec_term(d) == Ok::<SpecTerm, SpecParseError>(SpecTerm::Number(d)),
{
    let i0 = choose|i: int| 0 <= i < d.len() && is_digit(#[trigger] d[i]);
    assert(d.len() > 0);
    assert(is_digit(d[0]) || d[0] == '.');
    assert(is_digit(d[d.len() - 1]) || d[d.len() - 1] == '.');
    crate::text::lemma_trim_padded(Seq::empty(), d, Seq::empty());
    assert(Seq::<char>::empty() + d + Seq::<char>::empty() =~= d);
    assert(replace_char(d, '>', '-') =~= d) by {
        assert forall|i: int| 0 <= i < d.len() implies #[trigger] d[i] != '>' by {
            assert(is_digit(d[i]) || d[i] == '.');
        }
    }
    assert(lower_seq(d) =~= d) by {
        assert forall|i: int| 0 <= i < d.len() implies #[trigger] crate::text::ascii_lower(d[i]) == d[i] by {
            assert(is_digit(d[i]) || d[i] == '.');
        }
    }
    assert(unsigned_part(d) == d);
    assert(is_decimal(d));
    assert forall|i: int| 0 <= i < d.len() implies #[trigger] d[i] != 'x' by {
        assert(is_digit(d[i]) || d[i] == '.');
    }
    crate::text::lemma_find_char_absent(d, 'x', 0);
}

/// A plain decimal number followed by a unit (seconds `s`, `rpm`, `%` or
/// `°`) reads as the number alone: one value, the number's own text; the
/// unit never turns the cell into an error.
pub proof fn lemma_units_are_stripped(d: Seq<char>, unit: Seq<char>)
    requires
        is_mantissa(d),
        is_unit(unit),
    ensures
        spec_normalize(d + unit, false) == Ok::<SpecNumeric, SpecParseError>(SpecNumeric::Single(SpecTerm::Number(d))),
        spec_normalize(d, false) == Ok::<SpecNumeric, SpecParseError>(SpecNumeric::Single(SpecTerm::Number(d))),
        spec_normalize(d + unit, false) == spec_normalize(d, false),
{
    lemma_plain_number(d, unit);
    lemma_plain_number(d, Seq::empty());
    assert(d + Seq::<char>::empty() =~= d);
}

/// A plain decimal number, alone or followed by a unit, reads as one value:
/// the number's own text.
pub proof fn lemma_plain_number(d: Seq<char>, unit: Seq<char>)
    requires
        is_mantissa(d),
        unit.len() == 0 || is_unit(unit),
    ensures
        spec_normalize(d + unit, false) == Ok::<SpecNumeric, SpecParseError>(SpecNumeric::Single(SpecTerm::Number(d))),
{
    let s = d + unit;
    lemma_mantissa_float(d);
    assert(is_digit(d[0]) || d[0] == '.');
    assert(s[0] == d[0]);
    if unit.len() > 0 {
        lemma_unit_shape(unit);
        assert(s.last() == unit.last());
    } else {
        assert(s =~= d);
        assert(is_digit(d[d.len() - 1]) || d[d.len() - 1] == '.');
    }
    crate::text::lemma_trim_padded(Seq::empty(), s, Seq::empty());
    assert(Seq::<char>::empty() + s + Seq::<char>::empty() =~= s);
    reveal_strlit("🎲");
    assert(s != "🎲"@) by {
        if s.len() == 1 {
            assert(s[0] != "🎲"@[0]);
        }
    }
    reveal_strlit("°");
    reveal_strlit("s");
    reveal_strlit("rpm");
    reveal_strlit("%");
    reveal_strlit(",");
    let w1 = if unit == "°"@ { Seq::<char>::empty() } else { unit };
    lemma_mantissa_keeps(d, unit, "°"@);
    let w2 = if w1 == "s"@ { Seq::<char>::empty() } else { w1 };
    lemma_mantissa_keeps(d, w1, "s"@);
    let w3 = if w2 == "rpm"@ { Seq::<char>::empty() } else { w2 };
    lemma_mantissa_keeps(d, w2, "rpm"@);
    let w4 = if w3 == "%"@ { Seq::<char>::empty() } else { w3 };
    lemma_mantissa_keeps(d, w3, "%"@);
    lemma_mantissa_keeps(d, w4, ","@);
    assert(w4.len() == 0) by {
        if unit.len() > 0 {
            lemma_unit_shape(unit);
        }
    }
    assert(d + w4 =~= d);
    assert(cleaned(s) == d);
}

proof fn lemma_no_marks(t: Seq<char>)
    requires
        forall|i: int| 0 <= i < t.len() ==> is_digit(#[trigger] t[i]) || t[i] == '.' || t[i] == ' ' || t[i] == '-',
    ensures
        cleaned(t) == trim(t),
        replace_char(t, '>', '-') == t,
{
    reveal_strlit("°");
    reveal_strlit("s");
    reveal_strlit("rpm");
    reveal_strlit("%");
    reveal_strlit(",");
    let e = Seq::<char>::empty();
    assert(t + e =~= t);
    assert(remove_all(e, "°"@) == e);
    assert(remove_all(e, "s"@) == e);
    assert(remove_all(e, "rpm"@) == e);
    assert(remove_all(e, "%"@) == e);
    assert(remove_all(e, ","@) == e);
    crate::text::lemma_remove_all_after(t, e, "°"@);
    crate::text::lemma_remove_all_after(t, e, "s"@);
    crate::text::lemma_remove_all_after(t, e, "rpm"@);
    crate::text::lemma_remove_all_after(t, e, "%"@);
    crate::text::lemma_remove_all_after(t, e, ","@);
    assert(replace_char(t, '>', '-') =~= t);
}

/// A cell `a - b` of two plain decimal numbers, where a range is expected,
/// reads as the range from `a` to `b`; a cell `a >` reads as the range from
/// `a` with no upper end.
pub proof fn lemma_ranges_read(a: Seq<char>, b: Seq<char>)
    requires
        is_mantissa(a),
        is_mantissa(b),
    ensures
        spec_normalize(a + " - "@ + b, true) == Ok::<SpecNumeric, SpecParseError>(
            SpecNumeric::Range(SpecTerm::Number(a), Some(SpecTerm::Number(b))),
        ),
        spec_normalize(a + " >"@, true) == Ok::<SpecNumeric, SpecParseError>(
            SpecNumeric::Range(SpecTerm::Number(a), None),
        ),
{
    lemma_closed_range_read(a, b);
    lemma_open_range_read(a);
}

proof fn lemma_closed_range_text(a: Seq<char>, b: Seq<char>)
    requires
        is_mantissa(a),
        is_mantissa(b),
    ensures
        trim(a + " - "@ + b) == a + " - "@ + b,
        cleaned(a + " - "@ + b) == a + " - "@ + b,
        replace_char(a + " - "@ + b, '>', '-') == a + " - "@ + b,
        a + " - "@ + b != "🎲"@,
        (a + " - "@ + b).len() > 0 && (a + " - "@ + b).last() != '>',
{
    reveal_strlit(" - ");
    reveal_strlit("🎲");
    let t = a + " - "@ + b;
    assert(is_digit(a[0]) || a[0] == '.');
    assert(is_digit(b[b.len() - 1]) || b[b.len() - 1] == '.');
    assert forall|i: int| 0 <= i < t.len() implies is_digit(#[trigger] t[i]) || t[i] == '.' || t[i] == ' '
        || t[i] == '-' by {
        if i < a.len() {
            assert(t[i] == a[i]);
        } else if i >= a.len() + 3 {
            assert(t[i] == b[i - a.len() - 3]);
        }
    }
    assert(t[0] == a[0]);
    assert(t.last() == b[b.len() - 1]);
    crate::text::lemma_trim_padded(Seq::empty(), t, Seq::empty());
    assert(Seq::<char>::empty() + t + Seq::<char>::empty() =~= t);
    lemma_no_marks(t);
    assert(t.len() >= 5);
}

proof fn lemma_closed_range_split(a: Seq<char>, b: Seq<char>)
    requires
        is_mantissa(a),
        is_mantissa(b),
    ensures
        split_once(a + " - "@ + b, " - "@) == Some((a, b)),
        split_once(b, " - "@) is None,
{
    reveal_strlit(" - ");
    let sep = " - "@;
    let t = a + sep + b;
    crate::text::lemma_find_from_first(t, sep, 0);
    let k = a.len() as int;
    assert(crate::text::occurs_at(t, sep, k)) by {
        assert(t.subrange(k, k + 3) =~= sep);
    }
    assert forall|j: int| 0 <= j < k implies !#[trigger] crate::text::occurs_at(t, sep, j) by {
        if crate::text::occurs_at(t, sep, j) {
            assert(t.subrange(j, j + 3)[0] == t[j]);
            assert(t[j] == a[j]);
            assert(is_digit(a[j]) || a[j] == '.');
        }
    }
    assert(crate::text::find_from(t, sep, 0) == Some(k));
    assert(t.take(k) =~= a);
    assert(t.skip(k + 3) =~= b);
    crate::text::lemma_find_from_first(b, sep, 0);
    if crate::text::find_from(b, sep, 0) is Some {
        let j = crate::text::find_from(b, sep, 0)->0;
        assert(b.subrange(j, j + 3)[0] == b[j]);
        assert(is_digit(b[j]) || b[j] == '.');
    }
}

proof fn lemma_closed_range_read(a: Seq<char>, b: Seq<char>)
    requires
        is_mantissa(a),
        is_mantissa(b),
    ensures
        spec_normalize(a + " - "@ + b, true) == Ok::<SpecNumeric, SpecParseError>(
            SpecNumeric::Range(SpecTerm::Number(a), Some(SpecTerm::Number(b))),
        ),
{
    lemma_mantissa_float(a);
    lemma_mantissa_float(b);
    lemma_closed_range_text(a, b);
    lemma_closed_range_split(a, b);
}

#[verifier::rlimit(40)]
proof fn lemma_open_range_read(a: Seq<char>)
    requires
        is_mantissa(a),
    ensures
        spec_normalize(a + " >"@, true) == Ok::<SpecNumeric, SpecParseError>(
            SpecNumeric::Range(SpecTerm::Number(a), None),
        ),
{
    reveal_strlit(" >");
    reveal_strlit("🎲");
    lemma_mantissa_float(a);
    let o = a + " >"@;
    assert(is_digit(a[0]) || a[0] == '.');
    assert(o[0] == a[0]);
    assert(o.last() == '>');
    crate::text::lemma_trim_padded(Seq::empty(), o, Seq::empty());
    assert(Seq::<char>::empty() + o + Seq::<char>::empty() =~= o);
    assert(o != "🎲"@) by {
        assert(o.len() >= 3);
    }
    lemma_no_marks_gt(a);
    let o2 = a + seq![' '];
    assert(o.drop_last() =~= o2);
    assert(is_digit(a[a.len() - 1]) || a[a.len() - 1] == '.');
    crate::text::lemma_trim_padded(Seq::empty(), a, seq![' ']);
    assert(Seq::<char>::empty() + a + seq![' '] =~= o2);
}

proof fn lemma_no_marks_gt(a: Seq<char>)
    requires
        is_mantissa(a),
    ensures
        cleaned(a + " >"@) == a + " >"@,
{
    reveal_strlit(" >");
    reveal_strlit("°");
    reveal_strlit("s");
    reveal_strlit("rpm");
    reveal_strlit("%");
    reveal_strlit(",");
    let o = a + " >"@;
    let e = Seq::<char>::empty();
    assert(o + e =~= o);
    assert forall|i: int| 0 <= i < o.len() implies #[trigger] o[i] != '°' && o[i] != 's' && o[i] != 'r'
        && o[i] != '%' && o[i] != ',' by {
        if i < a.len() {
            assert(o[i] == a[i]);
            assert(is_digit(a[i]) || a[i] == '.');
        }
    }
    assert(remove_all(e, "°"@) == e);
    assert(remove_all(e, "s"@) == e);
    assert(remove_all(e, "rpm"@) == e);
    assert(remove_all(e, "%"@) == e);
    assert(remove_all(e, ","@) == e);
    crate::text::lemma_remove_all_after(o, e, "°"@);
    crate::text::lemma_remove_all_after(o, e, "s"@);
    crate::text::lemma_remove_all_after(o, e, "rpm"@);
    crate::text::lemma_remove_all_after(o, e, "%"@);
    crate::text::lemma_remove_all_after(o, e, ","@);
    assert(is_digit(a[0]) || a[0] == '.');
    assert(o[0] == a[0]);
    assert(o.last() == '>');
    crate::text::lemma_trim_padded(Seq::empty(), o, Seq::empty());
    assert(Seq::<char>::empty() + o + Seq::<char>::empty() =~= o);
}

fn remove_str(v: &[char], pat: &str) -> (r: Vec<char>)
    ensures
        r@ == remove_all(v@, pat@),
{
    let p = crate::text::chars_of(pat);
    remove_chars(v, p.as_slice())
}

/// Reads a sheet cell as a number or a range of numbers.
pub fn normalize_numeric_value(raw_value: &str, expect_range: bool) -> (r: Result<NumericValue, ParseError>)
    ensures
        match r {
            Ok(v) => spec_normalize(raw_value@, expect_range) == Ok::<SpecNumeric, SpecParseError>(v@),
            Err(e) => spec_normalize(raw_value@, expect_range) == Err::<SpecNumeric, SpecParseError>(e@),
        },
{
    let raw = crate::text::chars_of(raw_value);
    let value = trimmed_chars(raw.as_slice());
    if value.len() == 0 || chars_eq_str(value.as_slice(), "🎲") {
        return Ok(NumericValue::Null);
    }
    let c1 = remove_str(value.as_slice(), "°");
    let c2 = remove_str(c1.as_slice(), "s");
    let c3 = remove_str(c2.as_slice(), "rpm");
    let c4 = remove_str(c3.as_slice(), "%");
    let c5 = remove_str(c4.as_slice(), ",");
    let c = trimmed_chars(c5.as_slice());
    assert(c@ == cleaned(value@));
    if expect_range {
        if c.len() > 0 && c[c.len() - 1] == '>' {
            let prefix = slice_chars(c.as_slice(), 0, c.len() - 1);
            assert(prefix@ == c@.drop_last());
            let p = trimmed_chars(prefix.as_slice());
            let t = parse_term(p.as_slice())?;
            return Ok(NumericValue::Range(t, None));
        }
        let norm = replace_char_exec(c.as_slice(), '>', '-');
        let sep = crate::text::chars_of(" - ");
        proof {
            reveal_strlit(" - ");
        }
        assert(sep@.len() == 3);
        match find_chars(norm.as_slice(), sep.as_slice()) {
            Some(i) => {
                proof {
                    crate::text::lemma_find_from_first(norm@, sep@, 0);
                }
                assert(crate::text::occurs_at(norm@, sep@, i as int));
                assert(i + 3 <= norm.len());
                let p0 = slice_chars(norm.as_slice(), 0, i);
                let p1 = slice_chars(norm.as_slice(), i + 3, norm.len());
                assert(p0@ == norm@.take(i as int));
                assert(p1@ == norm@.skip(i + 3));
                if find_chars(p1.as_slice(), sep.as_slice()).is_some() {
                    return Err(ParseError::ExpectedRange(raw_value.to_owned()));
                }
                let q0 = trimmed_chars(p0.as_slice());
                let t0 = parse_term(q0.as_slice())?;
                let q1 = trimmed_chars(p1.as_slice());
                let t1 = parse_term(q1.as_slice())?;
                Ok(NumericValue::Range(t0, Some(t1)))
            },
            None => Err(ParseError::ExpectedRange(raw_value.to_owned())),
        }
    } else {
        let norm = replace_char_exec(c.as_slice(), '>', '-');
        let q = trimmed_chars(norm.as_slice());
        let t = parse_term(q.as_slice())?;
        Ok(NumericValue::Single(t))
    }
}

} // verus!
