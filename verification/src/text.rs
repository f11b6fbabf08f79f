use vstd::prelude::*;

verus! {

/// The lower-case form of an ASCII letter; every other character is kept.
pub open spec fn ascii_lower(c: char) -> char {
    if 'A' <= c && c <= 'Z' {
        ((c as u32) + 32) as char
    } else {
        c
    }
}

/// The upper-case form of an ASCII letter; every other character is kept.
pub open spec fn ascii_upper(c: char) -> char {
    if 'a' <= c && c <= 'z' {
        ((c as u32) - 32) as char
    } else {
        c
    }
}

/// ASCII letters lowered, everything else kept (`str::to_ascii_lowercase`).
pub open spec fn lower_seq(s: Seq<char>) -> Seq<char> {
    s.map_values(|c: char| ascii_lower(c))
}

/// Equal up to the case of ASCII letters (`str::eq_ignore_ascii_case`).
pub open spec fn eq_ignore_case(a: Seq<char>, b: Seq<char>) -> bool {
    lower_seq(a) == lower_seq(b)
}

pub fn lower_ascii_char(c: char) -> (r: char)
    ensures
        r == ascii_lower(c),
{
    if 'A' <= c && c <= 'Z' {
        ((c as u8) + 32) as char
    } else {
        c
    }
}

/// The characters of a string slice, in order.
pub fn chars_of(s: &str) -> (r: Vec<char>)
    ensures
        r@ == s@,
{
    let mut out: Vec<char> = Vec::new();
    for c in it: s.chars()
        invariant
            out@ == it.seq().take(it.index() as int),
    {
        out.push(c);
    }
    out
}

/// Appends one character to a string.
/// Trusted: `String::push` adds the character at the end, as its documentation says.
#[verifier::external_body]
pub(crate) fn push_char(s: &mut String, c: char)
    ensures
        final(s)@ == old(s)@.push(c),
{
    s.push(c);
}

/// A string holding exactly the given characters.
pub fn string_of(v: &[char]) -> (r: String)
    ensures
        r@ == v@,
{
    let mut out = String::new();
    let mut i: usize = 0;
    while i < v.len()
        invariant
            i <= v@.len(),
            out@ == v@.take(i as int),
        decreases v@.len() - i,
    {
        push_char(&mut out, v[i]);
        assert(v@.take(i + 1) == v@.take(i as int).push(v@[i as int]));
        i += 1;
    }
    assert(v@.take(v@.len() as int) == v@);
    out
}

/// The characters `v[from..to]`.
pub fn slice_chars(v: &[char], from: usize, to: usize) -> (r: Vec<char>)
    requires
        from <= to <= v@.len(),
    ensures
        r@ == v@.subrange(from as int, to as int),
{
    let mut out: Vec<char> = Vec::new();
    let mut i = from;
    while i < to
        invariant
            from <= i <= to,
            to <= v@.len(),
            out@ == v@.subrange(from as int, i as int),
        decreases to - i,
    {
        out.push(v[i]);
        assert(v@.subrange(from as int, i + 1) == v@.subrange(from as int, i as int).push(v@[i as int]));
        i += 1;
    }
    out
}

/// Whether two character sequences are equal.
pub fn chars_eq(a: &[char], b: &[char]) -> (r: bool)
    ensures
        r == (a@ == b@),
{
    if a.len() != b.len() {
        return false;
    }
    let mut i: usize = 0;
    while i < a.len()
        invariant
            i <= a@.len(),
            a@.len() == b@.len(),
            forall|j: int| 0 <= j < i ==> a@[j] == b@[j],
        decreases a@.len() - i,
    {
        if a[i] != b[i] {
            return false;
        }
        i += 1;
    }
    assert(a@ =~= b@);
    true
}

/// Whether a character sequence spells the given string.
pub fn chars_eq_str(a: &[char], b: &str) -> (r: bool)
    ensures
        r == (a@ == b@),
{
    let bv = chars_of(b);
    chars_eq(a, bv.as_slice())
}

/// Whether two strings are equal.
pub fn str_eq(a: &str, b: &str) -> (r: bool)
    ensures
        r == (a@ == b@),
{
    let av = chars_of(a);
    chars_eq_str(av.as_slice(), b)
}

/// Whether two strings are equal up to the case of ASCII letters.
pub fn str_eq_ignore_case(a: &str, b: &str) -> (r: bool)
    ensures
        r == eq_ignore_case(a@, b@),
{
    let av = chars_of(a);
    let bv = chars_of(b);
    if av.len() != bv.len() {
        assert(lower_seq(a@).len() != lower_seq(b@).len());
        return false;
    }
    let mut i: usize = 0;
    while i < av.len()
        invariant
            i <= av@.len(),
            av@.len() == bv@.len(),
            av@ == a@,
            bv@ == b@,
            forall|j: int| 0 <= j < i ==> ascii_lower(av@[j]) == ascii_lower(bv@[j]),
        decreases av@.len() - i,
    {
        if lower_ascii_char(av[i]) != lower_ascii_char(bv[i]) {
            assert(lower_seq(a@)[i as int] != lower_seq(b@)[i as int]);
            return false;
        }
        i += 1;
    }
    assert(lower_seq(a@) =~= lower_seq(b@));
    true
}

/// The ASCII-lowered characters of a string.
pub fn lower_chars(s: &str) -> (r: Vec<char>)
    ensures
        r@ == lower_seq(s@),
{
    let v = chars_of(s);
    let mut out: Vec<char> = Vec::new();
    let mut i: usize = 0;
    while i < v.len()
        invariant
            i <= v@.len(),
            v@ == s@,
            out@ == lower_seq(s@).take(i as int),
        decreases v@.len() - i,
    {
        out.push(lower_ascii_char(v[i]));
        assert(lower_seq(s@).take(i + 1) == lower_seq(s@).take(i as int).push(ascii_lower(v@[i as int])));
        i += 1;
    }
    assert(lower_seq(s@).take(v@.len() as int) == lower_seq(s@));
    out
}

/// Unicode `White_Space`, the property that `char::is_whitespace` tests.
pub open spec fn is_white_space(c: char) -> bool {
    ('\u{9}' <= c && c <= '\u{d}') || c == ' ' || c == '\u{85}' || c == '\u{a0}' || c == '\u{1680}'
        || ('\u{2000}' <= c && c <= '\u{200a}') || c == '\u{2028}' || c == '\u{2029}' || c == '\u{202f}'
        || c == '\u{205f}' || c == '\u{3000}'
}

pub fn white_space(c: char) -> (r: bool)
    ensures
        r == is_white_space(c),
{
    ('\u{9}' <= c && c <= '\u{d}') || c == ' ' || c == '\u{85}' || c == '\u{a0}' || c == '\u{1680}'
        || ('\u{2000}' <= c && c <= '\u{200a}') || c == '\u{2028}' || c == '\u{2029}' || c == '\u{202f}'
        || c == '\u{205f}' || c == '\u{3000}'
}

/// `s` without its leading white space.
pub open spec fn trim_start(s: Seq<char>) -> Seq<char>
    decreases s.len(),
{
    if s.len() > 0 && is_white_space(s[0]) {
        trim_start(s.drop_first())
    } else {
        s
    }
}

/// `s` without its trailing white space.
pub open spec fn trim_end(s: Seq<char>) -> Seq<char>
    decreases s.len(),
{
    if s.len() > 0 && is_white_space(s.last()) {
        trim_end(s.drop_last())
    } else {
        s
    }
}

/// `s` without leading and trailing white space (`str::trim`).
pub open spec fn trim(s: Seq<char>) -> Seq<char> {
    trim_end(trim_start(s))
}

proof fn lemma_trim_start_skip(s: Seq<char>, i: int)
    requires
        0 <= i <= s.len(),
        forall|j: int| 0 <= j < i ==> is_white_space(#[trigger] s[j]),
    ensures
        trim_start(s) == trim_start(s.skip(i)),
    decreases i,
{
    if i > 0 {
        assert(s.skip(1).skip(i - 1) == s.skip(i));
        assert forall|j: int| 0 <= j < i - 1 implies is_white_space(#[trigger] s.skip(1)[j]) by {
            assert(s.skip(1)[j] == s[j + 1]);
        }
        lemma_trim_start_skip(s.skip(1), i - 1);
        assert(s.drop_first() == s.skip(1));
    } else {
        assert(s.skip(0) == s);
    }
}

proof fn lemma_trim_end_take(s: Seq<char>, i: int)
    requires
        0 <= i <= s.len(),
        forall|j: int| i <= j < s.len() ==> is_white_space(#[trigger] s[j]),
    ensures
        trim_end(s) == trim_end(s.take(i)),
    decreases s.len() - i,
{
    if i < s.len() {
        assert(s.drop_last().take(i) == s.take(i));
        lemma_trim_end_take(s.drop_last(), i);
    } else {
        assert(s.take(i) == s);
    }
}

/// Trimming takes off exactly the white space around a text that starts and
/// ends with other characters.
pub proof fn lemma_trim_padded(before: Seq<char>, t: Seq<char>, after: Seq<char>)
    requires
        forall|j: int| 0 <= j < before.len() ==> is_white_space(#[trigger] before[j]),
        forall|j: int| 0 <= j < after.len() ==> is_white_space(#[trigger] after[j]),
        t.len() > 0,
        !is_white_space(t[0]),
        !is_white_space(t.last()),
    ensures
        trim(before + t + after) == t,
{
    let s = before + t + after;
    let n = before.len() as int;
    assert forall|j: int| 0 <= j < n implies is_white_space(#[trigger] s[j]) by {
        assert(s[j] == before[j]);
    }
    lemma_trim_start_skip(s, n);
    let u = s.skip(n);
    assert(u =~= t + after);
    assert(u[0] == t[0]);
    assert(trim_start(u) == u);
    let m = t.len() as int;
    assert forall|j: int| m <= j < u.len() implies is_white_space(#[trigger] u[j]) by {
        assert(u[j] == after[j - m]);
    }
    lemma_trim_end_take(u, m);
    assert(u.take(m) =~= t);
    assert(t.last() == t[t.len() - 1]);
}

/// The bounds of `v` once trimmed: `trim(v) == v[start..end]`.
pub fn trim_bounds(v: &[char]) -> (r: (usize, usize))
    ensures
        r.0 <= r.1 <= v@.len(),
        v@.subrange(r.0 as int, r.1 as int) == trim(v@),
{
    let n = v.len();
    let mut a: usize = 0;
    while a < n && white_space(v[a])
        invariant
            a <= n,
            n == v@.len(),
            forall|j: int| 0 <= j < a ==> is_white_space(#[trigger] v@[j]),
        decreases n - a,
    {
        a += 1;
    }
    proof {
        lemma_trim_start_skip(v@, a as int);
    }
    let ghost t = v@.skip(a as int);
    assert(trim_start(t) == t);
    let mut b: usize = n;
    while b > a && white_space(v[b - 1])
        invariant
            a <= b <= n,
            n == v@.len(),
            t == v@.skip(a as int),
            forall|j: int| b - a <= j < t.len() ==> is_white_space(#[trigger] t[j]),
        decreases b,
    {
        b -= 1;
    }
    proof {
        lemma_trim_end_take(t, b - a);
        assert(t.take(b - a) == v@.subrange(a as int, b as int));
    }
    (a, b)
}

/// The trimmed characters of a string slice.
pub fn trimmed_chars(s: &[char]) -> (r: Vec<char>)
    ensures
        r@ == trim(s@),
{
    let (a, b) = trim_bounds(s);
    slice_chars(s, a, b)
}

/// Whether `pat` occurs in `s` at position `i`.
pub open spec fn occurs_at(s: Seq<char>, pat: Seq<char>, i: int) -> bool {
    0 <= i && i + pat.len() <= s.len() && s.subrange(i, i + pat.len()) == pat
}

/// The first position at or after `k` where `pat` occurs in `s`.
pub open spec fn find_from(s: Seq<char>, pat: Seq<char>, k: int) -> Option<int>
    decreases s.len() + 1 - k,
{
    if k < 0 || k + pat.len() > s.len() {
        None
    } else if s.subrange(k, k + pat.len()) == pat {
        Some(k)
    } else {
        find_from(s, pat, k + 1)
    }
}

/// Whether `pat` occurs in `s` (`str::contains`).
pub open spec fn contains_seq(s: Seq<char>, pat: Seq<char>) -> bool {
    find_from(s, pat, 0) is Some
}

/// The text before and after the first occurrence of `pat` (`str::split_once`).
pub open spec fn split_once(s: Seq<char>, pat: Seq<char>) -> Option<(Seq<char>, Seq<char>)> {
    match find_from(s, pat, 0) {
        Some(i) => Some((s.take(i), s.skip(i + pat.len()))),
        None => None,
    }
}

proof fn lemma_find_from_bounds(s: Seq<char>, pat: Seq<char>, k: int)
    ensures
        find_from(s, pat, k) matches Some(i) ==> k <= i && i + pat.len() <= s.len() && s.subrange(
            i,
            i + pat.len(),
        ) == pat,
    decreases s.len() + 1 - k,
{
    if !(k < 0 || k + pat.len() > s.len()) && s.subrange(k, k + pat.len()) != pat {
        lemma_find_from_bounds(s, pat, k + 1);
    }
}

/// `find_from` gives the first occurrence at or after `k`, or says there is none.
pub proof fn lemma_find_from_first(s: Seq<char>, pat: Seq<char>, k: int)
    requires
        0 <= k,
    ensures
        match find_from(s, pat, k) {
            Some(i) => k <= i && occurs_at(s, pat, i) && forall|j: int| k <= j < i ==> !#[trigger] occurs_at(s, pat, j),
            None => forall|j: int| k <= j ==> !#[trigger] occurs_at(s, pat, j),
        },
    decreases s.len() + 1 - k,
{
    if !(k + pat.len() > s.len()) && s.subrange(k, k + pat.len()) != pat {
        lemma_find_from_first(s, pat, k + 1);
    }
}

/// The first position of `pat` in `v`.
pub fn find_chars(v: &[char], pat: &[char]) -> (r: Option<usize>)
    ensures
        r matches Some(i) ==> find_from(v@, pat@, 0) == Some(i as int),
        r is None ==> find_from(v@, pat@, 0) is None,
{
    let n = v.len();
    let m = pat.len();
    if m > n {
        return None;
    }
    let mut k: usize = 0;
    while k <= n - m
        invariant
            m <= n,
            n == v@.len(),
            m == pat@.len(),
            k <= n - m + 1,
            find_from(v@, pat@, 0) == find_from(v@, pat@, k as int),
        decreases n - m + 1 - k,
    {
        let mut j: usize = 0;
        while j < m && v[k + j] == pat[j]
            invariant
                j <= m,
                k + m <= n,
                n == v@.len(),
                m == pat@.len(),
                forall|t: int| 0 <= t < j ==> v@[k + t] == pat@[t],
            decreases m - j,
        {
            j += 1;
        }
        if j == m {
            assert(v@.subrange(k as int, k + m) =~= pat@);
            return Some(k);
        }
        assert(v@.subrange(k as int, k + m)[j as int] != pat@[j as int]);
        k += 1;
    }
    None
}

/// The first position of character `c` in `v`.
pub fn find_char(v: &[char], c: char) -> (r: Option<usize>)
    ensures
        r matches Some(i) ==> find_from(v@, seq![c], 0) == Some(i as int),
        r is None ==> find_from(v@, seq![c], 0) is None,
{
    let pat = vec![c];
    assert(pat@ == seq![c]);
    find_chars(v, pat.as_slice())
}

/// `s` with every occurrence of `pat` taken out, scanning left to right
/// (`str::replace(pat, "")`).
pub open spec fn remove_all(s: Seq<char>, pat: Seq<char>) -> Seq<char>
    decreases s.len(),
{
    if s.len() == 0 {
        s
    } else if pat.len() > 0 && pat.len() <= s.len() && s.take(pat.len() as int) == pat {
        remove_all(s.skip(pat.len() as int), pat)
    } else {
        seq![s[0]] + remove_all(s.skip(1), pat)
    }
}

/// Taking `pat` out of a text that starts with a part holding no first
/// character of `pat` leaves that part in front.
pub proof fn lemma_remove_all_after(a: Seq<char>, b: Seq<char>, pat: Seq<char>)
    requires
        pat.len() > 0,
        forall|i: int| 0 <= i < a.len() ==> #[trigger] a[i] != pat[0],
    ensures
        remove_all(a + b, pat) == a + remove_all(b, pat),
    decreases a.len(),
{
    if a.len() > 0 {
        let s = a + b;
        assert(s[0] == a[0]);
        if pat.len() <= s.len() && s.take(pat.len() as int) == pat {
            assert(s.take(pat.len() as int)[0] == pat[0]);
        }
        let rest = a.skip(1);
        assert forall|i: int| 0 <= i < rest.len() implies #[trigger] rest[i] != pat[0] by {
            assert(rest[i] == a[i + 1]);
        }
        lemma_remove_all_after(rest, b, pat);
        assert(s.skip(1) =~= rest + b);
        assert(seq![a[0]] + (rest + b) =~= s);
        assert(seq![a[0]] + (rest + remove_all(b, pat)) =~= a + remove_all(b, pat));
    } else {
        assert(a + b =~= b);
        assert(a + remove_all(b, pat) =~= remove_all(b, pat));
    }
}

/// Taking `pat` out of itself leaves nothing.
pub proof fn lemma_remove_all_self(pat: Seq<char>)
    requires
        pat.len() > 0,
    ensures
        remove_all(pat, pat) == Seq::<char>::empty(),
{
    assert(pat.take(pat.len() as int) =~= pat);
    let e = pat.skip(pat.len() as int);
    assert(e =~= Seq::<char>::empty());
    assert(remove_all(e, pat) == e);
    assert(remove_all(pat, pat) == remove_all(e, pat));
}

/// A text with no `c` has no occurrence of `c`.
pub proof fn lemma_find_char_absent(s: Seq<char>, c: char, k: int)
    requires
        forall|i: int| 0 <= i < s.len() ==> #[trigger] s[i] != c,
    ensures
        find_from(s, seq![c], k) is None,
    decreases s.len() + 1 - k,
{
    if 0 <= k && k + 1 <= s.len() {
        assert(s.subrange(k, k + 1)[0] == s[k]);
        lemma_find_char_absent(s, c, k + 1);
    }
}

/// `v` with every occurrence of `pat` taken out.
pub fn remove_chars(v: &[char], pat: &[char]) -> (r: Vec<char>)
    ensures
        r@ == remove_all(v@, pat@),
{
    let n = v.len();
    let m = pat.len();
    let mut out: Vec<char> = Vec::new();
    let mut i: usize = 0;
    assert(v@.skip(0) == v@);
    while i < n
        invariant
            i <= n,
            n == v@.len(),
            m == pat@.len(),
            out@ + remove_all(v@.skip(i as int), pat@) == remove_all(v@, pat@),
        decreases n - i,
    {
        let ghost rest = v@.skip(i as int);
        let mut matched = m > 0 && m <= n - i;
        if matched {
            let mut j: usize = 0;
            while j < m && v[i + j] == pat[j]
                invariant
                    j <= m,
                    i + m <= n,
                    n == v@.len(),
                    m == pat@.len(),
                    forall|t: int| 0 <= t < j ==> v@[i + t] == pat@[t],
                decreases m - j,
            {
                j += 1;
            }
            matched = j == m;
            if matched {
                assert(rest.take(m as int) =~= pat@);
            } else {
                assert(rest.take(m as int)[j as int] != pat@[j as int]);
            }
        }
        if matched {
            assert(rest.skip(m as int) == v@.skip(i + m));
            i += m;
        } else {
            assert(rest.skip(1) == v@.skip(i + 1));
            out.push(v[i]);
            assert(out@ == out@.drop_last().push(rest[0]));
            assert(seq![rest[0]] + remove_all(rest.skip(1), pat@) == remove_all(rest, pat@));
            assert(out@.drop_last() + (seq![rest[0]] + remove_all(rest.skip(1), pat@)) == out@ + remove_all(
                rest.skip(1),
                pat@,
            ));
            i += 1;
        }
    }
    assert(v@.skip(n as int) == Seq::<char>::empty());
    assert(out@ + Seq::<char>::empty() == out@);
    out
}

/// `s` with character `from` replaced by `to` everywhere.
pub open spec fn replace_char(s: Seq<char>, from: char, to: char) -> Seq<char> {
    s.map_values(|c: char| if c == from { to } else { c })
}

pub fn replace_char_exec(v: &[char], from: char, to: char) -> (r: Vec<char>)
    ensures
        r@ == replace_char(v@, from, to),
{
    let mut out: Vec<char> = Vec::new();
    let mut i: usize = 0;
    while i < v.len()
        invariant
            i <= v@.len(),
            out@ == replace_char(v@, from, to).take(i as int),
        decreases v@.len() - i,
    {
        let c = if v[i] == from { to } else { v[i] };
        out.push(c);
        assert(replace_char(v@, from, to).take(i + 1) == replace_char(v@, from, to).take(i as int).push(c));
        i += 1;
    }
    assert(replace_char(v@, from, to).take(v@.len() as int) == replace_char(v@, from, to));
    out
}

/// Whether `v` starts with `pat`.
pub fn starts_with_chars(v: &[char], pat: &[char]) -> (r: bool)
    ensures
        r == (pat@.len() <= v@.len() && v@.take(pat@.len() as int) == pat@),
{
    if pat.len() > v.len() {
        return false;
    }
    let mut j: usize = 0;
    while j < pat.len()
        invariant
            j <= pat@.len(),
            pat@.len() <= v@.len(),
            forall|t: int| 0 <= t < j ==> v@[t] == pat@[t],
        decreases pat@.len() - j,
    {
        if v[j] != pat[j] {
            assert(v@.take(pat@.len() as int)[j as int] != pat@[j as int]);
            return false;
        }
        j += 1;
    }
    assert(v@.take(pat@.len() as int) =~= pat@);
    true
}

/// Whether `v` ends with `pat`.
pub fn ends_with_chars(v: &[char], pat: &[char]) -> (r: bool)
    ensures
        r == (pat@.len() <= v@.len() && v@.skip(v@.len() - pat@.len()) == pat@),
{
    if pat.len() > v.len() {
        return false;
    }
    let off = v.len() - pat.len();
    let mut j: usize = 0;
    while j < pat.len()
        invariant
            j <= pat@.len(),
            off + pat@.len() == v@.len(),
            v@.len() == v.len(),
            forall|t: int| 0 <= t < j ==> v@[off + t] == pat@[t],
        decreases pat@.len() - j,
    {
        if v[off + j] != pat[j] {
            assert(v@.skip(off as int)[j as int] != pat@[j as int]);
            return false;
        }
        j += 1;
    }
    assert(v@.skip(off as int) =~= pat@);
    true
}

/// The white-space separated words of `s` (`str::split_whitespace`).
pub open spec fn words(s: Seq<char>) -> Seq<Seq<char>>
    decreases s.len(),
{
    if s.len() == 0 {
        Seq::empty()
    } else if is_white_space(s.last()) {
        words(s.drop_last())
    } else {
        let r = words(s.drop_last());
        if s.len() > 1 && !is_white_space(s[s.len() - 2]) {
            r.update(r.len() - 1, r.last().push(s.last()))
        } else {
            r.push(seq![s.last()])
        }
    }
}

proof fn lemma_words_nonempty(s: Seq<char>)
    requires
        s.len() > 0,
        !is_white_space(s.last()),
    ensures
        words(s).len() > 0,
    decreases s.len(),
{
    if s.len() > 1 && !is_white_space(s[s.len() - 2]) {
        assert(s.drop_last().last() == s[s.len() - 2]);
        lemma_words_nonempty(s.drop_last());
    }
}

/// The words of `v`.
pub fn words_of(v: &[char]) -> (r: Vec<Vec<char>>)
    ensures
        r@.len() == words(v@).len(),
        forall|i: int| 0 <= i < r@.len() ==> #[trigger] r@[i]@ == words(v@)[i],
{
    let mut out: Vec<Vec<char>> = Vec::new();
    let mut i: usize = 0;
    while i < v.len()
        invariant
            i <= v@.len(),
            out@.len() == words(v@.take(i as int)).len(),
            forall|k: int| 0 <= k < out@.len() ==> #[trigger] out@[k]@ == words(v@.take(i as int))[k],
        decreases v@.len() - i,
    {
        let ghost pre = v@.take(i as int);
        let ghost cur = v@.take(i + 1);
        assert(cur.drop_last() == pre);
        assert(cur.last() == v@[i as int]);
        let c = v[i];
        if white_space(c) {
        } else if i > 0 && !white_space(v[i - 1]) {
            assert(cur[cur.len() - 2] == v@[i - 1]);
            assert(pre.last() == v@[i - 1]);
            proof {
                lemma_words_nonempty(pre);
            }
            let ghost before = out@;
            let mut w = out.pop().unwrap();
            w.push(c);
            out.push(w);
            assert forall|k: int| 0 <= k < out@.len() implies #[trigger] out@[k]@ == words(cur)[k] by {
                if k < out@.len() - 1 {
                    assert(out@[k] == before[k]);
                }
            }
        } else {
            if i > 0 {
                assert(cur[cur.len() - 2] == v@[i - 1]);
            }
            let mut w: Vec<char> = Vec::new();
            w.push(c);
            out.push(w);
        }
        i += 1;
    }
    assert(v@.take(v@.len() as int) == v@);
    out
}

} // verus!
