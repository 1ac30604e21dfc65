//! Reading the arguments of the `run` command: a transition call such as
//! `deposit(10, Side::Buy)` and the values written in it.
use vstd::prelude::*;
use crate::value::{Val, Value};

verus! {

/// The whitespace characters of Unicode (the `White_Space` property).
pub open spec fn is_ws(c: char) -> bool {
    ||| ('\u{9}' <= c && c <= '\u{d}')
    ||| c == ' '
    ||| c == '\u{85}'
    ||| c == '\u{a0}'
    ||| c == '\u{1680}'
    ||| ('\u{2000}' <= c && c <= '\u{200a}')
    ||| c == '\u{2028}'
    ||| c == '\u{2029}'
    ||| c == '\u{202f}'
    ||| c == '\u{205f}'
    ||| c == '\u{3000}'
}

pub fn is_whitespace(c: char) -> (r: bool)
    ensures
        r == is_ws(c),
{
    ('\u{9}' <= c && c <= '\u{d}') || c == ' ' || c == '\u{85}' || c == '\u{a0}' || c == '\u{1680}'
        || ('\u{2000}' <= c && c <= '\u{200a}') || c == '\u{2028}' || c == '\u{2029}'
        || c == '\u{202f}' || c == '\u{205f}' || c == '\u{3000}'
}

/// The position of the first `c` in `s`.
pub open spec fn first_index(s: Seq<char>, c: char) -> Option<int>
    decreases s.len(),
{
    if s.len() == 0 {
        None
    } else if s[0] == c {
        Some(0)
    } else {
        match first_index(s.drop_first(), c) {
            Some(i) => Some(i + 1),
            None => None,
        }
    }
}

pub proof fn lemma_first_index(s: Seq<char>, c: char)
    ensures
        first_index(s, c) matches Some(i) ==> 0 <= i < s.len() && s[i] == c
            && forall|j: int| 0 <= j < i ==> s[j] != c,
        first_index(s, c) is None ==> forall|j: int| 0 <= j < s.len() ==> s[j] != c,
    decreases s.len(),
{
    if s.len() > 0 {
        lemma_first_index(s.drop_first(), c);
        if s[0] != c {
            assert forall|j: int| 1 <= j < s.len() implies s[j] == s.drop_first()[j - 1] by {}
        }
    }
}

/// The pieces of `s` between the separators `sep`, in order (one more than
/// there are separators).
pub open spec fn split(s: Seq<char>, sep: char) -> Seq<Seq<char>>
    decreases s.len(),
{
    match first_index(s, sep) {
        Some(i) => {
            proof {
                lemma_first_index(s, sep);
            }
            seq![s.take(i)] + split(s.skip(i + 1), sep)
        },
        None => seq![s],
    }
}

/// Number of leading whitespace characters.
pub open spec fn lead_ws(s: Seq<char>) -> nat
    decreases s.len(),
{
    if s.len() > 0 && is_ws(s[0]) { 1 + lead_ws(s.drop_first()) } else { 0 }
}

/// Number of trailing whitespace characters.
pub open spec fn trail_ws(s: Seq<char>) -> nat
    decreases s.len(),
{
    if s.len() > 0 && is_ws(s.last()) { 1 + trail_ws(s.drop_last()) } else { 0 }
}

/// `s` without leading and trailing whitespace.
pub open spec fn trim(s: Seq<char>) -> Seq<char> {
    let t = s.skip(lead_ws(s) as int);
    t.take(t.len() - trail_ws(t))
}

/// A transition call: with no `(` the whole text is the name and there are
/// no arguments; otherwise the name is what comes before the first `(`, and
/// the arguments are the text between it and the last character, split at
/// commas and trimmed (none when that text is empty).
pub open spec fn call_parts(s: Seq<char>) -> (Seq<char>, Seq<Seq<char>>) {
    match first_index(s, '(') {
        None => (s, Seq::empty()),
        Some(p) => {
            let inner = s.subrange(p + 1, s.len() - 1);
            (s.take(p), if inner.len() == 0 { Seq::empty() } else { split(inner, ',').map_values(|a: Seq<char>| trim(a)) })
        },
    }
}

/// A call can be read when it has no `(`, or when the first `(` is not its
/// last character and its last character is a single byte.
pub open spec fn call_readable(s: Seq<char>) -> bool {
    match first_index(s, '(') {
        None => true,
        Some(p) => p + 1 < s.len() && (s.last() as u32) < 0x80,
    }
}

pub open spec fn is_digit(c: char) -> bool {
    '0' <= c && c <= '9'
}

pub open spec fn digit_value(c: char) -> int {
    (c as int) - ('0' as int)
}

/// The number written by a run of decimal digits.
pub open spec fn digits_value(s: Seq<char>) -> int
    decreases s.len(),
{
    if s.len() == 0 { 0 } else { digits_value(s.drop_last()) * 10 + digit_value(s.last()) }
}

/// Every character of `ds` is a decimal digit.
pub open spec fn all_digits(ds: Seq<char>) -> bool {
    forall|i: int| 0 <= i < ds.len() ==> is_digit(#[trigger] ds[i])
}

/// `s` without its leading sign, if it has one.
pub open spec fn unsigned_part(s: Seq<char>) -> Seq<char> {
    if s.len() > 0 && (s[0] == '-' || s[0] == '+') { s.drop_first() } else { s }
}

/// The integer `i64`'s `from_str` reads from `s`: an optional sign, then at
/// least one decimal digit and nothing else, within the range of `i64`.
pub open spec fn parse_int(s: Seq<char>) -> Option<i64> {
    let ds = unsigned_part(s);
    if ds.len() == 0 || !all_digits(ds) {
        None
    } else {
        let v = if s[0] == '-' { -digits_value(ds) } else { digits_value(ds) };
        if i64::MIN <= v <= i64::MAX { Some(v as i64) } else { None }
    }
}

/// The value an argument of the `run` command stands for: `Enum::Variant`
/// when there is text on both sides of the first `::`; else an integer; else
/// `true` or `false`; else the text itself.
pub open spec fn argument_value(s: Seq<char>) -> Val {
    match first_path_sep(s) {
        Some(i) if i > 0 && i + 2 < s.len() => Val::Enum(s.take(i), s.skip(i + 2)),
        _ => match parse_int(s) {
            Some(v) => Val::Int(v),
            None => if s == seq!['t', 'r', 'u', 'e'] {
                Val::Bool(true)
            } else if s == seq!['f', 'a', 'l', 's', 'e'] {
                Val::Bool(false)
            } else {
                Val::Str(s)
            },
        },
    }
}

/// The position of the first `::` in `s`, scanning from the front.
pub open spec fn first_path_sep(s: Seq<char>) -> Option<int>
    decreases s.len(),
{
    if s.len() < 2 {
        None
    } else if s[0] == ':' && s[1] == ':' {
        Some(0)
    } else {
        match first_path_sep(s.drop_first()) {
            Some(i) => Some(i + 1),
            None => None,
        }
    }
}


pub proof fn lemma_first_index_at(s: Seq<char>, c: char, i: int)
    requires
        0 <= i < s.len(),
        s[i] == c,
        forall|j: int| 0 <= j < i ==> s[j] != c,
    ensures
        first_index(s, c) == Some(i),
{
    lemma_first_index(s, c);
    match first_index(s, c) {
        Some(k) => {
            if k < i {
                assert(s[k] != c);
            }
        },
        None => {},
    }
}

pub proof fn lemma_first_index_none(s: Seq<char>, c: char)
    requires
        forall|j: int| 0 <= j < s.len() ==> s[j] != c,
    ensures
        first_index(s, c) is None,
{
    lemma_first_index(s, c);
}

/// The position of the first `c` in `s` from `from` up to `n`, if any.
fn find_char(s: &str, from: usize, n: usize, c: char) -> (r: Option<usize>)
    requires
        n <= s@.len(),
        from <= n,
    ensures
        match r {
            Some(k) => from <= k < n && s@[k as int] == c && forall|j: int| from <= j < k ==> s@[j] != c,
            None => forall|j: int| from <= j < n ==> s@[j] != c,
        },
{
    let mut k = from;
    while k < n
        invariant
            from <= k <= n,
            n <= s@.len(),
            forall|j: int| from <= j < k ==> s@[j] != c,
        decreases n - k,
    {
        if s.get_char(k) == c {
            return Some(k);
        }
        k = k + 1;
    }
    None
}

proof fn lemma_lead_ws(s: Seq<char>, i: int)
    requires
        0 <= i <= s.len(),
        forall|j: int| 0 <= j < i ==> is_ws(s[j]),
    ensures
        lead_ws(s) == i + lead_ws(s.skip(i)),
    decreases i,
{
    if i > 0 {
        let t = s.drop_first();
        assert forall|j: int| 0 <= j < i - 1 implies is_ws(t[j]) by {
            assert(t[j] == s[j + 1]);
        }
        lemma_lead_ws(t, i - 1);
        assert(t.skip(i - 1) =~= s.skip(i));
    } else {
        assert(s.skip(0) =~= s);
    }
}

proof fn lemma_trail_ws(s: Seq<char>, i: int)
    requires
        0 <= i <= s.len(),
        forall|j: int| s.len() - i <= j < s.len() ==> is_ws(s[j]),
    ensures
        trail_ws(s) == i + trail_ws(s.take(s.len() - i)),
    decreases i,
{
    if i > 0 {
        let t = s.drop_last();
        assert forall|j: int| t.len() - (i - 1) <= j < t.len() implies is_ws(t[j]) by {
            assert(t[j] == s[j]);
        }
        lemma_trail_ws(t, i - 1);
        assert(t.take(t.len() - (i - 1)) =~= s.take(s.len() - i));
    } else {
        assert(s.take(s.len() as int) =~= s);
    }
}

/// `s[from..to]` without leading and trailing whitespace.
fn trim_range(s: &str, from: usize, to: usize) -> (r: String)
    requires
        from <= to <= s@.len(),
    ensures
        r@ == trim(s@.subrange(from as int, to as int)),
{
    let ghost t = s@.subrange(from as int, to as int);
    let mut a = from;
    while a < to && is_whitespace(s.get_char(a))
        invariant
            from <= a <= to,
            to <= s@.len(),
            t == s@.subrange(from as int, to as int),
            forall|j: int| from <= j < a ==> is_ws(s@[j]),
        decreases to - a,
    {
        a = a + 1;
    }
    proof {
        assert forall|j: int| 0 <= j < a - from implies is_ws(t[j]) by {
            assert(t[j] == s@[from + j]);
        }
        lemma_lead_ws(t, a - from);
        if a < to {
            assert(t.skip(a - from)[0] == s@[a as int]);
        }
        assert(lead_ws(t.skip(a - from)) == 0);
    }
    let mut b = to;
    while b > a && is_whitespace(s.get_char(b - 1))
        invariant
            a <= b <= to,
            to <= s@.len(),
            forall|j: int| b <= j < to ==> is_ws(s@[j]),
        decreases b - a,
    {
        b = b - 1;
    }
    proof {
        let u = t.skip(a - from);
        assert(u =~= s@.subrange(a as int, to as int));
        assert forall|j: int| u.len() - (to - b) <= j < u.len() implies is_ws(u[j]) by {
            assert(u[j] == s@[a + j]);
        }
        lemma_trail_ws(u, to - b);
        let w = u.take(u.len() - (to - b));
        if b > a {
            assert(w.last() == s@[b - 1]);
        }
        assert(trail_ws(w) == 0);
        assert(w =~= s@.subrange(a as int, b as int));
    }
    String::from_str(s.substring_char(a, b))
}

pub open spec fn strings_view(v: Seq<String>) -> Seq<Seq<char>> {
    v.map_values(|x: String| x@)
}

/// Whether a transition call can be read; see [`call_readable`].
pub fn transition_spec_readable(spec: &str) -> (r: bool)
    ensures
        r == call_readable(spec@),
{
    let n = spec.unicode_len();
    match find_char(spec, 0, n, '(') {
        None => {
            proof {
                lemma_first_index_none(spec@, '(');
            }
            true
        },
        Some(p) => {
            proof {
                lemma_first_index_at(spec@, '(', p as int);
            }
            p + 1 < n && (spec.get_char(n - 1) as u32) < 0x80
        },
    }
}

/// Reads a transition call such as `deposit(10, 20)`; see [`call_parts`].
#[verifier::loop_isolation(false)]
pub fn parse_transition_spec(spec: &str) -> (r: (String, Vec<String>))
    requires
        call_readable(spec@),
    ensures
        r.0@ == call_parts(spec@).0,
        strings_view(r.1@) == call_parts(spec@).1,
{
    let n = spec.unicode_len();
    let p = match find_char(spec, 0, n, '(') {
        Some(p) => p,
        None => {
            proof {
                lemma_first_index_none(spec@, '(');
            }
            let none: Vec<String> = Vec::new();
            proof {
                assert(strings_view(none@) =~= Seq::<Seq<char>>::empty());
            }
            return (String::from_str(spec), none);
        },
    };
    proof {
        lemma_first_index_at(spec@, '(', p as int);
    }
    let name = String::from_str(spec.substring_char(0, p));
    proof {
        assert(spec@.subrange(0, p as int) =~= spec@.take(p as int));
    }
    let lo = p + 1;
    let hi = n - 1;
    let ghost inner = spec@.subrange(lo as int, hi as int);
    let mut args: Vec<String> = Vec::new();
    if lo == hi {
        proof {
            assert(strings_view(args@) =~= Seq::<Seq<char>>::empty());
        }
        return (name, args);
    }
    let mut start = lo;
    proof {
        assert(strings_view(args@) + split(inner, ',').map_values(|a: Seq<char>| trim(a)) =~= split(inner, ',').map_values(|a: Seq<char>| trim(a)));
        assert(spec@.subrange(start as int, hi as int) =~= inner);
    }
    loop
        invariant
            lo <= start <= hi,
            hi < n,
            n == spec@.len(),
            inner == spec@.subrange(lo as int, hi as int),
            strings_view(args@) + split(spec@.subrange(start as int, hi as int), ',').map_values(|a: Seq<char>| trim(a))
                == split(inner, ',').map_values(|a: Seq<char>| trim(a)),
        decreases hi - start,
    {
        let ghost rest = spec@.subrange(start as int, hi as int);
        match find_char(spec, start, hi, ',') {
            Some(k) => {
                proof {
                    assert(forall|j: int| 0 <= j < k - start ==> rest[j] == spec@[start + j]);
                    assert(rest[k - start] == spec@[k as int]);
                    lemma_first_index_at(rest, ',', k - start);
                    assert(rest.take(k - start) =~= spec@.subrange(start as int, k as int));
                    assert(rest.skip(k - start + 1) =~= spec@.subrange(k + 1, hi as int));
                }
                let piece = trim_range(spec, start, k);
                let ghost prev = args@;
                args.push(piece);
                proof {
                    let f = |a: Seq<char>| trim(a);
                    assert(split(rest, ',') == seq![rest.take(k - start)] + split(rest.skip(k - start + 1), ','));
                    assert(split(rest, ',').map_values(f) =~= seq![piece@] + split(spec@.subrange(k + 1, hi as int), ',').map_values(f));
                    assert(strings_view(args@) =~= strings_view(prev).push(piece@));
                    assert(strings_view(args@) + split(spec@.subrange(k + 1, hi as int), ',').map_values(f)
                        =~= strings_view(prev) + split(rest, ',').map_values(f));
                }
                start = k + 1;
            },
            None => {
                proof {
                    assert(forall|j: int| 0 <= j < rest.len() ==> rest[j] == spec@[start + j]);
                    lemma_first_index_none(rest, ',');
                }
                let piece = trim_range(spec, start, hi);
                let ghost prev = args@;
                args.push(piece);
                proof {
                    let f = |a: Seq<char>| trim(a);
                    assert(split(rest, ',') == seq![rest]);
                    assert(split(rest, ',').map_values(f) =~= seq![piece@]);
                    assert(strings_view(args@) =~= strings_view(prev).push(piece@));
                }
                return (name, args);
            },
        }
    }
}

proof fn lemma_digits_step(ds: Seq<char>, k: int)
    requires
        0 <= k < ds.len(),
    ensures
        digits_value(ds.take(k + 1)) == digits_value(ds.take(k)) * 10 + digit_value(ds[k]),
{
    assert(ds.take(k + 1).drop_last() =~= ds.take(k));
}

proof fn lemma_digits_grow(ds: Seq<char>, k: int)
    requires
        0 <= k <= ds.len(),
        forall|i: int| 0 <= i < ds.len() ==> is_digit(#[trigger] ds[i]),
    ensures
        digits_value(ds) >= digits_value(ds.take(k)) >= 0,
    decreases ds.len() - k,
{
    if k == ds.len() {
        assert(ds.take(k) =~= ds);
        lemma_digits_nonneg(ds);
    } else {
        lemma_digits_grow(ds, k + 1);
        lemma_digits_step(ds, k);
        lemma_digits_nonneg(ds.take(k));
    }
}

proof fn lemma_digits_nonneg(ds: Seq<char>)
    requires
        forall|i: int| 0 <= i < ds.len() ==> is_digit(#[trigger] ds[i]),
    ensures
        digits_value(ds) >= 0,
    decreases ds.len(),
{
    if ds.len() > 0 {
        let p = ds.drop_last();
        assert forall|i: int| 0 <= i < p.len() implies is_digit(#[trigger] p[i]) by {
            assert(p[i] == ds[i]);
        }
        lemma_digits_nonneg(p);
        assert(is_digit(ds[ds.len() - 1]));
    }
}

/// Reads an integer as `i64`'s `from_str` does; see [`parse_int`].
#[verifier::loop_isolation(false)]
pub fn parse_i64(s: &str) -> (r: Option<i64>)
    ensures
        r == parse_int(s@),
{
    let n = s.unicode_len();
    if n == 0 {
        return None;
    }
    let c0 = s.get_char(0);
    let neg = c0 == '-';
    let start: usize = if c0 == '-' || c0 == '+' { 1 } else { 0 };
    let ghost ds = if start == 1 { s@.drop_first() } else { s@ };
    proof {
        assert(ds =~= s@.skip(start as int));
        assert(ds == unsigned_part(s@));
    }
    if start == n {
        return None;
    }
    let mut mag: u64 = 0;
    let mut i = start;
    while i < n
        invariant
            start <= i <= n,
            n == s@.len(),
            ds =~= s@.skip(start as int),
            forall|j: int| 0 <= j < i - start ==> is_digit(#[trigger] ds[j]),
            mag as int == digits_value(ds.take(i - start)),
        decreases n - i,
    {
        let c = s.get_char(i);
        assert(c == ds[i - start]);
        if !('0' <= c && c <= '9') {
            assert(!is_digit(ds[i - start]));
            assert(!all_digits(ds));
            return None;
        }
        let d = (c as u32 - '0' as u32) as u64;
        proof {
            lemma_digits_step(ds, i - start);
        }
        let next = match mag.checked_mul(10) {
            Some(m) => m.checked_add(d),
            None => None,
        };
        match next {
            Some(m) => mag = m,
            None => {
                proof {
                    assert(digits_value(ds.take(i - start + 1)) > u64::MAX);
                    if all_digits(ds) {
                        lemma_digits_grow(ds, i - start + 1);
                        assert(digits_value(ds) > u64::MAX);
                        assert(!(i64::MIN <= digits_value(ds) <= i64::MAX));
                        assert(!(i64::MIN <= -digits_value(ds) <= i64::MAX));
                    }
                }
                return None;
            },
        }
        i = i + 1;
    }
    proof {
        assert(ds.take(n - start) =~= ds);
        assert(all_digits(ds));
    }
    if neg {
        if mag <= 9223372036854775808u64 {
            if mag == 9223372036854775808u64 {
                Some(i64::MIN)
            } else {
                Some(-(mag as i64))
            }
        } else {
            None
        }
    } else {
        if mag <= 9223372036854775807u64 {
            Some(mag as i64)
        } else {
            None
        }
    }
}

/// The position of the first `::` in `s`.
fn find_path_sep(s: &str, n: usize) -> (r: Option<usize>)
    requires
        n == s@.len(),
    ensures
        first_path_sep(s@) == match r { Some(k) => Some(k as int), None => None::<int> },
        r matches Some(k) ==> k + 1 < n,
{
    let mut k: usize = 0;
    proof {
        assert(s@.skip(0) =~= s@);
    }
    while n >= 2 && k < n - 1
        invariant
            n == s@.len(),
            k <= n,
            first_path_sep(s@) == match first_path_sep(s@.skip(k as int)) {
                Some(i) => Some(i + k),
                None => None::<int>,
            },
        decreases n - k,
    {
        let ghost t = s@.skip(k as int);
        assert(t[0] == s@[k as int] && t[1] == s@[k + 1]);
        if s.get_char(k) == ':' && s.get_char(k + 1) == ':' {
            return Some(k);
        }
        assert(t.drop_first() =~= s@.skip(k + 1));
        k = k + 1;
    }
    None
}

/// The value an argument of the `run` command stands for; see
/// [`argument_value`]. A number with a fraction stays text.
pub fn parse_value(s: &str) -> (v: Value)
    ensures
        v@ == argument_value(s@),
{
    let n = s.unicode_len();
    proof {
        assert(s@.skip(0) =~= s@);
    }
    if let Some(i) = find_path_sep(s, n) {
        if i > 0 && n - i > 2 {
            let enum_name = String::from_str(s.substring_char(0, i));
            let variant = String::from_str(s.substring_char(i + 2, n));
            proof {
                assert(s@.subrange(0, i as int) =~= s@.take(i as int));
                assert(s@.subrange(i + 2, n as int) =~= s@.skip(i + 2));
            }
            return Value::Enum { enum_name, variant };
        }
    }
    if let Some(v) = parse_i64(s) {
        return Value::Int(v);
    }
    proof {
        reveal_strlit("true");
        reveal_strlit("false");
        assert("true"@ =~= seq!['t', 'r', 'u', 'e']);
        assert("false"@ =~= seq!['f', 'a', 'l', 's', 'e']);
    }
    let text = String::from_str(s);
    if text == String::from_str("true") {
        return Value::Bool(true);
    }
    if text == String::from_str("false") {
        return Value::Bool(false);
    }
    Value::String(text)
}

} // verus!
