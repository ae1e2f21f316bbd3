//! Character-level helpers: conversions between `str`, `String` and `Vec<char>`,
//! decimal rendering and parsing, qualified-name splitting and whitespace.
use vstd::prelude::*;

verus! {

broadcast use vstd::string::group_string_axioms;

/// Appends one character; `String::push` carries no specification in vstd.
#[verifier::external_body]
pub(crate) fn push_char(s: &mut String, c: char)
    ensures
        final(s)@ == old(s)@.push(c),
{
    s.push(c);
}

/// The characters of `s`, in order.
pub fn to_chars(s: &str) -> (v: Vec<char>)
    ensures
        v@ == s@,
{
    let mut v: Vec<char> = Vec::new();
    for c in it: s.chars()
        invariant
            it.seq() == s@,
            v@ == it.seq().take(it.index()),
    {
        v.push(c);
        assert(v@ =~= it.seq().take(it.index() + 1));
    }
    v
}

/// The string made of `v[lo..hi]`.
pub fn string_of_range(v: &[char], lo: usize, hi: usize) -> (s: String)
    requires
        lo <= hi <= v@.len(),
    ensures
        s@ == v@.subrange(lo as int, hi as int),
{
    let mut s = String::new();
    let mut i: usize = lo;
    while i < hi
        invariant
            lo <= i <= hi <= v@.len(),
            s@ == v@.subrange(lo as int, i as int),
        decreases hi - i,
    {
        push_char(&mut s, v[i]);
        i += 1;
        assert(s@ =~= v@.subrange(lo as int, i as int));
    }
    s
}

/// An owned copy of `s`.
pub fn owned(s: &str) -> (r: String)
    ensures
        r@ == s@,
{
    s.to_owned()
}

/// `a` followed by `b`.
pub fn concat(a: &str, b: &str) -> (r: String)
    ensures
        r@ == a@ + b@,
{
    let mut r = a.to_owned();
    r.append(b);
    r
}

/// Whether two strings hold the same characters.
pub fn str_eq(a: &str, b: &str) -> (r: bool)
    ensures
        r == (a@ == b@),
{
    let x = a.to_owned();
    let y = b.to_owned();
    x == y
}

/// The character of the decimal digit `d`.
pub open spec fn digit_char(d: nat) -> char {
    if d == 0 { '0' } else if d == 1 { '1' } else if d == 2 { '2' } else if d == 3 { '3' }
    else if d == 4 { '4' } else if d == 5 { '5' } else if d == 6 { '6' } else if d == 7 { '7' }
    else if d == 8 { '8' } else { '9' }
}

/// Whether `c` is one of the ASCII digits.
pub open spec fn is_digit(c: char) -> bool {
    '0' <= c && c <= '9'
}

/// The value of the ASCII digit `c`.
pub open spec fn digit_value(c: char) -> nat {
    (c as int - '0' as int) as nat
}

/// Shortest decimal spelling of `n`, as `usize`'s `Display` writes it.
pub open spec fn spec_decimal(n: nat) -> Seq<char>
    decreases n,
{
    if n < 10 {
        seq![digit_char(n)]
    } else {
        spec_decimal(n / 10).push(digit_char(n % 10))
    }
}

fn digit_to_char(d: usize) -> (c: char)
    requires
        d < 10,
    ensures
        c == digit_char(d as nat),
{
    if d == 0 { '0' } else if d == 1 { '1' } else if d == 2 { '2' } else if d == 3 { '3' }
    else if d == 4 { '4' } else if d == 5 { '5' } else if d == 6 { '6' } else if d == 7 { '7' }
    else if d == 8 { '8' } else { '9' }
}

/// Appends the decimal spelling of `n` to `s`.
pub fn push_decimal(s: &mut String, n: usize)
    ensures
        final(s)@ == old(s)@ + spec_decimal(n as nat),
    decreases n,
{
    if n < 10 {
        push_char(s, digit_to_char(n));
    } else {
        push_decimal(s, n / 10);
        push_char(s, digit_to_char(n % 10));
    }
}

/// The decimal spelling of `n`.
pub fn decimal(n: usize) -> (s: String)
    ensures
        s@ == spec_decimal(n as nat),
{
    let mut s = String::new();
    push_decimal(&mut s, n);
    s
}

/// Value of a run of ASCII digits, most significant first.
pub open spec fn digits_value(s: Seq<char>) -> nat
    decreases s.len(),
{
    if s.len() == 0 {
        0
    } else {
        digits_value(s.drop_last()) * 10 + digit_value(s.last())
    }
}

/// The digits of a `usize` literal: the text after an optional leading `+`.
pub open spec fn usize_digits(s: Seq<char>) -> Seq<char> {
    if s.len() > 0 && s[0] == '+' { s.drop_first() } else { s }
}

/// `str::parse::<usize>`: an optional `+` followed by at least one ASCII
/// digit, whose value fits in `usize`.
pub open spec fn spec_parse_usize(s: Seq<char>) -> Option<nat> {
    let digits = usize_digits(s);
    if digits.len() > 0 && (forall|i: int| 0 <= i < digits.len() ==> is_digit(#[trigger] digits[i]))
        && digits_value(digits) <= usize::MAX {
        Some(digits_value(digits))
    } else {
        None
    }
}

proof fn lemma_digits_value_grows(s: Seq<char>, i: int)
    requires
        0 <= i <= s.len(),
    ensures
        digits_value(s.take(i)) <= digits_value(s),
    decreases s.len() - i,
{
    if i < s.len() {
        lemma_digits_value_grows(s, i + 1);
        assert(s.take(i + 1).drop_last() =~= s.take(i));
    } else {
        assert(s.take(i) =~= s);
    }
}

/// Parses `v[lo..hi]` as `str::parse::<usize>` does.
pub fn parse_usize(v: &[char], lo: usize, hi: usize) -> (r: Option<usize>)
    requires
        lo <= hi <= v@.len(),
    ensures
        r matches Some(n) ==> spec_parse_usize(v@.subrange(lo as int, hi as int)) == Some(n as nat),
        r is None ==> spec_parse_usize(v@.subrange(lo as int, hi as int)) is None,
{
    let ghost s = v@.subrange(lo as int, hi as int);
    let start = if lo < hi && v[lo] == '+' { lo + 1 } else { lo };
    let ghost digits = v@.subrange(start as int, hi as int);
    assert(digits =~= usize_digits(s));
    if start == hi {
        return None;
    }
    let mut value: usize = 0;
    let mut i: usize = start;
    while i < hi
        invariant
            start <= i <= hi <= v@.len(),
            lo <= start,
            s == v@.subrange(lo as int, hi as int),
            digits == usize_digits(s),
            digits == v@.subrange(start as int, hi as int),
            forall|k: int| 0 <= k < i - start ==> is_digit(#[trigger] digits[k]),
            value as nat == digits_value(digits.take(i - start)),
        decreases hi - i,
    {
        let c = v[i];
        if !('0' <= c && c <= '9') {
            assert(!is_digit(digits[i - start]));
            return None;
        }
        let d = (c as u32 - '0' as u32) as usize;
        assert(digits.take(i + 1 - start).drop_last() =~= digits.take(i - start));
        let next = match value.checked_mul(10) {
            Some(m) => m.checked_add(d),
            None => None,
        };
        match next {
            Some(n) => {
                value = n;
            },
            None => {
                proof {
                    lemma_digits_value_grows(digits, i + 1 - start);
                    assert(digits.take(i + 1 - start).last() == digits[i - start]);
                    assert(digits_value(digits.take(i + 1 - start)) > usize::MAX);
                }
                return None;
            },
        }
        i += 1;
    }
    assert(digits.take(hi - start) =~= digits);
    Some(value)
}

/// Position of the first `c` in `s`.
pub open spec fn first_index_of(s: Seq<char>, c: char) -> Option<int>
    decreases s.len(),
{
    if s.len() == 0 {
        None
    } else {
        match first_index_of(s.drop_last(), c) {
            Some(i) => Some(i),
            None => if s.last() == c { Some(s.len() - 1) } else { None },
        }
    }
}

/// Position of the last `c` in `s`.
pub open spec fn last_index_of(s: Seq<char>, c: char) -> Option<int>
    decreases s.len(),
{
    if s.len() == 0 {
        None
    } else if s.last() == c {
        Some(s.len() - 1)
    } else {
        last_index_of(s.drop_last(), c)
    }
}

pub proof fn lemma_first_index_of(s: Seq<char>, c: char)
    ensures
        first_index_of(s, c) matches Some(i) ==> 0 <= i < s.len() && s[i] == c
            && forall|j: int| 0 <= j < i ==> s[j] != c,
        first_index_of(s, c) is None ==> forall|j: int| 0 <= j < s.len() ==> s[j] != c,
    decreases s.len(),
{
    if s.len() > 0 {
        let t = s.drop_last();
        lemma_first_index_of(t, c);
        assert(forall|j: int| 0 <= j < t.len() ==> t[j] == s[j]);
    }
}

pub proof fn lemma_last_index_of(s: Seq<char>, c: char)
    ensures
        last_index_of(s, c) matches Some(i) ==> 0 <= i < s.len() && s[i] == c
            && forall|j: int| i < j < s.len() ==> s[j] != c,
        last_index_of(s, c) is None ==> forall|j: int| 0 <= j < s.len() ==> s[j] != c,
    decreases s.len(),
{
    if s.len() > 0 && s.last() != c {
        let t = s.drop_last();
        lemma_last_index_of(t, c);
        assert(forall|j: int| 0 <= j < t.len() ==> t[j] == s[j]);
    }
}

/// Finds the first `c` in `v[lo..hi]`, as an absolute position.
pub fn find_first(v: &[char], lo: usize, hi: usize, c: char) -> (r: Option<usize>)
    requires
        lo <= hi <= v@.len(),
    ensures
        r matches Some(i) ==> first_index_of(v@.subrange(lo as int, hi as int), c) == Some(i - lo),
        r is None ==> first_index_of(v@.subrange(lo as int, hi as int), c) is None,
{
    let ghost s = v@.subrange(lo as int, hi as int);
    proof { lemma_first_index_of(s, c); }
    let mut i = lo;
    while i < hi
        invariant
            lo <= i <= hi <= v@.len(),
            s == v@.subrange(lo as int, hi as int),
            first_index_of(s, c) matches Some(k) ==> 0 <= k < s.len() && s[k] == c
                && forall|j: int| 0 <= j < k ==> s[j] != c,
            first_index_of(s, c) is None ==> forall|j: int| 0 <= j < s.len() ==> s[j] != c,
            forall|j: int| lo <= j < i ==> v@[j] != c,
        decreases hi - i,
    {
        if v[i] == c {
            proof {
                assert(s[i - lo] == c);
                if let Some(k) = first_index_of(s, c) {
                    assert(s[k] == v@[lo + k]);
                }
            }
            return Some(i);
        }
        i += 1;
    }
    None
}

/// Finds the last `c` in `v[lo..hi]`, as an absolute position.
pub fn find_last(v: &[char], lo: usize, hi: usize, c: char) -> (r: Option<usize>)
    requires
        lo <= hi <= v@.len(),
    ensures
        r matches Some(i) ==> last_index_of(v@.subrange(lo as int, hi as int), c) == Some(i - lo),
        r is None ==> last_index_of(v@.subrange(lo as int, hi as int), c) is None,
{
    let ghost s = v@.subrange(lo as int, hi as int);
    proof { lemma_last_index_of(s, c); }
    let mut i = hi;
    while i > lo
        invariant
            lo <= i <= hi <= v@.len(),
            s == v@.subrange(lo as int, hi as int),
            last_index_of(s, c) matches Some(k) ==> 0 <= k < s.len() && s[k] == c
                && forall|j: int| k < j < s.len() ==> s[j] != c,
            last_index_of(s, c) is None ==> forall|j: int| 0 <= j < s.len() ==> s[j] != c,
            forall|j: int| i <= j < hi ==> v@[j] != c,
        decreases i - lo,
    {
        if v[i - 1] == c {
            proof {
                assert(s[i - 1 - lo] == c);
                if let Some(k) = last_index_of(s, c) {
                    assert(s[k] == v@[lo + k]);
                }
            }
            return Some(i - 1);
        }
        i -= 1;
    }
    None
}

/// `str::split_once(':')`: the prefix before the first colon, if any, and the
/// remainder.
pub open spec fn spec_split_qname(name: Seq<char>) -> (Option<Seq<char>>, Seq<char>) {
    match first_index_of(name, ':') {
        Some(i) => (Some(name.take(i)), name.skip(i + 1)),
        None => (None, name),
    }
}

/// `name.rsplit(':').next()`: the part after the last colon.
pub open spec fn spec_local_part(name: Seq<char>) -> Seq<char> {
    match last_index_of(name, ':') {
        Some(i) => name.skip(i + 1),
        None => name,
    }
}

/// Splits a qualified name at its first colon.
pub fn split_qname(name: &str) -> (r: (Option<String>, String))
    ensures
        r.0 matches Some(p) ==> spec_split_qname(name@).0 == Some(p@),
        r.0 is None ==> spec_split_qname(name@).0 is None,
        r.1@ == spec_split_qname(name@).1,
{
    let v = to_chars(name);
    match find_first(&v, 0, v.len(), ':') {
        Some(i) => {
            assert(v@.subrange(0, v@.len() as int) =~= v@);
            proof { lemma_first_index_of(v@, ':'); }
            let p = string_of_range(&v, 0, i);
            let l = string_of_range(&v, i + 1, v.len());
            assert(v@.subrange(0, i as int) =~= v@.take(i as int));
            assert(v@.subrange(i + 1, v@.len() as int) =~= v@.skip(i + 1));
            (Some(p), l)
        },
        None => {
            assert(v@.subrange(0, v@.len() as int) =~= v@);
            (None, owned(name))
        },
    }
}

/// Unicode `White_Space` property, which `char::is_whitespace` and `str::trim`
/// test.
pub open spec fn is_unicode_whitespace(c: char) -> bool {
    ||| ('\u{9}' <= c && c <= '\u{d}')
    ||| c == ' '
    ||| c == '\u{85}'
    ||| c == '\u{a0}'
    ||| c == '\u{1680}'
    ||| ('\u{2000}' <= c && c <= '\u{200a}')
    ||| c == '\u{2028}'
    ||| c == '\u{2029}'
    ||| c == '\u{202f}'
    ||| c == '\u{205f}'
    ||| c == '\u{3000}'
}

/// Whether every character of `s` is Unicode whitespace, that is, whether
/// `s.trim()` is empty.
pub open spec fn all_whitespace(s: Seq<char>) -> bool {
    forall|i: int| 0 <= i < s.len() ==> is_unicode_whitespace(#[trigger] s[i])
}

fn char_is_whitespace(c: char) -> (r: bool)
    ensures
        r == is_unicode_whitespace(c),
{
    ('\u{9}' <= c && c <= '\u{d}') || c == ' ' || c == '\u{85}' || c == '\u{a0}' || c == '\u{1680}'
        || ('\u{2000}' <= c && c <= '\u{200a}') || c == '\u{2028}' || c == '\u{2029}'
        || c == '\u{202f}' || c == '\u{205f}' || c == '\u{3000}'
}

/// Whether `s.trim()` is empty.
pub fn is_blank(s: &str) -> (r: bool)
    ensures
        r == all_whitespace(s@),
{
    let v = to_chars(s);
    let mut i: usize = 0;
    while i < v.len()
        invariant
            i <= v@.len(),
            v@ == s@,
            forall|j: int| 0 <= j < i ==> is_unicode_whitespace(#[trigger] v@[j]),
        decreases v@.len() - i,
    {
        if !char_is_whitespace(v[i]) {
            return false;
        }
        i += 1;
    }
    true
}

/// Whether `a` comes before `b`: character by character in code point
/// order, a proper prefix first. Code point order is the byte order of the
/// UTF-8 encoding, which `Ord` on `str` uses.
pub open spec fn text_less(a: Seq<char>, b: Seq<char>) -> bool
    decreases a.len(),
{
    if b.len() == 0 {
        false
    } else if a.len() == 0 {
        true
    } else if a[0] != b[0] {
        (a[0] as int) < (b[0] as int)
    } else {
        text_less(a.drop_first(), b.drop_first())
    }
}

pub proof fn lemma_text_less_irreflexive(a: Seq<char>)
    ensures
        !text_less(a, a),
    decreases a.len(),
{
    if a.len() > 0 {
        lemma_text_less_irreflexive(a.drop_first());
    }
}

pub proof fn lemma_text_less_transitive(a: Seq<char>, b: Seq<char>, c: Seq<char>)
    requires
        text_less(a, b),
        text_less(b, c),
    ensures
        text_less(a, c),
    decreases a.len(),
{
    if a.len() > 0 && b.len() > 0 && c.len() > 0 && a[0] == b[0] && b[0] == c[0] {
        lemma_text_less_transitive(a.drop_first(), b.drop_first(), c.drop_first());
    }
}

pub proof fn lemma_text_less_total(a: Seq<char>, b: Seq<char>)
    ensures
        a != b ==> text_less(a, b) || text_less(b, a),
    decreases a.len(),
{
    if a.len() > 0 && b.len() > 0 && a[0] == b[0] {
        lemma_text_less_total(a.drop_first(), b.drop_first());
        if a.drop_first() == b.drop_first() {
            assert(a =~= seq![a[0]] + a.drop_first());
            assert(b =~= seq![b[0]] + b.drop_first());
        }
    } else if a.len() == 0 && b.len() == 0 {
        assert(a =~= b);
    }
}

/// Whether `a` comes before `b` in the order of `str`.
pub fn text_lt(a: &str, b: &str) -> (r: bool)
    ensures
        r == text_less(a@, b@),
{
    let x = to_chars(a);
    let y = to_chars(b);
    let mut i: usize = 0;
    assert(a@.skip(0) =~= a@);
    assert(b@.skip(0) =~= b@);
    while i < x.len() && i < y.len()
        invariant
            i <= x@.len(),
            i <= y@.len(),
            x@ == a@,
            y@ == b@,
            text_less(a@, b@) == text_less(a@.skip(i as int), b@.skip(i as int)),
        decreases x@.len() - i,
    {
        assert(a@.skip(i as int)[0] == x@[i as int]);
        assert(b@.skip(i as int)[0] == y@[i as int]);
        if x[i] != y[i] {
            return x[i] < y[i];
        }
        assert(a@.skip(i as int).drop_first() =~= a@.skip(i + 1));
        assert(b@.skip(i as int).drop_first() =~= b@.skip(i + 1));
        i += 1;
    }
    i < y.len()
}

/// Whether a list holds its names in ascending order, each once, as a
/// `BTreeSet` yields them.
pub open spec fn sorted_names(v: Seq<String>) -> bool {
    forall|a: int, b: int| 0 <= a < b < v.len() ==> text_less(#[trigger] v[a]@, #[trigger] v[b]@)
}

/// Whether `v` holds its names in ascending order, each once.
pub fn names_sorted(v: &Vec<String>) -> (r: bool)
    ensures
        r == sorted_names(v@),
{
    let mut i: usize = 1;
    while i < v.len()
        invariant
            1 <= i,
            forall|a: int, b: int| 0 <= a < b < i && b < v@.len() ==> text_less(#[trigger] v@[a]@, #[trigger] v@[b]@),
        decreases v@.len() - i,
    {
        if !text_lt(v[i - 1].as_str(), v[i].as_str()) {
            return false;
        }
        assert forall|a: int, b: int| 0 <= a < b < i + 1 && b < v@.len() implies text_less(#[trigger] v@[a]@, #[trigger] v@[b]@) by {
            if b == i && a < i - 1 {
                lemma_text_less_transitive(v@[a]@, v@[i - 1]@, v@[b]@);
            }
        }
        i += 1;
    }
    true
}

} // verus!
