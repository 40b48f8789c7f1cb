//! Text handling: whitespace trimming, number settings, language names.
use vstd::prelude::*;

verus! {

/// The Unicode `White_Space` property.
pub open spec fn is_white_space(c: char) -> bool {
    let u = c as u32;
    ||| 0x09 <= u <= 0x0D
    ||| u == 0x20
    ||| u == 0x85
    ||| u == 0xA0
    ||| u == 0x1680
    ||| 0x2000 <= u <= 0x200A
    ||| u == 0x2028
    ||| u == 0x2029
    ||| u == 0x202F
    ||| u == 0x205F
    ||| u == 0x3000
}

/// `s` without its leading whitespace.
pub open spec fn trim_start_spec(s: Seq<char>) -> Seq<char>
    decreases s.len(),
{
    if s.len() > 0 && is_white_space(s[0]) {
        trim_start_spec(s.drop_first())
    } else {
        s
    }
}

/// `s` without its trailing whitespace.
pub open spec fn trim_end_spec(s: Seq<char>) -> Seq<char>
    decreases s.len(),
{
    if s.len() > 0 && is_white_space(s.last()) {
        trim_end_spec(s.drop_last())
    } else {
        s
    }
}

/// `s` without leading and trailing whitespace.
pub open spec fn trimmed(s: Seq<char>) -> Seq<char> {
    trim_end_spec(trim_start_spec(s))
}

/// A printable ASCII character other than the space: `!` through `~`.
pub open spec fn is_ascii_graphic(c: char) -> bool {
    0x21 <= c as u32 <= 0x7E
}

/// Among ASCII characters, exactly the tab, line feed, vertical tab, form
/// feed, carriage return and space are white space; no printable ASCII
/// character but the space is.
pub proof fn lemma_ascii_white_space(c: char)
    requires
        (c as u32) < 0x80,
    ensures
        is_white_space(c) <==> (c == '\t' || c == '\n' || c == '\x0B' || c == '\x0C' || c == '\r'
            || c == ' '),
        is_ascii_graphic(c) ==> !is_white_space(c),
{
}

proof fn lemma_trim_start_keeps_last(s: Seq<char>)
    requires
        s.len() > 0,
        !is_white_space(s.last()),
    ensures
        trim_start_spec(s).len() > 0,
        trim_start_spec(s).last() == s.last(),
    decreases s.len(),
{
    if is_white_space(s[0]) {
        lemma_trim_start_keeps_last(s.drop_first());
    }
}

proof fn lemma_trim_end_keeps_first(s: Seq<char>)
    requires
        s.len() > 0,
        !is_white_space(s[0]),
    ensures
        trim_end_spec(s).len() > 0,
        trim_end_spec(s)[0] == s[0],
    decreases s.len(),
{
    if is_white_space(s.last()) {
        lemma_trim_end_keeps_first(s.drop_last());
    }
}

/// Trimming removes white space only: a string whose first (or last)
/// character is printable ASCII other than the space, such as a final
/// period, keeps that character at the same end after trimming.
pub proof fn lemma_trim_keeps_graphic_ends(s: Seq<char>)
    ensures
        s.len() > 0 && is_ascii_graphic(s.last()) ==> trimmed(s).len() > 0 && trimmed(s).last()
            == s.last(),
        s.len() > 0 && is_ascii_graphic(s[0]) ==> trimmed(s).len() > 0 && trimmed(s)[0] == s[0],
{
    if s.len() > 0 && is_ascii_graphic(s.last()) {
        lemma_trim_start_keeps_last(s);
        let t = trim_start_spec(s);
        assert(trim_end_spec(t) == t);
    }
    if s.len() > 0 && is_ascii_graphic(s[0]) {
        assert(trim_start_spec(s) == s);
        lemma_trim_end_keeps_first(s);
    }
}

/// Whether a character has the Unicode `White_Space` property.
pub fn white_space(c: char) -> (r: bool)
    ensures
        r == is_white_space(c),
        (c as u32) < 0x80 ==> (r <==> (c == '\t' || c == '\n' || c == '\x0B' || c == '\x0C' || c
            == '\r' || c == ' ')),
{
    proof {
        if (c as u32) < 0x80 {
            lemma_ascii_white_space(c);
        }
    }
    let u = c as u32;
    (0x09 <= u && u <= 0x0D) || u == 0x20 || u == 0x85 || u == 0xA0 || u == 0x1680 || (0x2000
        <= u && u <= 0x200A) || u == 0x2028 || u == 0x2029 || u == 0x202F || u == 0x205F || u
        == 0x3000
}

/// The string without leading and trailing `White_Space` characters, as
/// `str::trim` defines it.
pub fn trim(s: &str) -> (r: &str)
    ensures
        r@ == trimmed(s@),
{
    let v = chars_of(s);
    let n = v.len();
    let mut i: usize = 0;
    assert(s@.subrange(0, n as int) =~= s@);
    while i < n && white_space(v[i])
        invariant
            v@ == s@,
            n == v@.len(),
            i <= n,
            trim_start_spec(s@) == trim_start_spec(s@.subrange(i as int, n as int)),
        decreases n - i,
    {
        assert(s@.subrange(i as int, n as int).drop_first() =~= s@.subrange(i + 1, n as int));
        i = i + 1;
    }
    let ghost mid = s@.subrange(i as int, n as int);
    assert(trim_start_spec(mid) == mid);
    let mut j: usize = n;
    while j > i && white_space(v[j - 1])
        invariant
            v@ == s@,
            n == v@.len(),
            i <= j <= n,
            mid == s@.subrange(i as int, n as int),
            trim_end_spec(mid) == trim_end_spec(s@.subrange(i as int, j as int)),
        decreases j - i,
    {
        assert(s@.subrange(i as int, j as int).drop_last() =~= s@.subrange(i as int, j - 1));
        j = j - 1;
    }
    assert(trim_end_spec(s@.subrange(i as int, j as int)) == s@.subrange(i as int, j as int));
    s.substring_char(i, j)
}

/// The characters of a string, in order.
pub fn chars_of(s: &str) -> (v: Vec<char>)
    ensures
        v@ == s@,
{
    let mut v: Vec<char> = Vec::new();
    for c in it: s.chars()
        invariant
            it.seq() == s@,
            v@ == it.seq().take(it.index() as int),
    {
        assert(it.seq().take(it.index() + 1) =~= v@.push(c));
        v.push(c);
    }
    assert(s@.take(s@.len() as int) =~= s@);
    v
}

/// Whether two strings hold the same characters.
pub fn same_text(a: &str, b: &str) -> (r: bool)
    ensures
        r == (a@ == b@),
{
    let x = chars_of(a);
    let y = chars_of(b);
    if x.len() != y.len() {
        return false;
    }
    let mut i: usize = 0;
    while i < x.len()
        invariant
            x@ == a@,
            y@ == b@,
            x.len() == y.len(),
            i <= x.len(),
            forall|j: int| 0 <= j < i ==> a@[j] == b@[j],
        decreases x.len() - i,
    {
        if x[i] != y[i] {
            return false;
        }
        i = i + 1;
    }
    assert(a@ =~= b@);
    true
}

/// An ASCII decimal digit.
pub open spec fn is_digit(c: char) -> bool {
    48 <= c as u32 <= 57
}

/// The value of a string of decimal digits, most significant first.
pub open spec fn digits_value(d: Seq<char>) -> int
    decreases d.len(),
{
    if d.len() == 0 {
        0
    } else {
        digits_value(d.drop_last()) * 10 + (d.last() as u32 - 48)
    }
}

/// The digits of a number written with an optional leading `+`.
pub open spec fn unsigned_digits(s: Seq<char>) -> Seq<char> {
    if s.len() > 0 && s[0] == '+' {
        s.drop_first()
    } else {
        s
    }
}

/// What `s` denotes as a `u32`: an optional `+` followed by at least one
/// ASCII digit and nothing else, of a value that fits; otherwise nothing.
pub open spec fn parsed_u32(s: Seq<char>) -> Option<u32> {
    let d = unsigned_digits(s);
    if d.len() > 0 && (forall|i: int| 0 <= i < d.len() ==> #[trigger] is_digit(d[i]))
        && digits_value(d) <= u32::MAX {
        Some(digits_value(d) as u32)
    } else {
        None
    }
}

proof fn lemma_digits_value_grows(d: Seq<char>, k: int)
    requires
        0 <= k <= d.len(),
        forall|i: int| 0 <= i < d.len() ==> #[trigger] is_digit(d[i]),
    ensures
        digits_value(d) >= digits_value(d.take(k)),
        digits_value(d) >= 0,
    decreases d.len(),
{
    if d.len() > 0 {
        let e = d.drop_last();
        assert forall|i: int| 0 <= i < e.len() implies #[trigger] is_digit(e[i]) by {
            assert(e[i] == d[i]);
        }
        assert(is_digit(d[d.len() - 1]));
        if k < d.len() {
            assert(e.take(k) =~= d.take(k));
            lemma_digits_value_grows(e, k);
        } else {
            lemma_digits_value_grows(e, 0);
            assert(d.take(k) =~= d);
        }
    } else {
        assert(d.take(k) =~= d);
    }
}

/// What `s` denotes as a `u32`, as `<u32 as FromStr>::from_str` reads it:
/// an optional `+` sign followed by decimal digits only, failing on
/// anything else and on overflow.
pub fn parse_u32(s: &str) -> (r: Option<u32>)
    ensures
        r == parsed_u32(s@),
{
    let v = chars_of(s);
    let start: usize = if v.len() > 0 && v[0] == '+' {
        1
    } else {
        0
    };
    let ghost d = unsigned_digits(s@);
    assert(d =~= s@.subrange(start as int, s@.len() as int));
    if start == v.len() {
        return None;
    }
    let mut acc: u64 = 0;
    let mut i: usize = start;
    while i < v.len()
        invariant
            v@ == s@,
            d == unsigned_digits(s@),
            d == s@.subrange(start as int, s@.len() as int),
            start <= i <= v@.len(),
            acc <= u32::MAX,
            acc == digits_value(d.take(i - start)),
            forall|j: int| 0 <= j < i - start ==> #[trigger] is_digit(d[j]),
        decreases v@.len() - i,
    {
        let u = v[i] as u32;
        if u < 48 || u > 57 {
            assert(!is_digit(d[i - start]));
            assert(!(forall|j: int| 0 <= j < d.len() ==> #[trigger] is_digit(d[j])));
            return None;
        }
        assert(d.take(i - start + 1).drop_last() =~= d.take(i - start));
        assert(d.take(i - start + 1).last() == v@[i as int]);
        acc = acc * 10 + (u - 48) as u64;
        if acc > 0xFFFF_FFFF {
            proof {
                if forall|j: int| 0 <= j < d.len() ==> #[trigger] is_digit(d[j]) {
                    lemma_digits_value_grows(d, i - start + 1);
                }
            }
            return None;
        }
        i = i + 1;
    }
    assert(d.take(d.len() as int) =~= d);
    Some(acc as u32)
}

/// A numeric setting: the value written in `raw` when there is one and it
/// is a valid `u32`, else `default`.
pub fn u32_setting(raw: Option<&str>, default: u32) -> (v: u32)
    ensures
        v == match raw {
            Some(s) => match parsed_u32(s@) {
                Some(x) => x,
                None => default,
            },
            None => default,
        },
{
    match raw {
        Some(s) => match parse_u32(s) {
            Some(x) => x,
            None => default,
        },
        None => default,
    }
}

/// The code of a character with ASCII upper case letters mapped to lower case.
pub open spec fn ascii_lower_code(c: char) -> u32 {
    let u = c as u32;
    if 65 <= u <= 90 {
        (u + 32) as u32
    } else {
        u
    }
}

/// Equality of two strings up to ASCII case.
pub open spec fn eq_ignore_ascii_case_spec(a: Seq<char>, b: Seq<char>) -> bool {
    &&& a.len() == b.len()
    &&& forall|i: int| 0 <= i < a.len() ==> #[trigger] ascii_lower_code(a[i]) == ascii_lower_code(b[i])
}

fn lower_code(c: char) -> (r: u32)
    ensures
        r == ascii_lower_code(c),
{
    let u = c as u32;
    if 65 <= u && u <= 90 {
        u + 32
    } else {
        u
    }
}

/// Whether two strings are equal up to ASCII case.
pub fn eq_ignore_ascii_case(a: &str, b: &str) -> (r: bool)
    ensures
        r == eq_ignore_ascii_case_spec(a@, b@),
{
    let x = chars_of(a);
    let y = chars_of(b);
    if x.len() != y.len() {
        return false;
    }
    let mut i: usize = 0;
    while i < x.len()
        invariant
            x@ == a@,
            y@ == b@,
            x.len() == y.len(),
            i <= x.len(),
            forall|j: int| 0 <= j < i ==> #[trigger] ascii_lower_code(a@[j]) == ascii_lower_code(b@[j]),
        decreases x.len() - i,
    {
        if lower_code(x[i]) != lower_code(y[i]) {
            return false;
        }
        i = i + 1;
    }
    true
}

/// What `char::to_uppercase` yields for a character: its full Unicode
/// upper case mapping, which may be several characters.
pub uninterp spec fn upper_case_of(c: char) -> Seq<char>;

/// What `str::to_lowercase` yields for a string: its full Unicode lower
/// case mapping.
pub uninterp spec fn lower_case_of(s: Seq<char>) -> Seq<char>;

/// `char::to_uppercase`, collected into a string.
#[verifier::external_body]
fn char_to_uppercase(c: char) -> (r: String)
    ensures
        r@ == upper_case_of(c),
{
    c.to_uppercase().collect()
}

/// `str::to_lowercase`.
#[verifier::external_body]
fn str_to_lowercase(s: &str) -> (r: String)
    ensures
        r@ == lower_case_of(s@),
{
    s.to_lowercase()
}

/// `t` spells `auto`, each letter in either case.
pub open spec fn spells_auto(t: Seq<char>) -> bool {
    &&& t.len() == 4
    &&& (t[0] == 'a' || t[0] == 'A')
    &&& (t[1] == 'u' || t[1] == 'U')
    &&& (t[2] == 't' || t[2] == 'T')
    &&& (t[3] == 'o' || t[3] == 'O')
}

proof fn lemma_letter_either_case(c: char, lower: char, upper: char)
    requires
        97 <= lower as u32 <= 122,
        upper as u32 == lower as u32 - 32,
        ascii_lower_code(c) == lower as u32,
    ensures
        c == lower || c == upper,
{
    vstd::utf8::char_u32_cast(c, c as u32);
    vstd::utf8::char_u32_cast(lower, lower as u32);
    vstd::utf8::char_u32_cast(upper, upper as u32);
}

proof fn lemma_auto_ignoring_case(t: Seq<char>)
    ensures
        eq_ignore_ascii_case_spec(t, "auto"@) <==> spells_auto(t),
{
    reveal_strlit("auto");
    let a = "auto"@;
    if eq_ignore_ascii_case_spec(t, a) {
        assert(ascii_lower_code(t[0]) == ascii_lower_code(a[0]));
        assert(ascii_lower_code(t[1]) == ascii_lower_code(a[1]));
        assert(ascii_lower_code(t[2]) == ascii_lower_code(a[2]));
        assert(ascii_lower_code(t[3]) == ascii_lower_code(a[3]));
        lemma_letter_either_case(t[0], 'a', 'A');
        lemma_letter_either_case(t[1], 'u', 'U');
        lemma_letter_either_case(t[2], 't', 'T');
        lemma_letter_either_case(t[3], 'o', 'O');
    }
    if spells_auto(t) {
        assert(ascii_lower_code(t[0]) == ascii_lower_code(a[0]));
        assert(ascii_lower_code(t[1]) == ascii_lower_code(a[1]));
        assert(ascii_lower_code(t[2]) == ascii_lower_code(a[2]));
        assert(ascii_lower_code(t[3]) == ascii_lower_code(a[3]));
    }
}

/// The setting forces no language exactly when, trimmed, it is empty or
/// spells `auto` in any mix of ASCII cases (`auto`, `Auto`, `AUTO`, ...);
/// an unset one forces English.
pub proof fn lemma_no_forced_language(raw: Option<Seq<char>>)
    ensures
        forced_language_spec(raw) is None <==> (raw matches Some(r) && (trimmed(r).len() == 0
            || spells_auto(trimmed(r)))),
{
    reveal_strlit("english");
    reveal_strlit("auto");
    let t = trimmed(
        match raw {
            Some(r) => r,
            None => "english"@,
        },
    );
    lemma_auto_ignoring_case(t);
    if raw is None {
        let e = "english"@;
        assert(trim_start_spec(e) == e);
        assert(trim_end_spec(e) == e);
    }
}

/// The language a decoder is forced to, from the raw setting (English when
/// it is unset): nothing when the trimmed setting is empty or `auto` in any
/// ASCII case, else the trimmed name with its first character upper cased
/// and the rest lower cased.
pub open spec fn forced_language_spec(raw: Option<Seq<char>>) -> Option<Seq<char>> {
    let t = trimmed(
        match raw {
            Some(r) => r,
            None => "english"@,
        },
    );
    if t.len() == 0 || eq_ignore_ascii_case_spec(t, "auto"@) {
        None
    } else {
        Some(upper_case_of(t[0]) + lower_case_of(t.drop_first()))
    }
}

/// The text of an optional string.
pub open spec fn opt_text(o: Option<&str>) -> Option<Seq<char>> {
    match o {
        Some(s) => Some(s@),
        None => None,
    }
}

/// Resolves the language setting; see [`forced_language_spec`].
pub fn forced_language(raw: Option<&str>) -> (lang: Option<String>)
    ensures
        match lang {
            Some(l) => forced_language_spec(opt_text(raw)) == Some(l@),
            None => forced_language_spec(opt_text(raw)) is None,
        },
        lang is None <==> (raw matches Some(r) && (trimmed(r@).len() == 0 || spells_auto(
            trimmed(r@),
        ))),
{
    proof {
        lemma_no_forced_language(opt_text(raw));
    }
    let source = match raw {
        Some(r) => r,
        None => "english",
    };
    let t = trim(source);
    if t.unicode_len() == 0 || eq_ignore_ascii_case(t, "auto") {
        return None;
    }
    let n = t.unicode_len();
    let first = t.get_char(0);
    let rest = t.substring_char(1, n);
    assert(rest@ =~= t@.drop_first());
    let head = char_to_uppercase(first);
    let tail = str_to_lowercase(rest);
    Some(head.concat(tail.as_str()))
}

} // verus!
