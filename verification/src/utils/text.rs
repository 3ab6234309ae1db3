//! Character-level text handling shared by the manifest, lock file and
//! process-output logic: trimming, prefixes, splitting, ordering and the
//! decimal forms of integers.
use vstd::prelude::*;
use vstd::std_specs::iter::IteratorSpec;

verus! {

// ---------------------------------------------------------------------------
// Specifications
// ---------------------------------------------------------------------------

/// The Unicode `White_Space` property (PropList.txt), which is what
/// `char::is_whitespace` documents that it tests.
pub open spec fn is_white_space(c: char) -> bool {
    let u = c as u32;
    ||| 0x9 <= u <= 0xD
    ||| u == 0x20
    ||| u == 0x85
    ||| u == 0xA0
    ||| u == 0x1680
    ||| 0x2000 <= u <= 0x200A
    ||| u == 0x2028
    ||| u == 0x2029
    ||| u == 0x202F
    ||| u == 0x205F
    ||| u == 0x3000
}

/// `s` without its leading white space.
pub open spec fn trim_start(s: Seq<char>) -> Seq<char>
    decreases s.len(),
{
    if s.len() > 0 && is_white_space(s[0]) {
        trim_start(s.drop_first())
    } else {
        s
    }
}

/// `s` without its trailing white space.
pub open spec fn trim_end(s: Seq<char>) -> Seq<char>
    decreases s.len(),
{
    if s.len() > 0 && is_white_space(s.last()) {
        trim_end(s.drop_last())
    } else {
        s
    }
}

/// `s` without leading and trailing white space (what `str::trim` returns).
pub open spec fn trim(s: Seq<char>) -> Seq<char> {
    trim_end(trim_start(s))
}

/// Strict lexicographic order on character sequences, by code point. This is
/// the order of `str`/`String` comparison, since UTF-8 preserves code point
/// order byte-wise.
pub open spec fn lex_lt(a: Seq<char>, b: Seq<char>) -> bool
    decreases a.len(),
{
    if a.len() == 0 {
        b.len() > 0
    } else if b.len() == 0 {
        false
    } else if a[0] != b[0] {
        a[0] < b[0]
    } else {
        lex_lt(a.drop_first(), b.drop_first())
    }
}

/// The character of a decimal digit `d < 10`.
pub open spec fn digit_char(d: nat) -> char {
    if d == 0 {
        '0'
    } else if d == 1 {
        '1'
    } else if d == 2 {
        '2'
    } else if d == 3 {
        '3'
    } else if d == 4 {
        '4'
    } else if d == 5 {
        '5'
    } else if d == 6 {
        '6'
    } else if d == 7 {
        '7'
    } else if d == 8 {
        '8'
    } else {
        '9'
    }
}

/// The shortest decimal form of `n`, as `Display` writes an unsigned integer.
pub open spec fn decimal(n: nat) -> Seq<char>
    decreases n,
{
    if n < 10 {
        seq![digit_char(n)]
    } else {
        decimal(n / 10).push(digit_char(n % 10))
    }
}

/// Whether `c` is an ASCII decimal digit.
pub open spec fn is_digit(c: char) -> bool {
    '0' <= c <= '9'
}

/// The value of the ASCII digit `c`.
pub open spec fn digit_value(c: char) -> nat {
    ((c as u32) - ('0' as u32)) as nat
}

/// The number that the ASCII digits `s` spell.
pub open spec fn digits_value(s: Seq<char>) -> nat
    decreases s.len(),
{
    if s.len() == 0 {
        0
    } else {
        digits_value(s.drop_last()) * 10 + digit_value(s.last())
    }
}

/// The decimal form of `n` is at least one ASCII digit, spells `n`, and
/// has no leading zero unless `n` is 0.
pub proof fn lemma_decimal(n: nat)
    ensures
        decimal(n).len() >= 1,
        forall|i: int| 0 <= i < decimal(n).len() ==> is_digit(#[trigger] decimal(n)[i]),
        digits_value(decimal(n)) == n,
        n > 0 ==> decimal(n)[0] != '0',
    decreases n,
{
    let d = (n % 10) as nat;
    assert(is_digit(digit_char(d)) && digit_value(digit_char(d)) == d) by {
        assert('0' as u32 == 48);
        if d == 0 {
        } else if d == 1 {
            assert('1' as u32 == 49);
        } else if d == 2 {
            assert('2' as u32 == 50);
        } else if d == 3 {
            assert('3' as u32 == 51);
        } else if d == 4 {
            assert('4' as u32 == 52);
        } else if d == 5 {
            assert('5' as u32 == 53);
        } else if d == 6 {
            assert('6' as u32 == 54);
        } else if d == 7 {
            assert('7' as u32 == 55);
        } else if d == 8 {
            assert('8' as u32 == 56);
        } else {
            assert('9' as u32 == 57);
        }
    }
    if n < 10 {
        assert(d == n);
        assert(decimal(n) == seq![digit_char(n)]);
        assert(decimal(n).drop_last() =~= Seq::<char>::empty());
        assert(digits_value(Seq::<char>::empty()) == 0);
        assert(decimal(n).last() == digit_char(n));
    } else {
        lemma_decimal(n / 10);
        let s = decimal(n / 10).push(digit_char(d));
        assert(decimal(n) == s);
        assert(s.drop_last() == decimal(n / 10));
        assert forall|i: int| 0 <= i < s.len() implies is_digit(#[trigger] s[i]) by {
            if i < s.len() - 1 {
                assert(s[i] == decimal(n / 10)[i]);
            }
        }
        assert(n / 10 > 0);
        assert(s[0] == decimal(n / 10)[0]);
        assert(digits_value(s) == digits_value(decimal(n / 10)) * 10 + digit_value(s.last()));
        assert(n == (n / 10) * 10 + d) by (nonlinear_arith)
            requires
                d == n % 10,
        ;
    }
}

/// `s` without one leading `+`.
pub open spec fn unsigned_digits(s: Seq<char>) -> Seq<char> {
    if s.len() > 0 && s[0] == '+' {
        s.drop_first()
    } else {
        s
    }
}

/// What `str::parse` gives for an unsigned integer type whose largest value
/// is `max`: an optional `+` followed by at least one ASCII digit, of value at
/// most `max`. Anything else is refused.
pub open spec fn parse_unsigned(s: Seq<char>, max: nat) -> Option<nat> {
    let digits = unsigned_digits(s);
    if digits.len() > 0 && (forall|i: int| 0 <= i < digits.len() ==> is_digit(#[trigger] digits[i]))
        && digits_value(digits) <= max {
        Some(digits_value(digits))
    } else {
        None
    }
}

/// Whether `p` is a prefix of `s`.
pub open spec fn is_prefix(p: Seq<char>, s: Seq<char>) -> bool {
    p.len() <= s.len() && s.take(p.len() as int) == p
}

/// The index of the first `c` in `s`, if any.
pub open spec fn find_char(s: Seq<char>, c: char) -> Option<int>
    decreases s.len(),
{
    if s.len() == 0 {
        None
    } else if s[0] == c {
        Some(0)
    } else {
        match find_char(s.drop_first(), c) {
            Some(i) => Some(i + 1),
            None => None,
        }
    }
}

/// The pieces of `s` between the occurrences of `sep` (what `str::split`
/// yields for a single-character pattern); there is always at least one.
pub open spec fn split_on(s: Seq<char>, sep: char) -> Seq<Seq<char>>
    decreases s.len(),
{
    match find_char(s, sep) {
        Some(i) => {
            proof {
                lemma_find_char(s, sep);
            }
            seq![s.take(i)] + split_on(s.skip(i + 1), sep)
        },
        None => seq![s],
    }
}

/// Where `find_char` points.
pub proof fn lemma_find_char(s: Seq<char>, c: char)
    ensures
        find_char(s, c) matches Some(i) ==> 0 <= i < s.len() && s[i] == c && forall|j: int|
            0 <= j < i ==> s[j] != c,
        find_char(s, c) is None ==> forall|j: int| 0 <= j < s.len() ==> s[j] != c,
    decreases s.len(),
{
    if s.len() > 0 && s[0] != c {
        lemma_find_char(s.drop_first(), c);
        assert forall|j: int| 0 < j < s.len() implies s[j] == s.drop_first()[j - 1] by {}
    }
}

/// `find_char` finds the first occurrence.
pub proof fn lemma_find_char_first(s: Seq<char>, c: char, n: int)
    requires
        0 <= n < s.len(),
        s[n] == c,
        forall|j: int| 0 <= j < n ==> s[j] != c,
    ensures
        find_char(s, c) == Some(n),
    decreases n,
{
    if n > 0 {
        lemma_find_char_first(s.drop_first(), c, n - 1);
    }
}

/// The text before and after the first `sep` in `s`, if there is one (what
/// `str::split_once` gives).
pub open spec fn split_once_spec(s: Seq<char>, sep: char) -> Option<(Seq<char>, Seq<char>)> {
    match find_char(s, sep) {
        Some(i) => Some((s.take(i), s.skip(i + 1))),
        None => None,
    }
}

/// How many characters at the front of `s` are not white space.
pub open spec fn word_len(s: Seq<char>) -> nat
    decreases s.len(),
{
    if s.len() > 0 && !is_white_space(s[0]) {
        1 + word_len(s.drop_first())
    } else {
        0
    }
}

/// The first white-space separated word of `s`, if any (what
/// `str::split_whitespace` yields first).
pub open spec fn first_word(s: Seq<char>) -> Option<Seq<char>> {
    let t = trim_start(s);
    if t.len() == 0 {
        None
    } else {
        Some(t.take(word_len(t) as int))
    }
}

/// `l` without one trailing carriage return.
pub open spec fn strip_cr(l: Seq<char>) -> Seq<char> {
    if l.len() > 0 && l.last() == '\r' {
        l.drop_last()
    } else {
        l
    }
}

/// Each of `ls` without one trailing carriage return.
pub open spec fn strip_crs(ls: Seq<Seq<char>>) -> Seq<Seq<char>>
    decreases ls.len(),
{
    if ls.len() == 0 {
        Seq::empty()
    } else {
        strip_crs(ls.drop_last()).push(strip_cr(ls.last()))
    }
}

/// The lines of `s`, as `str::lines` yields them: split at `\n`, a `\r`
/// before a `\n` dropped, no empty last line after a final `\n`.
pub open spec fn text_lines(s: Seq<char>) -> Seq<Seq<char>> {
    let pieces = split_on(s, '\n');
    let body = strip_crs(pieces.drop_last());
    if pieces.last().len() == 0 {
        body
    } else {
        body.push(pieces.last())
    }
}

/// The elements of `parts` with `sep` between each two neighbours.
pub open spec fn join_with(parts: Seq<Seq<char>>, sep: Seq<char>) -> Seq<char>
    decreases parts.len(),
{
    if parts.len() == 0 {
        Seq::empty()
    } else if parts.len() == 1 {
        parts[0]
    } else {
        join_with(parts.drop_last(), sep) + sep + parts.last()
    }
}

/// The views of a sequence of strings.
pub open spec fn views(v: Seq<String>) -> Seq<Seq<char>> {
    v.map_values(|s: String| s@)
}

// ---------------------------------------------------------------------------
// Calls into std
// ---------------------------------------------------------------------------

/// What `Debug` writes for a string: it quoted, with quotes, backslashes,
/// control and other non-printable characters escaped.
pub uninterp spec fn str_debug(s: Seq<char>) -> Seq<char>;

/// `format!("{:?}", s)` for a string.
#[verifier::external_body]
fn str_debug_text(s: &str) -> (r: String)
    ensures
        r@ == str_debug(s@),
{
    format!("{:?}", s)
}

/// The `Debug` form of a string.
pub fn debug_string(s: &str) -> (r: String)
    ensures
        r@ == str_debug(s@),
{
    str_debug_text(s)
}

/// The characters of `s`, in order, read one by one from `str::chars`.
pub(crate) fn chars_of(s: &str) -> (r: Vec<char>)
    ensures
        r@ == s@,
{
    broadcast use vstd::string::axiom_spec_iter, vstd::string::next_postcondition;

    let mut it = s.chars();
    let mut out: Vec<char> = Vec::new();
    loop
        invariant
            out@ + it.remaining() == s@,
            it.decrease() is Some,
        ensures
            out@ == s@,
        decreases it.decrease()->0,
    {
        match it.next() {
            Some(c) => {
                out.push(c);
            },
            None => {
                break;
            },
        }
    }
    out
}

/// Collects characters into a `String` (`FromIterator<char>`), which holds
/// exactly those characters in that order.
#[verifier::external_body]
pub(crate) fn string_of(cs: &[char]) -> (r: String)
    ensures
        r@ == cs@,
{
    cs.iter().collect()
}

/// Whether `c` has the Unicode `White_Space` property, as
/// `char::is_whitespace` documents.
fn char_is_whitespace(c: char) -> (r: bool)
    ensures
        r == is_white_space(c),
{
    let u = c as u32;
    (0x9 <= u && u <= 0xD) || u == 0x20 || u == 0x85 || u == 0xA0 || u == 0x1680 || (0x2000 <= u
        && u <= 0x200A) || u == 0x2028 || u == 0x2029 || u == 0x202F || u == 0x205F || u == 0x3000
}

/// `u64::to_string`: the decimal form of `n` without sign or padding.
#[verifier::external_body]
fn u64_text(n: u64) -> (r: String)
    ensures
        r@ == decimal(n as nat),
{
    n.to_string()
}

// ---------------------------------------------------------------------------
// Verified helpers
// ---------------------------------------------------------------------------

/// The decimal form of `n`.
pub fn decimal_string(n: u64) -> (r: String)
    ensures
        r@ == decimal(n as nat),
{
    u64_text(n)
}

/// Each digit after the first at least keeps the value of an all-digit
/// text: a prefix never spells more than the whole.
proof fn lemma_digits_value_prefix(s: Seq<char>, k: int)
    requires
        0 <= k <= s.len(),
    ensures
        digits_value(s.take(k)) <= digits_value(s),
    decreases s.len() - k,
{
    if k < s.len() {
        lemma_digits_value_prefix(s.drop_last(), if k < s.len() { k } else { k - 1 });
        assert(s.drop_last().take(k) == s.take(k));
    } else {
        assert(s.take(k) == s);
    }
}

/// Parses an optional `+` and decimal digits of value at most `max`, as
/// `str::parse` does for unsigned integers.
fn parse_bounded(s: &str, max: u64) -> (r: Option<u64>)
    ensures
        r matches Some(v) ==> parse_unsigned(s@, max as nat) == Some(v as nat),
        r is None ==> parse_unsigned(s@, max as nat) is None,
{
    let cs = chars_of(s);
    let start: usize = if cs.len() > 0 && cs[0] == '+' {
        1
    } else {
        0
    };
    let ghost digits = cs@.skip(start as int);
    assert(digits == unsigned_digits(cs@));
    if start == cs.len() {
        return None;
    }
    let mut value: u64 = 0;
    let mut i: usize = start;
    assert(digits.take(0) =~= Seq::<char>::empty());
    while i < cs.len()
        invariant
            start < cs@.len(),
            start <= i <= cs@.len(),
            cs@ == s@,
            digits == cs@.skip(start as int),
            digits == unsigned_digits(cs@),
            forall|j: int| 0 <= j < i - start ==> is_digit(#[trigger] digits[j]),
            value == digits_value(digits.take(i - start)),
            value <= max,
        decreases cs@.len() - i,
    {
        let c = cs[i];
        assert(c == digits[i - start]);
        if !('0' <= c && c <= '9') {
            assert(!is_digit(digits[i - start]));
            return None;
        }
        let d = (c as u32 - '0' as u32) as u64;
        assert(d <= 9);
        let ghost t = digits.take(i - start + 1);
        assert(t.drop_last() == digits.take(i - start));
        assert(t.last() == c);
        assert(digits_value(t) == value * 10 + d);
        if d > max || value > (max - d) / 10 {
            assert(value * 10 + d > max) by (nonlinear_arith)
                requires
                    d > max || value > (max - d) / 10,
            {
            }
            proof {
                if forall|j: int| 0 <= j < digits.len() ==> is_digit(#[trigger] digits[j]) {
                    lemma_digits_value_prefix(digits, i - start + 1);
                }
            }
            return None;
        }
        assert(value * 10 + d <= max) by (nonlinear_arith)
            requires
                value <= (max - d) / 10,
                d <= max,
        {
        }
        value = value * 10 + d;
        i = i + 1;
    }
    assert(digits.take(cs@.len() - start) == digits);
    Some(value)
}

/// Parses an unsigned 64-bit integer as `str::parse` does.
pub fn parse_u64(s: &str) -> (r: Option<u64>)
    ensures
        r matches Some(v) ==> parse_unsigned(s@, u64::MAX as nat) == Some(v as nat),
        r is None ==> parse_unsigned(s@, u64::MAX as nat) is None,
{
    parse_bounded(s, u64::MAX)
}

/// Parses a `usize` as `str::parse` does.
pub fn parse_usize(s: &str) -> (r: Option<usize>)
    ensures
        r matches Some(v) ==> parse_unsigned(s@, usize::MAX as nat) == Some(v as nat),
        r is None ==> parse_unsigned(s@, usize::MAX as nat) is None,
{
    match parse_bounded(s, usize::MAX as u64) {
        Some(v) => Some(v as usize),
        None => None,
    }
}

proof fn lemma_trim_start_skip(s: Seq<char>, i: int)
    requires
        0 <= i <= s.len(),
        forall|j: int| 0 <= j < i ==> is_white_space(#[trigger] s[j]),
    ensures
        trim_start(s) == trim_start(s.skip(i)),
    decreases i,
{
    if i > 0 {
        assert(s.skip(1) == s.drop_first());
        lemma_trim_start_skip(s.drop_first(), i - 1);
        assert(s.drop_first().skip(i - 1) == s.skip(i));
    } else {
        assert(s.skip(0) == s);
    }
}

proof fn lemma_trim_end_take(s: Seq<char>, i: int)
    requires
        0 <= i <= s.len(),
        forall|j: int| i <= j < s.len() ==> is_white_space(#[trigger] s[j]),
    ensures
        trim_end(s) == trim_end(s.take(i)),
    decreases s.len() - i,
{
    if i < s.len() {
        assert(s.take(s.len() - 1) == s.drop_last());
        lemma_trim_end_take(s.drop_last(), i);
        assert(s.drop_last().take(i) == s.take(i));
    } else {
        assert(s.take(i) == s);
    }
}

/// The characters of `s` between `start` and `end`.
pub fn chars_between(s: &Vec<char>, start: usize, end: usize) -> (r: Vec<char>)
    requires
        start <= end <= s.len(),
    ensures
        r@ == s@.subrange(start as int, end as int),
{
    let mut r: Vec<char> = Vec::new();
    let mut i = start;
    while i < end
        invariant
            start <= i <= end <= s.len(),
            r@ == s@.subrange(start as int, i as int),
        decreases end - i,
    {
        r.push(s[i]);
        i = i + 1;
    }
    r
}

/// `s` without leading and trailing white space, as `str::trim` gives it.
pub fn trim_str(s: &str) -> (r: String)
    ensures
        r@ == trim(s@),
{
    let cs = chars_of(s);
    let mut start: usize = 0;
    while start < cs.len() && char_is_whitespace(cs[start])
        invariant
            start <= cs.len(),
            cs@ == s@,
            forall|j: int| 0 <= j < start ==> is_white_space(#[trigger] cs@[j]),
        decreases cs.len() - start,
    {
        start = start + 1;
    }
    proof {
        lemma_trim_start_skip(cs@, start as int);
        let rest = cs@.skip(start as int);
        if rest.len() > 0 {
            assert(rest[0] == cs@[start as int]);
        }
        assert(trim_start(rest) == rest);
    }
    let mut end: usize = cs.len();
    while end > start && char_is_whitespace(cs[end - 1])
        invariant
            start <= end <= cs.len(),
            cs@ == s@,
            forall|j: int| end <= j < cs.len() ==> is_white_space(#[trigger] cs@[j]),
        decreases end - start,
    {
        end = end - 1;
    }
    proof {
        let rest = cs@.skip(start as int);
        assert forall|j: int| end - start <= j < rest.len() implies is_white_space(
            #[trigger] rest[j],
        ) by {
            assert(rest[j] == cs@[j + start]);
        }
        lemma_trim_end_take(rest, end - start);
        let mid = rest.take(end - start);
        assert(mid == cs@.subrange(start as int, end as int));
        if mid.len() > 0 {
            assert(mid.last() == cs@[end - 1]);
        }
        assert(trim_end(mid) == mid);
    }
    let r = chars_between(&cs, start, end);
    string_of(r.as_slice())
}

/// Whether `a` comes strictly before `b` in code point order.
pub fn chars_lt(a: &[char], b: &[char]) -> (r: bool)
    ensures
        r == lex_lt(a@, b@),
{
    let mut i: usize = 0;
    assert(a@.skip(0) == a@ && b@.skip(0) == b@);
    while i < a.len() && i < b.len() && a[i] == b[i]
        invariant
            i <= a.len(),
            i <= b.len(),
            lex_lt(a@, b@) == lex_lt(a@.skip(i as int), b@.skip(i as int)),
        decreases a.len() - i,
    {
        proof {
            let sa = a@.skip(i as int);
            let sb = b@.skip(i as int);
            assert(sa.drop_first() == a@.skip(i + 1));
            assert(sb.drop_first() == b@.skip(i + 1));
        }
        i = i + 1;
    }
    let ghost sa = a@.skip(i as int);
    let ghost sb = b@.skip(i as int);
    if i == a.len() {
        i < b.len()
    } else if i == b.len() {
        false
    } else {
        assert(sa[0] == a@[i as int] && sb[0] == b@[i as int]);
        a[i] < b[i]
    }
}

/// Whether the string `a` sorts strictly before `b`, as `str` comparison
/// orders them.
pub fn str_lt(a: &str, b: &str) -> (r: bool)
    ensures
        r == lex_lt(a@, b@),
{
    let ca = chars_of(a);
    let cb = chars_of(b);
    chars_lt(ca.as_slice(), cb.as_slice())
}

/// Whether two character sequences are equal.
pub fn chars_eq(a: &[char], b: &[char]) -> (r: bool)
    ensures
        r == (a@ == b@),
{
    if a.len() != b.len() {
        return false;
    }
    let mut i: usize = 0;
    while i < a.len()
        invariant
            i <= a.len() == b.len(),
            forall|j: int| 0 <= j < i ==> a@[j] == b@[j],
        decreases a.len() - i,
    {
        if a[i] != b[i] {
            return false;
        }
        i = i + 1;
    }
    assert(a@ =~= b@);
    true
}

/// Whether two strings are equal.
pub fn str_eq(a: &str, b: &str) -> (r: bool)
    ensures
        r == (a@ == b@),
{
    let ca = chars_of(a);
    let cb = chars_of(b);
    chars_eq(ca.as_slice(), cb.as_slice())
}

/// Whether `x` is one of `set`.
pub fn contains_text(set: &Vec<String>, x: &str) -> (r: bool)
    ensures
        r == views(set@).contains(x@),
{
    let mut i: usize = 0;
    while i < set.len()
        invariant
            i <= set@.len(),
            forall|j: int| 0 <= j < i ==> set@[j]@ != x@,
        decreases set@.len() - i,
    {
        if str_eq(set[i].as_str(), x) {
            assert(views(set@)[i as int] == x@);
            return true;
        }
        i = i + 1;
    }
    proof {
        if views(set@).contains(x@) {
            let j = choose|j: int| 0 <= j < views(set@).len() && views(set@)[j] == x@;
            assert(set@[j]@ == x@);
        }
    }
    false
}

/// The pieces of `s` between the occurrences of `sep`, as `str::split`
/// yields them.
pub fn split_text(s: &str, sep: char) -> (r: Vec<String>)
    ensures
        views(r@) == split_on(s@, sep),
{
    let cs = chars_of(s);
    let mut r: Vec<String> = Vec::new();
    let mut start: usize = 0;
    let mut i: usize = 0;
    assert(cs@.skip(0) == cs@);
    while i < cs.len()
        invariant
            start <= i <= cs@.len(),
            cs@ == s@,
            forall|j: int| start <= j < i ==> cs@[j] != sep,
            split_on(s@, sep) == views(r@) + split_on(cs@.skip(start as int), sep),
        decreases cs@.len() - i,
    {
        if cs[i] == sep {
            proof {
                let rest = cs@.skip(start as int);
                lemma_find_char(rest, sep);
                assert(rest[i - start] == sep);
                match find_char(rest, sep) {
                    Some(k) => {
                        if k < i - start {
                            assert(rest[k] == cs@[start + k]);
                        }
                        if k > i - start {
                        }
                        assert(k == i - start);
                    },
                    None => {},
                }
                assert(rest.take(i - start) == cs@.subrange(start as int, i as int));
                assert(rest.skip(i - start + 1) == cs@.skip(i + 1));
            }
            let piece = chars_between(&cs, start, i);
            let ghost before = r@;
            r.push(string_of(piece.as_slice()));
            assert(views(r@) == views(before).push(piece@));
            start = i + 1;
            proof {
                assert(split_on(s@, sep) == views(r@) + split_on(cs@.skip(start as int), sep));
            }
        }
        i = i + 1;
    }
    proof {
        let rest = cs@.skip(start as int);
        lemma_find_char(rest, sep);
        assert forall|j: int| 0 <= j < rest.len() implies rest[j] != sep by {
            assert(rest[j] == cs@[start + j]);
        }
        assert(find_char(rest, sep) is None);
        assert(rest == cs@.subrange(start as int, cs@.len() as int));
    }
    let piece = chars_between(&cs, start, cs.len());
    let ghost before = r@;
    r.push(string_of(piece.as_slice()));
    assert(views(r@) == views(before).push(piece@));
    assert(split_on(s@, sep) =~= views(r@));
    r
}

/// Splits `s` at the first `sep`, as `str::split_once` does.
pub fn split_once(s: &str, sep: char) -> (r: Option<(String, String)>)
    ensures
        match split_once_spec(s@, sep) {
            Some(p) => (r matches Some(x) && x.0@ == p.0 && x.1@ == p.1),
            None => r is None,
        },
{
    let cs = chars_of(s);
    let mut i: usize = 0;
    while i < cs.len() && cs[i] != sep
        invariant
            i <= cs@.len(),
            cs@ == s@,
            forall|j: int| 0 <= j < i ==> cs@[j] != sep,
        decreases cs@.len() - i,
    {
        i = i + 1;
    }
    proof {
        lemma_find_char(cs@, sep);
    }
    if i == cs.len() {
        return None;
    }
    proof {
        match find_char(cs@, sep) {
            Some(k) => {
                if k < i {
                }
                if k > i {
                    assert(cs@[i as int] != sep);
                }
            },
            None => {
                assert(cs@[i as int] == sep);
            },
        }
        assert(cs@.subrange(0, i as int) == cs@.take(i as int));
        assert(cs@.subrange(i + 1, cs@.len() as int) == cs@.skip(i + 1));
    }
    let before = chars_between(&cs, 0, i);
    let after = chars_between(&cs, i + 1, cs.len());
    Some((string_of(before.as_slice()), string_of(after.as_slice())))
}

/// `s` without the prefix `p`, if it starts with it (`str::strip_prefix`).
pub fn strip_prefix(s: &str, p: &str) -> (r: Option<String>)
    ensures
        r is Some <==> is_prefix(p@, s@),
        r matches Some(t) ==> t@ == s@.skip(p@.len() as int),
{
    let cs = chars_of(s);
    let cp = chars_of(p);
    if cp.len() > cs.len() {
        return None;
    }
    let head = chars_between(&cs, 0, cp.len());
    if !chars_eq(head.as_slice(), cp.as_slice()) {
        assert(cs@.subrange(0, cp@.len() as int) == cs@.take(cp@.len() as int));
        return None;
    }
    assert(cs@.subrange(0, cp@.len() as int) == cs@.take(cp@.len() as int));
    let rest = chars_between(&cs, cp.len(), cs.len());
    assert(rest@ == s@.skip(p@.len() as int));
    Some(string_of(rest.as_slice()))
}

proof fn lemma_word_len(s: Seq<char>, i: int)
    requires
        0 <= i <= s.len(),
        forall|j: int| 0 <= j < i ==> !is_white_space(#[trigger] s[j]),
        i == s.len() || is_white_space(s[i]),
    ensures
        word_len(s) == i,
    decreases i,
{
    if i > 0 {
        lemma_word_len(s.drop_first(), i - 1);
    }
}

/// The first white-space separated word of `s`.
pub fn first_word_of(s: &str) -> (r: Option<String>)
    ensures
        match first_word(s@) {
            Some(w) => (r matches Some(x) && x@ == w),
            None => r is None,
        },
{
    let cs = chars_of(s);
    let mut start: usize = 0;
    while start < cs.len() && char_is_whitespace(cs[start])
        invariant
            start <= cs@.len(),
            cs@ == s@,
            forall|j: int| 0 <= j < start ==> is_white_space(#[trigger] cs@[j]),
        decreases cs@.len() - start,
    {
        start = start + 1;
    }
    let ghost t = cs@.skip(start as int);
    proof {
        lemma_trim_start_skip(cs@, start as int);
        if t.len() > 0 {
            assert(t[0] == cs@[start as int]);
        }
        assert(trim_start(t) == t);
    }
    if start == cs.len() {
        return None;
    }
    let mut end: usize = start;
    while end < cs.len() && !char_is_whitespace(cs[end])
        invariant
            start <= end <= cs@.len(),
            cs@ == s@,
            t == cs@.skip(start as int),
            forall|j: int| start <= j < end ==> !is_white_space(#[trigger] cs@[j]),
        decreases cs@.len() - end,
    {
        end = end + 1;
    }
    proof {
        assert forall|j: int| 0 <= j < end - start implies !is_white_space(#[trigger] t[j]) by {
            assert(t[j] == cs@[start + j]);
        }
        if end < cs@.len() {
            assert(t[end - start] == cs@[end as int]);
        }
        lemma_word_len(t, end - start);
        assert(t.take(end - start) == cs@.subrange(start as int, end as int));
    }
    let w = chars_between(&cs, start, end);
    Some(string_of(w.as_slice()))
}

/// The lines of `s`, as `str::lines` yields them.
pub fn lines_of(s: &str) -> (r: Vec<String>)
    ensures
        views(r@) == text_lines(s@),
{
    let pieces = split_text(s, '\n');
    let ghost ps = views(pieces@);
    let mut r: Vec<String> = Vec::new();
    let mut i: usize = 0;
    assert(ps.len() > 0) by {
        reveal_with_fuel(split_on, 2);
    }
    while i < pieces.len() - 1
        invariant
            ps == views(pieces@),
            ps == split_on(s@, '\n'),
            ps.len() > 0,
            i + 1 <= ps.len(),
            views(r@) == strip_crs(ps.drop_last().take(i as int)),
        decreases ps.len() - i,
    {
        let cs = chars_of(pieces[i].as_str());
        let line = if cs.len() > 0 && cs[cs.len() - 1] == '\r' {
            let kept = chars_between(&cs, 0, cs.len() - 1);
            assert(kept@ == cs@.drop_last());
            string_of(kept.as_slice())
        } else {
            string_of(cs.as_slice())
        };
        let ghost prev = r@;
        r.push(line);
        proof {
            assert(ps[i as int] == pieces@[i as int]@);
            let t = ps.drop_last().take(i + 1);
            assert(t.drop_last() == ps.drop_last().take(i as int));
            assert(t.last() == ps[i as int]);
            assert(views(r@) =~= views(prev).push(strip_cr(ps[i as int])));
        }
        i = i + 1;
    }
    assert(ps.drop_last().take(i as int) == ps.drop_last());
    let last = &pieces[pieces.len() - 1];
    assert(last@ == ps.last());
    if !last.as_str().is_empty() {
        let ghost prev = r@;
        r.push(last.clone());
        assert(views(r@) =~= views(prev).push(ps.last()));
    }
    r
}

/// A new `String` holding `s`.
pub fn owned(s: &str) -> (r: String)
    ensures
        r@ == s@,
{
    String::from_str(s)
}

/// The concatenation of `a` and `b`.
pub fn concat2(a: &str, b: &str) -> (r: String)
    ensures
        r@ == a@ + b@,
{
    let mut r = String::from_str(a);
    r.append(b);
    r
}

/// The concatenation of `a`, `b` and `c`.
pub fn concat3(a: &str, b: &str, c: &str) -> (r: String)
    ensures
        r@ == a@ + b@ + c@,
{
    let mut r = String::from_str(a);
    r.append(b);
    r.append(c);
    r
}

/// The elements of `parts` joined by `sep` (what `[String]::join` gives).
pub fn join_strings(parts: &Vec<String>, sep: &str) -> (r: String)
    ensures
        r@ == join_with(views(parts@), sep@),
{
    let mut r = String::new();
    let mut i: usize = 0;
    while i < parts.len()
        invariant
            i <= parts.len(),
            r@ == join_with(views(parts@.take(i as int)), sep@),
        decreases parts.len() - i,
    {
        proof {
            let now = views(parts@.take(i + 1));
            assert(now.drop_last() == views(parts@.take(i as int)));
            assert(now.last() == parts@[i as int]@);
        }
        if i > 0 {
            r.append(sep);
        } else {
            assert(views(parts@.take(0)) =~= Seq::<Seq<char>>::empty());
        }
        r.append(parts[i].as_str());
        i = i + 1;
    }
    assert(parts@.take(parts.len() as int) == parts@);
    r
}

} // verus!
