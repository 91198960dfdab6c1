//! Text as sequences of characters.
//!
//! Every rule in this library that looks inside a string is stated over
//! `Seq<char>`. This module holds the vocabulary those statements share:
//! character classes, trimming, words, splitting, searching and replacing,
//! together with executable functions that are proved to compute them.

use vstd::prelude::*;
use vstd::string::StringExecFns;

verus! {

// ---------------------------------------------------------------------------
// Characters
// ---------------------------------------------------------------------------

/// The characters with Unicode's `White_Space` property.
pub open spec fn is_white(c: char) -> bool {
    let u = c as u32;
    ||| 0x09 <= u <= 0x0d
    ||| u == 0x20
    ||| u == 0x85
    ||| u == 0xa0
    ||| u == 0x1680
    ||| 0x2000 <= u <= 0x200a
    ||| u == 0x2028
    ||| u == 0x2029
    ||| u == 0x202f
    ||| u == 0x205f
    ||| u == 0x3000
}

/// The control characters, Unicode's category `Cc`.
pub open spec fn is_control(c: char) -> bool {
    let u = c as u32;
    u <= 0x1f || 0x7f <= u <= 0x9f
}

pub open spec fn is_ascii_char(c: char) -> bool {
    (c as u32) < 0x80
}

pub open spec fn is_digit(c: char) -> bool {
    '0' <= c <= '9'
}

pub open spec fn ascii_lower(c: char) -> char {
    if 'A' <= c <= 'Z' {
        ((c as u32) + 32) as char
    } else {
        c
    }
}

pub open spec fn ascii_upper(c: char) -> char {
    if 'a' <= c <= 'z' {
        ((c as u32) - 32) as char
    } else {
        c
    }
}

pub open spec fn is_ascii_letter(c: char) -> bool {
    'a' <= c <= 'z' || 'A' <= c <= 'Z'
}

/// A class of characters, as data, so that one search serves every rule.
#[derive(Clone, Copy)]
pub enum Class {
    /// White space.
    White,
    /// Anything but white space.
    Solid,
    /// A full stop or white space: what a path component may not begin or end with.
    Edge,
    /// One particular character.
    Is(char),
    /// Anything but one particular character.
    IsNot(char),
}

pub open spec fn in_class(k: Class, c: char) -> bool {
    match k {
        Class::White => is_white(c),
        Class::Solid => !is_white(c),
        Class::Edge => c == '.' || is_white(c),
        Class::Is(x) => c == x,
        Class::IsNot(x) => c != x,
    }
}

pub fn white(c: char) -> (r: bool)
    ensures
        r == is_white(c),
{
    let u: u32 = c as u32;
    (0x09 <= u && u <= 0x0d) || u == 0x20 || u == 0x85 || u == 0xa0 || u == 0x1680 || (0x2000 <= u
        && u <= 0x200a) || u == 0x2028 || u == 0x2029 || u == 0x202f || u == 0x205f || u == 0x3000
}

pub fn control(c: char) -> (r: bool)
    ensures
        r == is_control(c),
{
    let u: u32 = c as u32;
    u <= 0x1f || (0x7f <= u && u <= 0x9f)
}

pub(crate) fn class_holds(k: Class, c: char) -> (r: bool)
    ensures
        r == in_class(k, c),
{
    match k {
        Class::White => white(c),
        Class::Solid => !white(c),
        Class::Edge => c == '.' || white(c),
        Class::Is(x) => c == x,
        Class::IsNot(x) => c != x,
    }
}

// ---------------------------------------------------------------------------
// Strings and vectors of characters
// ---------------------------------------------------------------------------

/// `String::push`: the character is appended to the end of the string.
pub assume_specification[ String::push ](s: &mut String, c: char)
    ensures
        final(s)@ == old(s)@.push(c),
;

pub fn chars_of(s: &str) -> (r: Vec<char>)
    ensures
        r@ == s@,
{
    let mut out: Vec<char> = Vec::new();
    for c in it: s.chars()
        invariant
            out@ == it.seq().take(it.index() as int),
            it.seq() == s@,
    {
        out.push(c);
    }
    out
}

pub fn text_of(v: &[char]) -> (r: String)
    ensures
        r@ == v@,
{
    let mut out = String::new();
    let mut i: usize = 0;
    while i < v.len()
        invariant
            i <= v@.len(),
            out@ == v@.take(i as int),
        decreases v@.len() - i,
    {
        out.push(v[i]);
        i = i + 1;
    }
    out
}

pub(crate) fn own(s: &str) -> (r: String)
    ensures
        r@ == s@,
{
    s.to_owned()
}

/// The characters of a list of strings.
pub open spec fn texts(v: Seq<String>) -> Seq<Seq<char>> {
    Seq::new(v.len(), |i: int| v[i]@)
}

/// The characters of an optional string.
pub open spec fn opt_text(o: Option<String>) -> Option<Seq<char>> {
    match o {
        Some(s) => Some(s@),
        None => None,
    }
}

pub fn clone_texts(v: &Vec<String>) -> (r: Vec<String>)
    ensures
        texts(r@) == texts(v@),
        r@.len() == v@.len(),
{
    let mut out: Vec<String> = Vec::new();
    let mut i: usize = 0;
    while i < v.len()
        invariant
            i <= v@.len(),
            out@.len() == i,
            texts(out@) =~= texts(v@).take(i as int),
        decreases v@.len() - i,
    {
        out.push(v[i].clone());
        i = i + 1;
    }
    assert(texts(v@).take(v@.len() as int) =~= texts(v@));
    out
}

pub fn same_chars(a: &[char], b: &[char]) -> (r: bool)
    ensures
        r == (a@ == b@),
{
    if a.len() != b.len() {
        return false;
    }
    let mut i: usize = 0;
    while i < a.len()
        invariant
            i <= a@.len() == b@.len(),
            forall|j: int| 0 <= j < i ==> a@[j] == b@[j],
        decreases a@.len() - i,
    {
        if a[i] != b[i] {
            return false;
        }
        i = i + 1;
    }
    assert(a@ =~= b@);
    true
}

/// Whether two strings hold the same characters.
pub fn same(a: &str, b: &str) -> (r: bool)
    ensures
        r == (a@ == b@),
{
    same_chars(chars_of(a).as_slice(), chars_of(b).as_slice())
}

/// Whether a list of strings holds the given one.
pub fn holds_text(list: &[String], wanted: &str) -> (r: bool)
    ensures
        r == texts(list@).contains(wanted@),
{
    let mut i: usize = 0;
    while i < list.len()
        invariant
            i <= list@.len(),
            forall|j: int| 0 <= j < i ==> list@[j]@ != wanted@,
        decreases list@.len() - i,
    {
        if same(list[i].as_str(), wanted) {
            assert(texts(list@)[i as int] == wanted@);
            return true;
        }
        i = i + 1;
    }
    assert forall|j: int| 0 <= j < texts(list@).len() implies texts(list@)[j] != wanted@ by {
        assert(list@[j]@ != wanted@);
    }
    false
}

// ---------------------------------------------------------------------------
// Case
// ---------------------------------------------------------------------------

pub open spec fn all_ascii(s: Seq<char>) -> bool {
    forall|i: int| 0 <= i < s.len() ==> is_ascii_char(#[trigger] s[i])
}

pub open spec fn ascii_lowered(s: Seq<char>) -> Seq<char> {
    Seq::new(s.len(), |i: int| ascii_lower(s[i]))
}

pub open spec fn ascii_uppered(s: Seq<char>) -> Seq<char> {
    Seq::new(s.len(), |i: int| ascii_upper(s[i]))
}

/// What `str::to_lowercase` makes of a string.
pub uninterp spec fn lowercase_of(s: Seq<char>) -> Seq<char>;

/// A string in lower case: on ASCII characters the ASCII lower-case form, and
/// otherwise what `str::to_lowercase` makes of it.
pub open spec fn lowered(s: Seq<char>) -> Seq<char> {
    if all_ascii(s) {
        ascii_lowered(s)
    } else {
        lowercase_of(s)
    }
}

/// `str::to_lowercase`: the Unicode lower-case form of the whole string. On a
/// string of ASCII characters that is the ASCII lower-case form.
#[verifier::external_body]
pub(crate) fn lowercase(s: &str) -> (r: String)
    ensures
        r@ == (if all_ascii(s@) {
            ascii_lowered(s@)
        } else {
            lowercase_of(s@)
        }),
{
    s.to_lowercase()
}

/// What `str::to_uppercase` makes of a string.
pub uninterp spec fn uppercase_of(s: Seq<char>) -> Seq<char>;

/// A string in upper case: on ASCII characters the ASCII upper-case form, and
/// otherwise what `str::to_uppercase` makes of it.
pub open spec fn uppered(s: Seq<char>) -> Seq<char> {
    if all_ascii(s) {
        ascii_uppered(s)
    } else {
        uppercase_of(s)
    }
}

/// `str::to_uppercase`: the Unicode upper-case form of the whole string. On a
/// string of ASCII characters that is the ASCII upper-case form.
#[verifier::external_body]
pub(crate) fn uppercase(s: &str) -> (r: String)
    ensures
        r@ == (if all_ascii(s@) {
            ascii_uppered(s@)
        } else {
            uppercase_of(s@)
        }),
{
    s.to_uppercase()
}

/// Whether `char::is_alphabetic` holds of a character.
pub uninterp spec fn alphabetic_char(c: char) -> bool;

/// `char::is_alphabetic`: Unicode's `Alphabetic` property. Of the ASCII
/// characters the letters have it, and no others.
#[verifier::external_body]
pub(crate) fn alphabetic(c: char) -> (r: bool)
    ensures
        r == alphabetic_char(c),
        is_ascii_char(c) ==> r == is_ascii_letter(c),
{
    c.is_alphabetic()
}

/// Whether `char::is_alphanumeric` holds of a character.
pub uninterp spec fn alphanumeric_char(c: char) -> bool;

/// `char::is_alphanumeric`: Unicode's `Alphabetic` property or a numeric
/// category. Of the ASCII characters the letters and digits have it, and no
/// others.
#[verifier::external_body]
pub(crate) fn alphanumeric(c: char) -> (r: bool)
    ensures
        r == alphanumeric_char(c),
        is_ascii_char(c) ==> r == (is_ascii_letter(c) || is_digit(c)),
{
    c.is_alphanumeric()
}

/// What `std` prints for a string in its debug form: in quotes, with escapes.
pub uninterp spec fn quoted_text(s: Seq<char>) -> Seq<char>;

/// `format!` with `{:?}` on a string, from `std`: its debug form. Nothing is
/// said of which characters are escaped, nor how.
#[verifier::external_body]
pub(crate) fn quoted(s: &str) -> (r: String)
    ensures
        r@ == quoted_text(s@),
{
    format!("{:?}", s)
}

pub fn lower_ascii(c: char) -> (r: char)
    ensures
        r == ascii_lower(c),
{
    if 'A' <= c && c <= 'Z' {
        let b: u8 = c as u8;
        (b + 32) as char
    } else {
        c
    }
}

/// Equality up to the case of ASCII letters.
pub open spec fn same_ignoring_case(a: Seq<char>, b: Seq<char>) -> bool {
    ascii_lowered(a) == ascii_lowered(b)
}

pub fn eq_ignore_case(a: &[char], b: &[char]) -> (r: bool)
    ensures
        r == same_ignoring_case(a@, b@),
{
    if a.len() != b.len() {
        assert(ascii_lowered(a@).len() != ascii_lowered(b@).len());
        return false;
    }
    let mut i: usize = 0;
    while i < a.len()
        invariant
            i <= a@.len() == b@.len(),
            forall|j: int| 0 <= j < i ==> ascii_lower(a@[j]) == ascii_lower(b@[j]),
        decreases a@.len() - i,
    {
        if lower_ascii(a[i]) != lower_ascii(b[i]) {
            assert(ascii_lowered(a@)[i as int] != ascii_lowered(b@)[i as int]);
            return false;
        }
        i = i + 1;
    }
    assert(ascii_lowered(a@) =~= ascii_lowered(b@));
    true
}

// ---------------------------------------------------------------------------
// Leading and trailing runs
// ---------------------------------------------------------------------------

/// How many leading characters belong to a class.
pub open spec fn leading(s: Seq<char>, k: Class) -> nat
    decreases s.len(),
{
    if s.len() == 0 || !in_class(k, s[0]) {
        0
    } else {
        1 + leading(s.drop_first(), k)
    }
}

/// How many trailing characters belong to a class.
pub open spec fn trailing(s: Seq<char>, k: Class) -> nat
    decreases s.len(),
{
    if s.len() == 0 || !in_class(k, s.last()) {
        0
    } else {
        1 + trailing(s.drop_last(), k)
    }
}

/// The string without its leading and trailing characters of a class.
pub open spec fn trimmed(s: Seq<char>, k: Class) -> Seq<char> {
    let t = s.skip(leading(s, k) as int);
    t.take(t.len() - trailing(t, k))
}

/// The string without surrounding white space.
pub open spec fn trim(s: Seq<char>) -> Seq<char> {
    trimmed(s, Class::White)
}

/// `leading` is the length of the longest prefix within the class.
pub proof fn lemma_leading(s: Seq<char>, k: Class, n: nat)
    requires
        n <= s.len(),
        forall|i: int| 0 <= i < n ==> in_class(k, #[trigger] s[i]),
        n < s.len() ==> !in_class(k, s[n as int]),
    ensures
        leading(s, k) == n,
    decreases n,
{
    if n > 0 {
        let t = s.drop_first();
        assert forall|i: int| 0 <= i < n - 1 implies in_class(k, #[trigger] t[i]) by {
            assert(t[i] == s[i + 1]);
        }
        if n < s.len() {
            assert(t[n - 1] == s[n as int]);
        }
        lemma_leading(t, k, (n - 1) as nat);
        assert(in_class(k, s[0]));
    }
}

pub proof fn lemma_leading_facts(s: Seq<char>, k: Class)
    ensures
        leading(s, k) <= s.len(),
        forall|i: int| 0 <= i < leading(s, k) ==> in_class(k, #[trigger] s[i]),
        leading(s, k) < s.len() ==> !in_class(k, s[leading(s, k) as int]),
    decreases s.len(),
{
    if s.len() > 0 && in_class(k, s[0]) {
        let t = s.drop_first();
        lemma_leading_facts(t, k);
        let n = leading(t, k);
        assert forall|i: int| 0 <= i < n + 1 implies in_class(k, #[trigger] s[i]) by {
            if i > 0 {
                assert(t[i - 1] == s[i]);
            }
        }
        if n + 1 < s.len() {
            assert(t[n as int] == s[n as int + 1]);
        }
    }
}

pub proof fn lemma_trailing(s: Seq<char>, k: Class, n: nat)
    requires
        n <= s.len(),
        forall|i: int| s.len() - n <= i < s.len() ==> in_class(k, #[trigger] s[i]),
        n < s.len() ==> !in_class(k, s[s.len() - n - 1]),
    ensures
        trailing(s, k) == n,
    decreases n,
{
    if n > 0 {
        let t = s.drop_last();
        assert forall|i: int| t.len() - (n - 1) <= i < t.len() implies in_class(k, #[trigger] t[i]) by {
            assert(t[i] == s[i]);
        }
        lemma_trailing(t, k, (n - 1) as nat);
        assert(in_class(k, s.last()));
    }
}

pub proof fn lemma_trailing_facts(s: Seq<char>, k: Class)
    ensures
        trailing(s, k) <= s.len(),
        forall|i: int| s.len() - trailing(s, k) <= i < s.len() ==> in_class(k, #[trigger] s[i]),
        trailing(s, k) < s.len() ==> !in_class(k, s[s.len() - trailing(s, k) - 1]),
    decreases s.len(),
{
    if s.len() > 0 && in_class(k, s.last()) {
        let t = s.drop_last();
        lemma_trailing_facts(t, k);
        let n = trailing(t, k);
        assert forall|i: int| s.len() - (n + 1) <= i < s.len() implies in_class(k, #[trigger] s[i]) by {
            if i < s.len() - 1 {
                assert(t[i] == s[i]);
            }
        }
    }
}

/// What `trimmed` leaves neither begins nor ends with the class, and is a
/// contiguous piece of the string.
pub proof fn lemma_trimmed_facts(s: Seq<char>, k: Class)
    ensures
        trimmed(s, k).len() <= s.len(),
        trimmed(s, k).len() > 0 ==> !in_class(k, trimmed(s, k)[0]) && !in_class(
            k,
            trimmed(s, k).last(),
        ),
        leading(s, k) + trimmed(s, k).len() <= s.len(),
        trimmed(s, k) == s.subrange(
            leading(s, k) as int,
            leading(s, k) + trimmed(s, k).len() as int,
        ),
        trimmed(s, k).len() == 0 <==> forall|i: int| 0 <= i < s.len() ==> in_class(k, #[trigger] s[i]),
{
    lemma_leading_facts(s, k);
    let t = s.skip(leading(s, k) as int);
    lemma_trailing_facts(t, k);
    let r = trimmed(s, k);
    assert(r =~= s.subrange(leading(s, k) as int, leading(s, k) + r.len() as int));
    if r.len() == 0 && leading(s, k) < s.len() {
        assert(t[0] == s[leading(s, k) as int]);
        assert(in_class(k, t[0]));
    }
    if r.len() > 0 {
        assert(r[0] == s[leading(s, k) as int]);
        assert(r.last() == t[t.len() - trailing(t, k) - 1]);
    }
}

/// The length of the run of a class that starts at `from`.
pub(crate) fn run_from(s: &[char], from: usize, k: Class) -> (r: usize)
    requires
        from <= s@.len(),
    ensures
        from + r <= s@.len(),
        r == leading(s@.skip(from as int), k),
        forall|i: int| from <= i < from + r ==> in_class(k, #[trigger] s@[i]),
        from + r < s@.len() ==> !in_class(k, s@[from + r as int]),
{
    let mut i: usize = from;
    while i < s.len() && class_holds(k, s[i])
        invariant
            from <= i <= s@.len(),
            forall|j: int| from <= j < i ==> in_class(k, #[trigger] s@[j]),
        decreases s@.len() - i,
    {
        i = i + 1;
    }
    proof {
        let t = s@.skip(from as int);
        assert forall|j: int| 0 <= j < i - from implies in_class(k, #[trigger] t[j]) by {
            assert(t[j] == s@[from + j]);
        }
        if i < s@.len() {
            assert(t[i - from] == s@[i as int]);
        }
        lemma_leading(t, k, (i - from) as nat);
    }
    i - from
}

/// The bounds of what is left once both ends are trimmed.
pub(crate) fn trim_bounds(s: &[char], k: Class) -> (r: (usize, usize))
    ensures
        r.0 <= r.1 <= s@.len(),
        trimmed(s@, k) == s@.subrange(r.0 as int, r.1 as int),
{
    let start: usize = run_from(s, 0, k);
    assert(s@.skip(0) =~= s@);
    let mut end: usize = s.len();
    while end > start && class_holds(k, s[end - 1])
        invariant
            start <= end <= s@.len(),
            forall|j: int| end <= j < s@.len() ==> in_class(k, #[trigger] s@[j]),
        decreases end,
    {
        end = end - 1;
    }
    proof {
        let t = s@.skip(start as int);
        assert forall|j: int| t.len() - (s@.len() - end) <= j < t.len() implies in_class(k, #[trigger] t[j]) by {
            assert(t[j] == s@[start + j]);
        }
        if end > start {
            assert(t[end - start - 1] == s@[end - 1]);
        }
        lemma_trailing(t, k, (s@.len() - end) as nat);
        assert(trimmed(s@, k) =~= s@.subrange(start as int, end as int));
    }
    (start, end)
}

pub(crate) fn copy_range(s: &[char], from: usize, to: usize) -> (r: Vec<char>)
    requires
        from <= to <= s@.len(),
    ensures
        r@ == s@.subrange(from as int, to as int),
{
    let mut out: Vec<char> = Vec::new();
    let mut i: usize = from;
    while i < to
        invariant
            from <= i <= to <= s@.len(),
            out@ == s@.subrange(from as int, i as int),
        decreases to - i,
    {
        out.push(s[i]);
        i = i + 1;
    }
    out
}

pub(crate) fn trim_chars(s: &[char], k: Class) -> (r: Vec<char>)
    ensures
        r@ == trimmed(s@, k),
{
    let (a, b) = trim_bounds(s, k);
    copy_range(s, a, b)
}

/// The string without surrounding white space.
pub fn trim_text(s: &str) -> (r: String)
    ensures
        r@ == trim(s@),
{
    text_of(trim_chars(chars_of(s).as_slice(), Class::White).as_slice())
}

// ---------------------------------------------------------------------------
// Words and joining
// ---------------------------------------------------------------------------

/// The maximal runs of characters that are not white space, in order.
pub open spec fn words(s: Seq<char>) -> Seq<Seq<char>>
    decreases s.len(),
{
    if s.len() == 0 {
        seq![]
    } else if is_white(s[0]) {
        words(s.drop_first())
    } else {
        let n = leading(s, Class::Solid);
        if 0 < n <= s.len() {
            seq![s.take(n as int)] + words(s.skip(n as int))
        } else {
            seq![]
        }
    }
}

/// The parts one after another with a separator between each two.
pub open spec fn joined(parts: Seq<Seq<char>>, sep: Seq<char>) -> Seq<char>
    decreases parts.len(),
{
    if parts.len() == 0 {
        seq![]
    } else if parts.len() == 1 {
        parts[0]
    } else {
        joined(parts.drop_last(), sep) + sep + parts.last()
    }
}

/// The words with a single space between each two.
pub open spec fn collapsed(s: Seq<char>) -> Seq<char> {
    joined(words(s), seq![' '])
}

/// The characters of a list of character vectors.
pub open spec fn char_lists(v: Seq<Vec<char>>) -> Seq<Seq<char>> {
    Seq::new(v.len(), |i: int| v[i]@)
}

pub(crate) fn word_list(s: &[char]) -> (r: Vec<Vec<char>>)
    ensures
        char_lists(r@) == words(s@),
{
    let mut out: Vec<Vec<char>> = Vec::new();
    let mut i: usize = 0;
    assert(s@.skip(0) =~= s@);
    assert(char_lists(out@) + words(s@) =~= words(s@));
    while i < s.len()
        invariant
            i <= s@.len(),
            words(s@) == char_lists(out@) + words(s@.skip(i as int)),
        decreases s@.len() - i,
    {
        let ghost rest = s@.skip(i as int);
        assert(rest[0] == s@[i as int]);
        if white(s[i]) {
            assert(rest.drop_first() =~= s@.skip(i + 1));
            i = i + 1;
        } else {
            let n: usize = run_from(s, i, Class::Solid);
            proof {
                lemma_leading_facts(rest, Class::Solid);
                assert(n > 0);
                assert(rest.take(n as int) =~= s@.subrange(i as int, i + n));
                assert(rest.skip(n as int) =~= s@.skip(i + n));
            }
            let word = copy_range(s, i, i + n);
            let ghost before = out@;
            out.push(word);
            assert(char_lists(out@) =~= char_lists(before) + seq![rest.take(n as int)]);
            assert(char_lists(out@) + words(s@.skip(i + n)) =~= char_lists(before) + (seq![
                rest.take(n as int),
            ] + words(s@.skip(i + n))));
            i = i + n;
        }
    }
    assert(s@.skip(i as int).len() == 0);
    assert(char_lists(out@) + words(s@.skip(i as int)) =~= char_lists(out@));
    out
}

pub(crate) fn append_chars(out: &mut Vec<char>, more: &[char])
    ensures
        final(out)@ == old(out)@ + more@,
{
    let ghost start = out@;
    let mut i: usize = 0;
    while i < more.len()
        invariant
            i <= more@.len(),
            out@ == start + more@.take(i as int),
        decreases more@.len() - i,
    {
        out.push(more[i]);
        i = i + 1;
    }
    assert(more@.take(more@.len() as int) =~= more@);
}

pub(crate) fn join_chars(parts: &Vec<Vec<char>>, sep: &[char]) -> (r: Vec<char>)
    ensures
        r@ == joined(char_lists(parts@), sep@),
{
    let mut out: Vec<char> = Vec::new();
    let mut i: usize = 0;
    let ghost all = char_lists(parts@);
    while i < parts.len()
        invariant
            all == char_lists(parts@),
            i <= parts@.len(),
            out@ == joined(all.take(i as int), sep@),
        decreases parts@.len() - i,
    {
        if i > 0 {
            append_chars(&mut out, sep);
        }
        append_chars(&mut out, parts[i].as_slice());
        proof {
            let next = all.take(i + 1);
            assert(next.drop_last() =~= all.take(i as int));
            assert(next.last() == parts@[i as int]@);
        }
        i = i + 1;
    }
    assert(all.take(parts@.len() as int) =~= all);
    out
}

/// Strings joined by a separator.
pub fn join_texts(parts: &Vec<String>, sep: &str) -> (r: String)
    ensures
        r@ == joined(texts(parts@), sep@),
{
    let mut out = String::new();
    let mut i: usize = 0;
    let ghost all = texts(parts@);
    while i < parts.len()
        invariant
            all == texts(parts@),
            i <= parts@.len(),
            out@ == joined(all.take(i as int), sep@),
        decreases parts@.len() - i,
    {
        if i > 0 {
            out.append(sep);
        }
        out.append(parts[i].as_str());
        proof {
            let next = all.take(i + 1);
            assert(next.drop_last() =~= all.take(i as int));
            assert(next.last() == parts@[i as int]@);
        }
        i = i + 1;
    }
    assert(all.take(parts@.len() as int) =~= all);
    out
}

/// Words with a single space between them.
pub(crate) fn collapse(s: &[char]) -> (r: Vec<char>)
    ensures
        r@ == collapsed(s@),
{
    let w = word_list(s);
    let space: Vec<char> = vec![' '];
    assert(space@ =~= seq![' ']);
    join_chars(&w, space.as_slice())
}

// ---------------------------------------------------------------------------
// Splitting
// ---------------------------------------------------------------------------

/// The pieces between occurrences of a character; one more than there are
/// occurrences.
pub open spec fn split(s: Seq<char>, c: char) -> Seq<Seq<char>>
    decreases s.len(),
{
    let n = leading(s, Class::IsNot(c));
    if 0 <= n < s.len() {
        seq![s.take(n as int)] + split(s.skip(n as int + 1), c)
    } else {
        seq![s]
    }
}

pub(crate) fn split_chars(s: &[char], c: char) -> (r: Vec<Vec<char>>)
    ensures
        char_lists(r@) == split(s@, c),
        r@.len() > 0,
{
    let mut out: Vec<Vec<char>> = Vec::new();
    let mut i: usize = 0;
    let total: usize = s.len();
    assert(s@.skip(0) =~= s@);
    assert(char_lists(out@) + split(s@, c) =~= split(s@, c));
    loop
        invariant
            total == s@.len(),
            i <= s@.len(),
            split(s@, c) == char_lists(out@) + split(s@.skip(i as int), c),
        decreases s@.len() - i,
    {
        let n: usize = run_from(s, i, Class::IsNot(c));
        let ghost rest = s@.skip(i as int);
        let ghost before = out@;
        let piece = copy_range(s, i, i + n);
        assert(rest.take(n as int) =~= s@.subrange(i as int, i + n));
        out.push(piece);
        assert(char_lists(out@) =~= char_lists(before) + seq![rest.take(n as int)]);
        if i + n < total {
            assert(rest.skip(n + 1) =~= s@.skip(i + n + 1));
            assert(char_lists(out@) + split(s@.skip(i + n + 1), c) =~= char_lists(before) + (seq![
                rest.take(n as int),
            ] + split(s@.skip(i + n + 1), c)));
            i = i + n + 1;
        } else {
            assert(rest.take(n as int) =~= rest);
            assert(char_lists(out@) =~= split(s@, c));
            return out;
        }
    }
}

// ---------------------------------------------------------------------------
// Searching
// ---------------------------------------------------------------------------

/// Whether `pat` stands at position `i`.
pub open spec fn occurs_at(s: Seq<char>, pat: Seq<char>, i: int) -> bool {
    0 <= i && i + pat.len() <= s.len() && s.subrange(i, i + pat.len()) == pat
}

/// Whether `pat` stands anywhere in `s`.
pub open spec fn contains_text(s: Seq<char>, pat: Seq<char>) -> bool {
    exists|i: int| occurs_at(s, pat, i)
}

/// A text holds what either of its parts holds.
pub proof fn lemma_told(a: Seq<char>, b: Seq<char>, x: Seq<char>)
    ensures
        contains_text(a, x) ==> contains_text(a + b, x),
        contains_text(b, x) ==> contains_text(a + b, x),
        contains_text(x, x),
{
    assert(occurs_at(x, x, 0)) by {
        assert(x.subrange(0, x.len() as int) =~= x);
    }
    if contains_text(a, x) {
        let i = choose|i: int| occurs_at(a, x, i);
        assert((a + b).subrange(i, i + x.len()) =~= a.subrange(i, i + x.len()));
        assert(occurs_at(a + b, x, i));
    }
    if contains_text(b, x) {
        let i = choose|i: int| occurs_at(b, x, i);
        let j = a.len() + i;
        assert((a + b).subrange(j, j + x.len()) =~= b.subrange(i, i + x.len()));
        assert(occurs_at(a + b, x, j));
    }
}

/// Whether `i` is the first place at which `pat` stands, at or after `from`.
pub open spec fn first_at(s: Seq<char>, pat: Seq<char>, from: int, i: int) -> bool {
    &&& from <= i
    &&& occurs_at(s, pat, i)
    &&& forall|j: int| from <= j < i ==> !occurs_at(s, pat, j)
}

pub open spec fn starts_with(s: Seq<char>, pat: Seq<char>) -> bool {
    occurs_at(s, pat, 0)
}

pub open spec fn ends_with(s: Seq<char>, pat: Seq<char>) -> bool {
    occurs_at(s, pat, s.len() - pat.len())
}

pub(crate) fn stands_at(s: &[char], pat: &[char], i: usize) -> (r: bool)
    ensures
        r == occurs_at(s@, pat@, i as int),
{
    if i > s.len() || pat.len() > s.len() - i {
        return false;
    }
    let mut j: usize = 0;
    while j < pat.len()
        invariant
            j <= pat@.len(),
            i + pat@.len() <= s@.len(),
            s@.len() <= usize::MAX,
            forall|m: int| 0 <= m < j ==> s@[i + m] == pat@[m],
        decreases pat@.len() - j,
    {
        if s[i + j] != pat[j] {
            assert(s@.subrange(i as int, i + pat@.len())[j as int] != pat@[j as int]);
            return false;
        }
        j = j + 1;
    }
    assert(s@.subrange(i as int, i + pat@.len()) =~= pat@);
    true
}

/// The first place at or after `from` where `pat` stands.
pub(crate) fn find(s: &[char], pat: &[char], from: usize) -> (r: Option<usize>)
    ensures
        match r {
            Some(i) => first_at(s@, pat@, from as int, i as int) && i + pat@.len() <= s@.len(),
            None => forall|j: int| from <= j ==> !occurs_at(s@, pat@, j),
        },
{
    let mut i: usize = from;
    while i <= s.len()
        invariant
            from <= i,
            forall|j: int| from <= j < i ==> !occurs_at(s@, pat@, j),
        decreases s@.len() + 1 - i,
    {
        if stands_at(s, pat, i) {
            return Some(i);
        }
        if i == s.len() {
            assert forall|j: int| from <= j implies !occurs_at(s@, pat@, j) by {}
            return None;
        }
        i = i + 1;
    }
    None
}

/// Where a pattern first occurs, looking from a position on.
pub open spec fn found(s: Seq<char>, pat: Seq<char>, from: int) -> Option<int>
    decreases s.len() + 1 - from,
{
    if from < 0 || from > s.len() {
        None
    } else if occurs_at(s, pat, from) {
        Some(from)
    } else {
        found(s, pat, from + 1)
    }
}

pub proof fn lemma_found_some(s: Seq<char>, pat: Seq<char>, from: int, i: int)
    requires
        0 <= from,
        first_at(s, pat, from, i),
    ensures
        found(s, pat, from) == Some(i),
    decreases i - from,
{
    if from < i {
        assert(!occurs_at(s, pat, from));
        lemma_found_some(s, pat, from + 1, i);
    }
}

proof fn lemma_found_none(s: Seq<char>, pat: Seq<char>, from: int)
    requires
        0 <= from,
        forall|j: int| from <= j ==> !occurs_at(s, pat, j),
    ensures
        found(s, pat, from) is None,
    decreases s.len() + 1 - from,
{
    if from <= s.len() {
        assert(!occurs_at(s, pat, from));
        lemma_found_none(s, pat, from + 1);
    }
}

pub proof fn lemma_found_facts(s: Seq<char>, pat: Seq<char>, from: int)
    ensures
        found(s, pat, from) matches Some(i) ==> from <= i && i + pat.len() <= s.len()
            && first_at(s, pat, from, i),
    decreases s.len() + 1 - from,
{
    if from < 0 || from > s.len() {
    } else if !occurs_at(s, pat, from) {
        lemma_found_facts(s, pat, from + 1);
    }
}

/// Find where a pattern first occurs, looking from a position on.
pub(crate) fn position(s: &[char], pat: &[char], from: usize) -> (r: Option<usize>)
    ensures
        match r {
            Some(i) => found(s@, pat@, from as int) == Some(i as int) && from <= i && i
                + pat@.len() <= s@.len(),
            None => found(s@, pat@, from as int) is None,
        },
{
    let r = find(s, pat, from);
    proof {
        match r {
            Some(i) => lemma_found_some(s@, pat@, from as int, i as int),
            None => lemma_found_none(s@, pat@, from as int),
        }
    }
    r
}

pub(crate) fn contains_chars(s: &[char], pat: &[char]) -> (r: bool)
    ensures
        r == contains_text(s@, pat@),
{
    match find(s, pat, 0) {
        Some(i) => {
            assert(occurs_at(s@, pat@, i as int));
            true
        },
        None => false,
    }
}

/// Whether `s` holds `pat`.
pub fn contains(s: &str, pat: &str) -> (r: bool)
    ensures
        r == contains_text(s@, pat@),
{
    contains_chars(chars_of(s).as_slice(), chars_of(pat).as_slice())
}

// ---------------------------------------------------------------------------
// Replacing
// ---------------------------------------------------------------------------

/// Every occurrence of `from`, found left to right and without overlap,
/// replaced by `to`.
pub open spec fn replaced(s: Seq<char>, from: Seq<char>, to: Seq<char>) -> Seq<char>
    decreases s.len(),
{
    if s.len() == 0 || from.len() == 0 {
        s
    } else if occurs_at(s, from, 0) {
        to + replaced(s.skip(from.len() as int), from, to)
    } else {
        seq![s[0]] + replaced(s.drop_first(), from, to)
    }
}

pub(crate) fn replace_chars(s: &[char], from: &[char], to: &[char]) -> (r: Vec<char>)
    requires
        from@.len() > 0,
    ensures
        r@ == replaced(s@, from@, to@),
{
    let mut out: Vec<char> = Vec::new();
    let mut i: usize = 0;
    assert(s@.skip(0) =~= s@);
    assert(out@ + replaced(s@, from@, to@) =~= replaced(s@, from@, to@));
    while i < s.len()
        invariant
            from@.len() > 0,
            i <= s@.len(),
            replaced(s@, from@, to@) == out@ + replaced(s@.skip(i as int), from@, to@),
        decreases s@.len() - i,
    {
        let ghost rest = s@.skip(i as int);
        let ghost before = out@;
        let hit = stands_at(s, from, i);
        proof {
            if i + from@.len() <= s@.len() {
                assert(rest.subrange(0, from@.len() as int) =~= s@.subrange(
                    i as int,
                    i + from@.len(),
                ));
            }
            assert(hit == occurs_at(rest, from@, 0));
        }
        if hit {
            append_chars(&mut out, to);
            assert(rest.skip(from@.len() as int) =~= s@.skip(i + from@.len()));
            assert(out@ + replaced(s@.skip(i + from@.len()), from@, to@) =~= before + (to@
                + replaced(s@.skip(i + from@.len()), from@, to@)));
            i = i + from.len();
        } else {
            out.push(s[i]);
            assert(rest.drop_first() =~= s@.skip(i + 1));
            assert(out@ + replaced(s@.skip(i + 1), from@, to@) =~= before + (seq![rest[0]]
                + replaced(s@.skip(i + 1), from@, to@)));
            i = i + 1;
        }
    }
    assert(out@ + replaced(s@.skip(i as int), from@, to@) =~= out@);
    out
}

// ---------------------------------------------------------------------------
// Length in bytes
// ---------------------------------------------------------------------------

/// How many bytes a character takes in UTF-8.
pub open spec fn char_bytes(c: char) -> nat {
    let u = c as u32;
    if u < 0x80 {
        1
    } else if u < 0x800 {
        2
    } else if u < 0x10000 {
        3
    } else {
        4
    }
}

/// How many bytes a string takes in UTF-8.
pub open spec fn byte_len(s: Seq<char>) -> nat
    decreases s.len(),
{
    if s.len() == 0 {
        0
    } else {
        byte_len(s.drop_last()) + char_bytes(s.last())
    }
}

/// How many whole characters fit in a budget of bytes.
pub open spec fn fitting(s: Seq<char>, budget: nat) -> nat
    decreases s.len(),
{
    if s.len() == 0 || byte_len(s) <= budget {
        s.len()
    } else {
        fitting(s.drop_last(), budget)
    }
}

pub proof fn lemma_byte_len_add(a: Seq<char>, b: Seq<char>)
    ensures
        byte_len(a + b) == byte_len(a) + byte_len(b),
    decreases b.len(),
{
    if b.len() == 0 {
        assert(a + b =~= a);
    } else {
        lemma_byte_len_add(a, b.drop_last());
        assert((a + b).drop_last() =~= a + b.drop_last());
        assert((a + b).last() == b.last());
    }
}

/// A prefix takes no more bytes than the whole.
pub proof fn lemma_byte_len_take(s: Seq<char>, n: int)
    requires
        0 <= n <= s.len(),
    ensures
        byte_len(s.take(n)) <= byte_len(s),
{
    assert(s =~= s.take(n) + s.skip(n));
    lemma_byte_len_add(s.take(n), s.skip(n));
}

pub proof fn lemma_fitting(s: Seq<char>, budget: nat, n: nat)
    requires
        n <= s.len(),
        byte_len(s.take(n as int)) <= budget,
        n < s.len() ==> byte_len(s.take(n as int + 1)) > budget,
    ensures
        fitting(s, budget) == n,
    decreases s.len(),
{
    assert(s.take(s.len() as int) =~= s);
    if n < s.len() {
        lemma_byte_len_take(s, n as int + 1);
        let t = s.drop_last();
        assert(t.take(n as int) =~= s.take(n as int));
        if n < t.len() {
            assert(t.take(n as int + 1) =~= s.take(n as int + 1));
        }
        lemma_fitting(t, budget, n);
    }
}

pub proof fn lemma_fitting_facts(s: Seq<char>, budget: nat)
    ensures
        fitting(s, budget) <= s.len(),
        byte_len(s.take(fitting(s, budget) as int)) <= budget || s.len() == 0,
        budget > 3 && s.len() > 0 ==> fitting(s, budget) > 0,
    decreases s.len(),
{
    assert(s.take(s.len() as int) =~= s);
    if s.len() > 0 && byte_len(s) > budget {
        let t = s.drop_last();
        lemma_fitting_facts(t, budget);
        assert(t.take(fitting(t, budget) as int) =~= s.take(fitting(t, budget) as int));
        if t.len() == 0 {
            assert(s.take(0) =~= Seq::<char>::empty());
            assert(byte_len(s) == byte_len(t) + char_bytes(s.last()));
        }
    }
}

pub(crate) fn utf8_width(c: char) -> (r: usize)
    ensures
        r == char_bytes(c),
        1 <= r <= 4,
{
    let u: u32 = c as u32;
    if u < 0x80 {
        1
    } else if u < 0x800 {
        2
    } else if u < 0x10000 {
        3
    } else {
        4
    }
}

/// How many bytes a string takes in UTF-8.
pub(crate) fn utf8_len(s: &[char]) -> (r: u128)
    ensures
        r == byte_len(s@),
        r <= 4 * s@.len(),
{
    let mut i: usize = 0;
    let mut used: u128 = 0;
    let total: usize = s.len();
    while i < total
        invariant
            i <= s@.len(),
            total == s@.len(),
            used == byte_len(s@.take(i as int)),
            used <= 4 * i,
        decreases s@.len() - i,
    {
        assert(s@.take(i + 1).drop_last() =~= s@.take(i as int));
        used = used + utf8_width(s[i]) as u128;
        i = i + 1;
    }
    assert(s@.take(i as int) =~= s@);
    used
}

/// How many whole characters fit in a budget of bytes.
pub(crate) fn chars_within(s: &[char], budget: u128) -> (r: usize)
    ensures
        r == fitting(s@, budget as nat),
        r <= s@.len(),
{
    let mut i: usize = 0;
    let mut used: u128 = 0;
    while i < s.len()
        invariant
            i <= s@.len(),
            used == byte_len(s@.take(i as int)),
            used <= budget,
        decreases s@.len() - i,
    {
        let w: u128 = utf8_width(s[i]) as u128;
        proof {
            assert(s@.take(i + 1).drop_last() =~= s@.take(i as int));
        }
        if w > budget - used {
            proof {
                lemma_fitting(s@, budget as nat, i as nat);
            }
            return i;
        }
        used = used + w;
        i = i + 1;
    }
    proof {
        assert(s@.take(i as int) =~= s@);
        lemma_fitting(s@, budget as nat, i as nat);
    }
    i
}

// ---------------------------------------------------------------------------
// What words and joins are made of
// ---------------------------------------------------------------------------

/// A word is not empty, holds no white space, and every character of it
/// stands in the string.
pub proof fn lemma_words(s: Seq<char>)
    ensures
        forall|i: int|
            0 <= i < words(s).len() ==> (#[trigger] words(s)[i]).len() > 0 && (forall|j: int|
                0 <= j < words(s)[i].len() ==> !is_white(words(s)[i][j]) && s.contains(
                    #[trigger] words(s)[i][j],
                )),
    decreases s.len(),
{
    if s.len() > 0 {
        if is_white(s[0]) {
            let t = s.drop_first();
            lemma_words(t);
            assert forall|i: int| 0 <= i < words(s).len() implies (#[trigger] words(s)[i]).len() > 0
                && (forall|j: int|
                0 <= j < words(s)[i].len() ==> !is_white(words(s)[i][j]) && s.contains(
                    #[trigger] words(s)[i][j],
                )) by {
                assert(words(s)[i] == words(t)[i]);
                assert forall|j: int| 0 <= j < words(s)[i].len() implies !is_white(words(s)[i][j])
                    && s.contains(#[trigger] words(s)[i][j]) by {
                    let x = words(t)[i][j];
                    assert(t.contains(x));
                    let m = choose|m: int| 0 <= m < t.len() && t[m] == x;
                    assert(s[m + 1] == x);
                }
            }
        } else {
            lemma_leading_facts(s, Class::Solid);
            let n = leading(s, Class::Solid) as int;
            let t = s.skip(n);
            lemma_words(t);
            assert(words(s) == seq![s.take(n)] + words(t));
            assert forall|i: int| 0 <= i < words(s).len() implies (#[trigger] words(s)[i]).len() > 0
                && (forall|j: int|
                0 <= j < words(s)[i].len() ==> !is_white(words(s)[i][j]) && s.contains(
                    #[trigger] words(s)[i][j],
                )) by {
                if i == 0 {
                    assert(words(s)[0] == s.take(n));
                    assert forall|j: int| 0 <= j < words(s)[i].len() implies !is_white(
                        words(s)[i][j],
                    ) && s.contains(#[trigger] words(s)[i][j]) by {
                        assert(words(s)[i][j] == s[j]);
                    }
                } else {
                    assert(words(s)[i] == words(t)[i - 1]);
                    assert forall|j: int| 0 <= j < words(s)[i].len() implies !is_white(
                        words(s)[i][j],
                    ) && s.contains(#[trigger] words(s)[i][j]) by {
                        let x = words(t)[i - 1][j];
                        assert(t.contains(x));
                        let m = choose|m: int| 0 <= m < t.len() && t[m] == x;
                        assert(s[m + n] == x);
                    }
                }
            }
        }
    }
}

/// Every character of a join comes from a part or from the separator.
pub proof fn lemma_joined_chars(parts: Seq<Seq<char>>, sep: Seq<char>, i: int)
    requires
        0 <= i < joined(parts, sep).len(),
    ensures
        sep.contains(joined(parts, sep)[i]) || exists|k: int|
            0 <= k < parts.len() && (#[trigger] parts[k]).contains(joined(parts, sep)[i]),
    decreases parts.len(),
{
    if parts.len() == 1 {
        assert(parts[0].contains(joined(parts, sep)[i]));
    } else if parts.len() > 1 {
        let front = joined(parts.drop_last(), sep);
        if i < front.len() {
            lemma_joined_chars(parts.drop_last(), sep, i);
            let x = front[i];
            assert(joined(parts, sep)[i] == x);
            if !sep.contains(x) {
                let k = choose|k: int|
                    0 <= k < parts.drop_last().len() && (#[trigger] parts.drop_last()[k]).contains(x);
                assert(parts[k].contains(x));
            }
        } else if i < front.len() + sep.len() {
            assert(joined(parts, sep)[i] == sep[i - front.len()]);
        } else {
            assert(joined(parts, sep)[i] == parts.last()[i - front.len() - sep.len()]);
            assert(parts[parts.len() - 1].contains(joined(parts, sep)[i]));
        }
    }
}

/// Collapsing white space leaves only the characters that were there, and
/// single spaces.
pub proof fn lemma_collapsed_chars(s: Seq<char>)
    ensures
        forall|i: int|
            0 <= i < collapsed(s).len() ==> (#[trigger] collapsed(s)[i] == ' ' || (s.contains(
                collapsed(s)[i],
            ) && !is_white(collapsed(s)[i]))),
{
    lemma_words(s);
    assert forall|i: int| 0 <= i < collapsed(s).len() implies (#[trigger] collapsed(s)[i] == ' ' || (
    s.contains(collapsed(s)[i]) && !is_white(collapsed(s)[i]))) by {
        lemma_joined_chars(words(s), seq![' '], i);
        let x = collapsed(s)[i];
        if seq![' '].contains(x) {
            assert(x == ' ');
        } else {
            let k = choose|k: int| 0 <= k < words(s).len() && (#[trigger] words(s)[k]).contains(x);
            let j = choose|j: int| 0 <= j < words(s)[k].len() && words(s)[k][j] == x;
            assert(words(s)[k][j] == x);
        }
    }
}

/// Splitting what was joined by a character gives the parts back, as long as
/// no part holds that character.
pub proof fn lemma_split_joined(parts: Seq<Seq<char>>, c: char)
    requires
        parts.len() > 0,
        forall|i: int| 0 <= i < parts.len() ==> !(#[trigger] parts[i]).contains(c),
    ensures
        split(joined(parts, seq![c]), c) == parts,
    decreases parts.len(),
{
    if parts.len() == 1 {
        let s = parts[0];
        assert forall|i: int| 0 <= i < s.len() implies in_class(Class::IsNot(c), #[trigger] s[i]) by {
            assert(s.contains(s[i]));
        }
        lemma_leading(s, Class::IsNot(c), s.len());
        assert(split(s, c) =~= parts);
    } else {
        lemma_joined_front(parts, seq![c]);
        let first = parts[0];
        let rest = parts.drop_first();
        let tail = joined(rest, seq![c]);
        let s = joined(parts, seq![c]);
        assert(s == first + seq![c] + tail);
        assert forall|i: int| 0 <= i < first.len() implies in_class(Class::IsNot(c), #[trigger] s[i]) by {
            assert(s[i] == first[i]);
            assert(first.contains(first[i]));
        }
        assert(s[first.len() as int] == c);
        lemma_leading(s, Class::IsNot(c), first.len());
        assert(s.take(first.len() as int) =~= first);
        assert(s.skip(first.len() as int + 1) =~= tail);
        assert forall|i: int| 0 <= i < rest.len() implies !(#[trigger] rest[i]).contains(c) by {
            assert(rest[i] == parts[i + 1]);
        }
        lemma_split_joined(rest, c);
        assert(seq![first] + rest =~= parts);
    }
}

/// A join, seen from its first part.
pub proof fn lemma_joined_front(parts: Seq<Seq<char>>, sep: Seq<char>)
    requires
        parts.len() > 1,
    ensures
        joined(parts, sep) == parts[0] + sep + joined(parts.drop_first(), sep),
    decreases parts.len(),
{
    let rest = parts.drop_first();
    if parts.len() == 2 {
        assert(parts.drop_last().len() == 1);
        assert(parts.drop_last()[0] == parts[0]);
        assert(rest[0] == parts[1]);
        assert(joined(parts.drop_last(), sep) == parts[0]);
        assert(joined(rest, sep) == parts[1]);
    } else {
        lemma_joined_front(parts.drop_last(), sep);
        assert(parts.drop_last().drop_first() =~= rest.drop_last());
        assert(rest.last() == parts.last());
        assert(joined(parts, sep) =~= parts[0] + sep + joined(rest, sep));
    }
}

} // verus!
