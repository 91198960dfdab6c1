//! Turning model output into file system paths that survive contact with reality.

use crate::number;
use crate::number::decimal;
use crate::paths;
use crate::paths::{extension_of, join_paths};
use crate::text;
use crate::text::{Class, append_chars, chars_of, chars_within, class_holds, collapse, control, copy_range, eq_ignore_case, join_texts, lowercase, own, run_from, same, same_chars, split_chars, text_of, trim_chars, uppercase, utf8_len};
use vstd::prelude::*;
use vstd::string::StringExecFns;

verus! {

/// Longest single path component, in bytes. File systems allow 255; this
/// leaves room for suffixes.
pub const MAX_COMPONENT: usize = 180;

/// How many numbered variants of one name are tried.
pub const MAX_NUMBER: u64 = 10_000;

/// Characters no destination component may contain, on any platform.
pub open spec fn is_forbidden(c: char) -> bool {
    c == '/' || c == '\\' || c == ':' || c == '*' || c == '?' || c == '"' || c == '<' || c == '>'
        || c == '|' || c == '\0'
}

/// Names that some systems reserve for devices.
pub open spec fn is_reserved(name: Seq<char>) -> bool {
    ||| name == "CON"@
    ||| name == "PRN"@
    ||| name == "AUX"@
    ||| name == "NUL"@
    ||| name == "COM1"@
    ||| name == "COM2"@
    ||| name == "COM3"@
    ||| name == "COM4"@
    ||| name == "COM5"@
    ||| name == "COM6"@
    ||| name == "COM7"@
    ||| name == "COM8"@
    ||| name == "COM9"@
    ||| name == "LPT1"@
    ||| name == "LPT2"@
    ||| name == "LPT3"@
    ||| name == "LPT4"@
    ||| name == "LPT5"@
    ||| name == "LPT6"@
    ||| name == "LPT7"@
    ||| name == "LPT8"@
    ||| name == "LPT9"@
}

fn reserved(name: &str) -> (r: bool)
    ensures
        r == is_reserved(name@),
{
    same(name, "CON") || same(name, "PRN") || same(name, "AUX") || same(name, "NUL") || same(
        name,
        "COM1",
    ) || same(name, "COM2") || same(name, "COM3") || same(name, "COM4") || same(name, "COM5")
        || same(name, "COM6") || same(name, "COM7") || same(name, "COM8") || same(name, "COM9")
        || same(name, "LPT1") || same(name, "LPT2") || same(name, "LPT3") || same(name, "LPT4")
        || same(name, "LPT5") || same(name, "LPT6") || same(name, "LPT7") || same(name, "LPT8")
        || same(name, "LPT9")
}

fn forbidden(c: char) -> (r: bool)
    ensures
        r == is_forbidden(c),
{
    c == '/' || c == '\\' || c == ':' || c == '*' || c == '?' || c == '"' || c == '<' || c == '>'
        || c == '|' || c == '\0'
}

// ---------------------------------------------------------------------------
// Declined titles
// ---------------------------------------------------------------------------

/// Whether a title says nothing: blank, "unknown" or "untitled" in any case.
pub open spec fn says_nothing(title: Seq<char>) -> bool {
    let t = text::trim(title);
    t.len() == 0 || text::same_ignoring_case(t, "unknown"@) || text::same_ignoring_case(t, "untitled"@)
}

/// Whether a backend effectively declined to name something.
pub fn is_unknown(title: &str) -> (r: bool)
    ensures
        r == says_nothing(title@),
{
    let t = trim_chars(chars_of(title).as_slice(), Class::White);
    t.len() == 0 || eq_ignore_case(t.as_slice(), chars_of("unknown").as_slice())
        || eq_ignore_case(t.as_slice(), chars_of("untitled").as_slice())
}

// ---------------------------------------------------------------------------
// Components
// ---------------------------------------------------------------------------

/// The text with every character a component may not hold turned into a space.
pub open spec fn cleaned(raw: Seq<char>) -> Seq<char> {
    Seq::new(
        raw.len(),
        |i: int|
            if is_forbidden(raw[i]) || text::is_control(raw[i]) {
                ' '
            } else {
                raw[i]
            },
    )
}

/// The text without its trailing characters of a class.
pub open spec fn trim_end(s: Seq<char>, k: Class) -> Seq<char> {
    s.take(s.len() - text::trailing(s, k))
}

/// As much of the text as fits in a number of bytes, whole characters only,
/// without white space left dangling by the cut.
pub open spec fn truncated(s: Seq<char>, max: nat) -> Seq<char> {
    if text::byte_len(s) <= max {
        s
    } else {
        trim_end(s.take(text::fitting(s, max) as int), Class::White)
    }
}

/// The text as a component, before reserved names are told apart.
pub open spec fn plain_component(raw: Seq<char>) -> Seq<char> {
    let solid = text::trimmed(text::collapsed(cleaned(raw)), Class::Edge);
    let short = trim_end(truncated(solid, MAX_COMPONENT as nat), Class::Edge);
    if short.len() == 0 {
        "Untitled"@
    } else {
        short
    }
}

/// The name, marked with an underscore when its upper-case form is reserved. No
/// reserved name has more than four characters, and upper case never makes a
/// name shorter.
pub open spec fn marked(name: Seq<char>, upper: Seq<char>) -> Seq<char> {
    if name.len() <= 4 && is_reserved(upper) {
        name.push('_')
    } else {
        name
    }
}

/// A name as long as its upper-case form is not reserved, else one that is free.
pub open spec fn unreserved(name: Seq<char>, upper: Seq<char>) -> Seq<char> {
    if is_reserved(upper) {
        "Untitled"@
    } else {
        name
    }
}

/// A path component made safe.
pub open spec fn component(raw: Seq<char>) -> Seq<char> {
    let name = plain_component(raw);
    let m = marked(name, text::uppered(name));
    unreserved(m, text::uppered(m))
}

/// What a safe component is: not empty, within the length limit, free of
/// separators and control characters, and without a full stop or white space
/// at either end.
pub open spec fn is_safe_component(s: Seq<char>) -> bool {
    &&& s.len() > 0
    &&& text::byte_len(s) <= MAX_COMPONENT
    &&& forall|i: int| 0 <= i < s.len() ==> !is_forbidden(#[trigger] s[i]) && !text::is_control(s[i])
    &&& !text::in_class(Class::Edge, s[0])
    &&& !text::in_class(Class::Edge, s.last())
}

proof fn lemma_trim_end(s: Seq<char>, k: Class)
    ensures
        trim_end(s, k).len() <= s.len(),
        trim_end(s, k) == s.take(trim_end(s, k).len() as int),
        trim_end(s, k).len() > 0 ==> !text::in_class(k, trim_end(s, k).last()),
        s.len() > 0 && !text::in_class(k, s[0]) ==> trim_end(s, k).len() > 0,
        text::byte_len(trim_end(s, k)) <= text::byte_len(s),
{
    text::lemma_trailing_facts(s, k);
    let n = s.len() - text::trailing(s, k);
    text::lemma_byte_len_take(s, n);
    if n > 0 {
        assert(trim_end(s, k).last() == s[n - 1]);
    }
}

proof fn lemma_truncated(s: Seq<char>, max: nat)
    ensures
        truncated(s, max).len() <= s.len(),
        truncated(s, max) == s.take(truncated(s, max).len() as int),
        text::byte_len(truncated(s, max)) <= max,
        max > 3 && s.len() > 0 && !text::is_white(s[0]) ==> truncated(s, max).len() > 0,
{
    if text::byte_len(s) <= max {
        assert(s.take(s.len() as int) =~= s);
    } else {
        text::lemma_fitting_facts(s, max);
        let t = s.take(text::fitting(s, max) as int);
        lemma_trim_end(t, Class::White);
        assert(truncated(s, max) =~= s.take(truncated(s, max).len() as int));
        if s.len() == 0 {
            assert(text::byte_len(s) == 0);
        }
    }
}

/// Before the reserved-name mark, a component is already safe and within the
/// limit.
proof fn lemma_plain_component(raw: Seq<char>)
    ensures
        is_safe_component(plain_component(raw)),
        text::byte_len(plain_component(raw)) <= MAX_COMPONENT,
{
    let base = text::collapsed(cleaned(raw));
    text::lemma_collapsed_chars(cleaned(raw));
    text::lemma_trimmed_facts(base, Class::Edge);
    let solid = text::trimmed(base, Class::Edge);
    lemma_truncated(solid, MAX_COMPONENT as nat);
    let cut = truncated(solid, MAX_COMPONENT as nat);
    lemma_trim_end(cut, Class::Edge);
    let short = trim_end(cut, Class::Edge);
    if short.len() == 0 {
        reveal_strlit("Untitled");
        let u = "Untitled"@;
        assert(text::byte_len(u) == 8) by {
            reveal_with_fuel(text::byte_len, 9);
        }
    } else {
        assert forall|i: int| 0 <= i < short.len() implies !is_forbidden(#[trigger] short[i])
            && !text::is_control(short[i]) by {
            let j = text::leading(base, Class::Edge) + i;
            assert(short[i] == base[j]);
            let x = base[j];
            if x != ' ' {
                assert(cleaned(raw).contains(x));
                let m = choose|m: int| 0 <= m < cleaned(raw).len() && cleaned(raw)[m] == x;
                assert(cleaned(raw)[m] == x);
            }
        }
        assert(short[0] == solid[0]);
    }
}

/// Every component is safe, whatever it was made from: no separators, no
/// control characters, no full stops or spaces at either end, never empty.
pub proof fn components_are_safe(raw: Seq<char>)
    ensures
        is_safe_component(component(raw)),
{
    lemma_plain_component(raw);
    let name = plain_component(raw);
    reveal_strlit("Untitled");
    assert(text::byte_len("Untitled"@) == 8) by {
        reveal_with_fuel(text::byte_len, 9);
    }
    if name.len() <= 4 && is_reserved(text::uppered(name)) {
        let r = name.push('_');
        assert(r.drop_last() =~= name);
        assert(text::byte_len(r) == text::byte_len(name) + 1);
        lemma_few_bytes(name);
    }
}

/// A character takes at most four bytes.
proof fn lemma_few_bytes(s: Seq<char>)
    ensures
        text::byte_len(s) <= 4 * s.len(),
    decreases s.len(),
{
    if s.len() > 0 {
        lemma_few_bytes(s.drop_last());
    }
}

proof fn lemma_reserved(s: Seq<char>)
    requires
        is_reserved(s),
    ensures
        0 < s.len() <= 4,
{
    reveal_strlit("CON");
    reveal_strlit("PRN");
    reveal_strlit("AUX");
    reveal_strlit("NUL");
    reveal_strlit("COM1");
    reveal_strlit("COM2");
    reveal_strlit("COM3");
    reveal_strlit("COM4");
    reveal_strlit("COM5");
    reveal_strlit("COM6");
    reveal_strlit("COM7");
    reveal_strlit("COM8");
    reveal_strlit("COM9");
    reveal_strlit("LPT1");
    reveal_strlit("LPT2");
    reveal_strlit("LPT3");
    reveal_strlit("LPT4");
    reveal_strlit("LPT5");
    reveal_strlit("LPT6");
    reveal_strlit("LPT7");
    reveal_strlit("LPT8");
    reveal_strlit("LPT9");
}

/// A component is never a reserved name, in any case of its letters.
pub proof fn components_are_not_reserved(raw: Seq<char>)
    ensures
        !is_reserved(text::uppered(component(raw))),
{
    reveal_strlit("Untitled");
    let u = "Untitled"@;
    assert(text::all_ascii(u));
    assert(text::uppered(u) == text::ascii_uppered(u));
    if is_reserved(text::uppered(u)) {
        lemma_reserved(text::uppered(u));
    }
}

/// A safe component is an ordinary name: it is neither the current directory
/// nor its parent, and it holds no slash.
pub proof fn safe_components_are_names(s: Seq<char>)
    requires
        is_safe_component(s),
    ensures
        s != seq!['.'],
        s != seq!['.', '.'],
        !s.contains('/'),
{
    if s.contains('/') {
        let i = choose|i: int| 0 <= i < s.len() && s[i] == '/';
        assert(is_forbidden(s[i]));
    }
}

fn clean(raw: &[char]) -> (r: Vec<char>)
    ensures
        r@ == cleaned(raw@),
{
    let mut out: Vec<char> = Vec::new();
    let mut i: usize = 0;
    while i < raw.len()
        invariant
            i <= raw@.len(),
            out@ =~= cleaned(raw@).take(i as int),
        decreases raw@.len() - i,
    {
        if forbidden(raw[i]) || control(raw[i]) {
            out.push(' ');
        } else {
            out.push(raw[i]);
        }
        i = i + 1;
    }
    assert(cleaned(raw@).take(i as int) =~= cleaned(raw@));
    out
}

fn trim_end_chars(s: &[char], k: Class) -> (r: Vec<char>)
    ensures
        r@ == trim_end(s@, k),
{
    let mut end: usize = s.len();
    while end > 0 && class_holds(k, s[end - 1])
        invariant
            end <= s@.len(),
            forall|j: int| end <= j < s@.len() ==> text::in_class(k, #[trigger] s@[j]),
        decreases end,
    {
        end = end - 1;
    }
    proof {
        text::lemma_trailing(s@, k, (s@.len() - end) as nat);
    }
    let out = copy_range(s, 0, end);
    assert(out@ =~= trim_end(s@, k));
    out
}

/// Truncate to a byte budget without splitting a character.
fn truncate_bytes(s: &[char], max: usize) -> (r: Vec<char>)
    ensures
        r@ == truncated(s@, max as nat),
{
    if utf8_len(s) <= max as u128 {
        let out = copy_range(s, 0, s.len());
        assert(out@ =~= s@);
        return out;
    }
    let n: usize = chars_within(s, max as u128);
    let cut = copy_range(s, 0, n);
    assert(cut@ =~= s@.take(n as int));
    trim_end_chars(cut.as_slice(), Class::White)
}

/// Mark a name whose upper-case form is reserved.
pub fn mark_reserved(name: &str, upper: &str) -> (r: String)
    ensures
        r@ == marked(name@, upper@),
{
    let mut out = own(name);
    if chars_of(name).len() <= 4 && reserved(upper) {
        out.push('_');
    }
    out
}

/// Make one path component safe: no separators, no control characters, no
/// leading/trailing dots or spaces, never empty.
pub fn sanitize_component(raw: &str) -> (r: String)
    ensures
        r@ == component(raw@),
        is_safe_component(r@),
        !is_reserved(text::uppered(r@)),
{
    let cleaned_up = clean(chars_of(raw).as_slice());
    let single = collapse(cleaned_up.as_slice());
    let solid = trim_chars(single.as_slice(), Class::Edge);
    let cut = truncate_bytes(solid.as_slice(), MAX_COMPONENT);
    let short = trim_end_chars(cut.as_slice(), Class::Edge);
    let name = if short.len() == 0 {
        own("Untitled")
    } else {
        text_of(short.as_slice())
    };
    proof {
        components_are_safe(raw@);
        components_are_not_reserved(raw@);
    }
    let upper = uppercase(name.as_str());
    let marked_name = mark_reserved(name.as_str(), upper.as_str());
    if reserved(uppercase(marked_name.as_str()).as_str()) {
        own("Untitled")
    } else {
        marked_name
    }
}

// ---------------------------------------------------------------------------
// Folders
// ---------------------------------------------------------------------------

/// Whether a segment names no folder: blank, or a step to here or upwards.
pub open spec fn is_void_segment(segment: Seq<char>) -> bool {
    let t = text::trim(segment);
    t.len() == 0 || t == "."@ || t == ".."@
}

/// The safe components of the segments that name a folder.
pub open spec fn folder_parts(segments: Seq<Seq<char>>) -> Seq<Seq<char>>
    decreases segments.len(),
{
    if segments.len() == 0 {
        seq![]
    } else {
        let front = folder_parts(segments.drop_last());
        if is_void_segment(segments.last()) {
            front
        } else {
            front.push(component(text::trim(segments.last())))
        }
    }
}

/// The components of a sanitized folder path; at least one.
pub open spec fn folder_components(raw: Seq<char>) -> Seq<Seq<char>> {
    let parts = folder_parts(text::split(raw, '/'));
    if parts.len() == 0 {
        seq!["Unsorted"@]
    } else {
        parts
    }
}

/// A slash-separated folder path made safe.
pub open spec fn folder(raw: Seq<char>) -> Seq<char> {
    text::joined(folder_components(raw), seq!['/'])
}

proof fn lemma_folder_parts(segments: Seq<Seq<char>>)
    ensures
        forall|i: int|
            0 <= i < folder_parts(segments).len() ==> is_safe_component(
                #[trigger] folder_parts(segments)[i],
            ),
    decreases segments.len(),
{
    if segments.len() > 0 {
        let front = folder_parts(segments.drop_last());
        lemma_folder_parts(segments.drop_last());
        components_are_safe(text::trim(segments.last()));
        assert forall|i: int| 0 <= i < folder_parts(segments).len() implies is_safe_component(
            #[trigger] folder_parts(segments)[i],
        ) by {
            if i < front.len() {
                assert(folder_parts(segments)[i] == front[i]);
            }
        }
    }
}

/// A folder path never leaves the library: read segment by segment it is a
/// list of safe components, so it is not absolute and no step of it goes
/// upwards, whatever it was made from.
pub proof fn folders_stay_inside_the_library(raw: Seq<char>)
    ensures
        text::split(folder(raw), '/') == folder_components(raw),
        folder_components(raw).len() > 0,
        forall|i: int|
            0 <= i < folder_components(raw).len() ==> is_safe_component(
                #[trigger] folder_components(raw)[i],
            ) && folder_components(raw)[i] != seq!['.'] && folder_components(raw)[i] != seq![
                '.',
                '.',
            ],
        !paths::is_absolute(folder(raw)),
{
    let parts = folder_components(raw);
    lemma_folder_parts(text::split(raw, '/'));
    reveal_strlit("Unsorted");
    assert(is_safe_component("Unsorted"@)) by {
        reveal_with_fuel(text::byte_len, 9);
    }
    assert forall|i: int| 0 <= i < parts.len() implies is_safe_component(#[trigger] parts[i])
        && parts[i] != seq!['.'] && parts[i] != seq!['.', '.'] && !parts[i].contains('/') by {
        safe_components_are_names(parts[i]);
    }
    text::lemma_split_joined(parts, '/');
    if parts.len() > 1 {
        text::lemma_joined_front(parts, seq!['/']);
    }
    assert(folder(raw)[0] == parts[0][0]);
    assert(is_safe_component(parts[0]));
    assert(!is_forbidden(parts[0][0]));
}

fn void_segment(t: &[char]) -> (r: bool)
    ensures
        r == (t@.len() == 0 || t@ == "."@ || t@ == ".."@),
{
    t.len() == 0 || same_chars(t, chars_of(".").as_slice()) || same_chars(
        t,
        chars_of("..").as_slice(),
    )
}

/// Sanitize a slash-separated folder path, dropping empty and traversal segments.
pub fn sanitize_folder(raw: &str) -> (r: String)
    ensures
        r@ == folder(raw@),
{
    let segments = split_chars(chars_of(raw).as_slice(), '/');
    let ghost all = text::char_lists(segments@);
    let mut parts: Vec<String> = Vec::new();
    let mut i: usize = 0;
    assert(text::texts(parts@) =~= folder_parts(all.take(0)));
    while i < segments.len()
        invariant
            i <= segments@.len(),
            all == text::char_lists(segments@),
            text::texts(parts@) == folder_parts(all.take(i as int)),
        decreases segments@.len() - i,
    {
        let t = trim_chars(segments[i].as_slice(), Class::White);
        proof {
            let next = all.take(i + 1);
            assert(next.drop_last() =~= all.take(i as int));
            assert(next.last() == segments@[i as int]@);
        }
        if !void_segment(t.as_slice()) {
            let ghost before = parts@;
            let name = sanitize_component(text_of(t.as_slice()).as_str());
            parts.push(name);
            assert(text::texts(parts@) =~= text::texts(before).push(component(t@)));
        }
        i = i + 1;
    }
    assert(all.take(i as int) =~= all);
    if parts.len() == 0 {
        parts.push(own("Unsorted"));
        assert(text::texts(parts@) =~= seq!["Unsorted"@]);
    }
    proof {
        reveal_strlit("/");
        assert("/"@ =~= seq!['/']);
    }
    join_texts(&parts, "/")
}

// ---------------------------------------------------------------------------
// File names
// ---------------------------------------------------------------------------

/// The extension a document keeps: its own in lower case, or `pdf`.
pub open spec fn kept_extension(source: Seq<char>) -> Seq<char> {
    match paths::extension(source) {
        Some(e) => text::lowered(e),
        None => "pdf"@,
    }
}

/// Where the last full stop of a text is.
pub open spec fn last_stop(s: Seq<char>) -> Option<int>
    decreases s.len(),
{
    if s.len() == 0 {
        None
    } else if s.last() == '.' {
        Some(s.len() - 1)
    } else {
        last_stop(s.drop_last())
    }
}

/// What follows the last full stop of a text.
pub open spec fn ending(s: Seq<char>) -> Seq<char> {
    match last_stop(s) {
        Some(at) => s.skip(at + 1),
        None => seq![],
    }
}

/// A title that ends in the extension loses it. `lower` is its ending in lower
/// case.
pub open spec fn without_extension(
    stem: Seq<char>,
    lower: Seq<char>,
    ext: Seq<char>,
) -> Seq<char> {
    match last_stop(stem) {
        Some(at) => if lower == ext {
            let left = text::trim(stem.take(at));
            if left.len() == 0 {
                "Untitled"@
            } else {
                left
            }
        } else {
            stem
        },
        None => stem,
    }
}

/// The bytes left for the stem once the extension and a suffix have theirs.
pub open spec fn stem_budget(ext: Seq<char>) -> nat {
    (MAX_COMPONENT - text::byte_len(ext) - 8) as nat
}

/// Whether an extension leaves room for a name at all.
pub open spec fn extension_fits(ext: Seq<char>) -> bool {
    text::byte_len(ext) + 8 <= MAX_COMPONENT
}

/// Whether an extension can stand in a file name: there is room for it, and it
/// holds no slash.
pub open spec fn extension_serves(ext: Seq<char>) -> bool {
    extension_fits(ext) && !ext.contains('/')
}

/// A file name from a safe stem, its ending in lower case and an extension.
pub open spec fn assembled(stem: Seq<char>, lower: Seq<char>, ext: Seq<char>) -> Seq<char> {
    truncated(without_extension(stem, lower, ext), stem_budget(ext)) + seq!['.'] + ext
}

/// The destination file name for a title and a source.
pub open spec fn destination_name(title: Seq<char>, source: Seq<char>) -> Seq<char> {
    let stem = component(title);
    assembled(stem, text::lowered(ending(stem)), kept_extension(source))
}

fn stop_position(s: &[char]) -> (r: Option<usize>)
    ensures
        match r {
            Some(at) => last_stop(s@) == Some(at as int) && at < s@.len(),
            None => last_stop(s@) is None,
        },
{
    let mut n: usize = s.len();
    assert(s@.take(n as int) =~= s@);
    while n > 0
        invariant
            n <= s@.len(),
            last_stop(s@.take(n as int)) == last_stop(s@),
        decreases n,
    {
        assert(s@.take(n as int).drop_last() =~= s@.take(n - 1));
        if s[n - 1] == '.' {
            return Some(n - 1);
        }
        n = n - 1;
    }
    None
}

fn ending_of(stem: &str) -> (r: String)
    ensures
        r@ == ending(stem@),
{
    let s = chars_of(stem);
    match stop_position(s.as_slice()) {
        Some(at) => {
            let n: usize = s.len();
            assert(at < n);
            let tail = copy_range(s.as_slice(), at + 1, n);
            assert(tail@ =~= stem@.skip(at + 1));
            text_of(tail.as_slice())
        },
        None => {
            let nothing = String::new();
            assert(nothing@ =~= ending(stem@));
            nothing
        },
    }
}

/// Put a file name together from a stem, its ending in lower case and an
/// extension.
pub fn assemble_name(stem: &str, lower: &str, ext: &str) -> (r: String)
    requires
        extension_fits(ext@),
    ensures
        r@ == assembled(stem@, lower@, ext@),
        text::byte_len(r@) <= MAX_COMPONENT,
        text::byte_len(r@) <= 173,
{
    let s = chars_of(stem);
    let e = chars_of(ext);
    let stripped = match stop_position(s.as_slice()) {
        Some(at) => if same(lower, ext) {
            let head = copy_range(s.as_slice(), 0, at);
            assert(head@ =~= stem@.take(at as int));
            let left = trim_chars(head.as_slice(), Class::White);
            if left.len() == 0 {
                chars_of("Untitled")
            } else {
                left
            }
        } else {
            s
        },
        None => s,
    };
    let used: u128 = utf8_len(e.as_slice());
    let budget: usize = MAX_COMPONENT - used as usize - 8;
    let mut out = truncate_bytes(stripped.as_slice(), budget);
    proof {
        let t = truncated(stripped@, budget as nat);
        lemma_truncated(stripped@, budget as nat);
        assert(seq!['.'].drop_last() =~= Seq::<char>::empty());
        assert(text::byte_len(seq!['.']) == 1) by {
            reveal_with_fuel(text::byte_len, 2);
        }
        text::lemma_byte_len_add(t, seq!['.']);
        text::lemma_byte_len_add(t + seq!['.'], ext@);
    }
    out.push('.');
    append_chars(&mut out, e.as_slice());
    assert(out@ =~= assembled(stem@, lower@, ext@));
    text_of(out.as_slice())
}

fn extension_for(source: &str) -> (r: String)
    ensures
        r@ == kept_extension(source@),
{
    match extension_of(source) {
        Some(e) => lowercase(e.as_str()),
        None => own("pdf"),
    }
}

fn has_slash(s: &[char]) -> (r: bool)
    ensures
        r == s@.contains('/'),
{
    let n: usize = run_from(s, 0, Class::IsNot('/'));
    proof {
        if s@.contains('/') {
            let i = choose|i: int| 0 <= i < s@.len() && s@[i] == '/';
            assert(i < n ==> text::in_class(Class::IsNot('/'), s@[i]));
        }
        if n < s@.len() {
            assert(s@[n as int] == '/');
        }
    }
    n < s.len()
}

/// Build a destination file name from a title, preserving the source extension.
pub fn file_name(title: &str, source: &str) -> (r: String)
    requires
        extension_serves(kept_extension(source@)),
    ensures
        r@ == destination_name(title@, source@),
        text::byte_len(r@) <= MAX_COMPONENT,
        text::byte_len(r@) <= 173,
        is_plain_name(r@),
{
    let ext = extension_for(source);
    proof {
        file_names_are_plain(title@, source@);
    }
    let stem = sanitize_component(title);
    let lower = lowercase(ending_of(stem.as_str()).as_str());
    assemble_name(stem.as_str(), lower.as_str(), ext.as_str())
}

/// A destination file name, unless the source's extension cannot be kept: it is
/// too long, or holds a slash.
pub fn try_file_name(title: &str, source: &str) -> (r: Option<String>)
    ensures
        match r {
            Some(name) => extension_serves(kept_extension(source@)) && name@ == destination_name(
                title@,
                source@,
            ) && text::byte_len(name@) <= MAX_COMPONENT && is_plain_name(name@),
            None => !extension_serves(kept_extension(source@)),
        },
{
    let ext = extension_for(source);
    let e = chars_of(ext.as_str());
    if utf8_len(e.as_slice()) <= (MAX_COMPONENT - 8) as u128 && !has_slash(e.as_slice()) {
        Some(file_name(title, source))
    } else {
        None
    }
}

// ---------------------------------------------------------------------------
// Collisions
// ---------------------------------------------------------------------------

/// Whether no taken path is the given one.
pub open spec fn is_free(taken: Seq<Seq<char>>, p: Seq<char>) -> bool {
    forall|i: int| 0 <= i < taken.len() ==> !paths::same_path(#[trigger] taken[i], p)
}

/// The file name of the n-th variant of a path.
pub open spec fn numbered_name(p: Seq<char>, n: nat) -> Seq<char> {
    let stem = match paths::file_stem(p) {
        Some(s) => s,
        None => seq![],
    };
    let base = stem + " ("@ + number::digits(n) + seq![')'];
    match paths::extension(p) {
        Some(e) => base + seq!['.'] + e,
        None => base,
    }
}

/// The n-th variant of a path: ` (n)` after the stem.
pub open spec fn numbered(p: Seq<char>, n: nat) -> Seq<char> {
    let dir = match paths::parent(p) {
        Some(q) => q,
        None => seq![],
    };
    paths::join(dir, numbered_name(p, n))
}

/// Whether a path or one of its variants is free.
pub open spec fn has_room(taken: Seq<Seq<char>>, p: Seq<char>) -> bool {
    is_free(taken, p) || exists|n: int|
        2 <= n < MAX_NUMBER && is_free(taken, #[trigger] numbered(p, n as nat))
}

/// `r` is the path itself if it is free, and otherwise its first free variant.
pub open spec fn is_claimed(taken: Seq<Seq<char>>, p: Seq<char>, r: Seq<char>) -> bool {
    if is_free(taken, p) {
        r == p
    } else {
        exists|n: int|
            2 <= n < MAX_NUMBER && r == #[trigger] numbered(p, n as nat) && is_free(taken, r)
                && forall|m: int|
                2 <= m < n ==> !is_free(taken, #[trigger] numbered(p, m as nat))
    }
}

fn free(taken: &Vec<String>, p: &str) -> (r: bool)
    ensures
        r == is_free(text::texts(taken@), p@),
{
    let mut i: usize = 0;
    while i < taken.len()
        invariant
            i <= taken@.len(),
            forall|j: int| 0 <= j < i ==> !paths::same_path(taken@[j]@, p@),
        decreases taken@.len() - i,
    {
        if paths::paths_equal(taken[i].as_str(), p) {
            assert(paths::same_path(text::texts(taken@)[i as int], p@));
            return false;
        }
        i = i + 1;
    }
    true
}

fn variant(p: &str, n: u64) -> (r: String)
    ensures
        r@ == numbered(p@, n as nat),
{
    let dir = match paths::parent_of(p) {
        Some(q) => q,
        None => String::new(),
    };
    let mut name = match paths::stem_of(p) {
        Some(s) => s,
        None => String::new(),
    };
    name.append(" (");
    name.append(decimal(n).as_str());
    name.push(')');
    if let Some(e) = extension_of(p) {
        name.push('.');
        name.append(e.as_str());
    }
    assert(name@ =~= numbered_name(p@, n as nat));
    join_paths(dir.as_str(), name.as_str())
}

/// Claim a path, appending ` (2)`, ` (3)`… until it is unique within `taken`;
/// `None` when every variant is taken.
pub fn try_unique(taken: &mut Vec<String>, candidate: &str) -> (r: Option<String>)
    ensures
        match r {
            Some(p) => is_claimed(text::texts(old(taken)@), candidate@, p@) && is_free(
                text::texts(old(taken)@),
                p@,
            ) && text::texts(final(taken)@) == text::texts(old(taken)@).push(p@),
            None => !has_room(text::texts(old(taken)@), candidate@) && final(taken)@ == old(taken)@,
        },
        (forall|i: int|
            0 <= i < old(taken)@.len() ==> !paths::same_path((#[trigger] old(taken)@[i])@, candidate@))
            ==> r is Some && r->0@ == candidate@,
        r matches Some(p) ==> forall|i: int|
            0 <= i < old(taken)@.len() ==> !paths::same_path((#[trigger] old(taken)@[i])@, p@),
{
    proof {
        let before = text::texts(taken@);
        assert forall|i: int| 0 <= i < taken@.len() implies before[i] == (
        #[trigger] taken@[i])@ by {}
        if forall|i: int|
            0 <= i < taken@.len() ==> !paths::same_path((#[trigger] taken@[i])@, candidate@) {
            assert forall|i: int| 0 <= i < before.len() implies !paths::same_path(
                #[trigger] before[i],
                candidate@,
            ) by {
                assert(before[i] == taken@[i]@);
            }
            assert(is_free(before, candidate@));
        }
    }
    let ghost start = text::texts(taken@);
    if free(taken, candidate) {
        let out = own(candidate);
        taken.push(own(candidate));
        assert(text::texts(taken@) =~= start.push(candidate@));
        return Some(out);
    }
    let mut n: u64 = 2;
    while n < MAX_NUMBER
        invariant
            2 <= n <= MAX_NUMBER,
            taken@ == old(taken)@,
            start == text::texts(taken@),
            !is_free(start, candidate@),
            forall|m: int|
                2 <= m < n ==> !is_free(start, #[trigger] numbered(candidate@, m as nat)),
        decreases MAX_NUMBER - n,
    {
        let next = variant(candidate, n);
        if free(taken, next.as_str()) {
            let out = next.clone();
            taken.push(next);
            assert(text::texts(taken@) =~= start.push(out@));
            proof {
                let k = n as int;
                assert(numbered(candidate@, k as nat) == out@);
                assert(is_free(start, out@));
                assert(is_claimed(start, candidate@, out@));
                assert forall|i: int| 0 <= i < old(taken)@.len() implies !paths::same_path(
                    (#[trigger] old(taken)@[i])@,
                    out@,
                ) by {
                    assert(start[i] == old(taken)@[i]@);
                }
            }
            return Some(out);
        }
        n = n + 1;
    }
    None
}

/// Claim a path, appending ` (2)`, ` (3)`… until it is unique within `taken`.
pub fn unique(taken: &mut Vec<String>, candidate: &str) -> (r: String)
    requires
        has_room(text::texts(old(taken)@), candidate@),
    ensures
        is_claimed(text::texts(old(taken)@), candidate@, r@),
        is_free(text::texts(old(taken)@), r@),
        text::texts(final(taken)@) == text::texts(old(taken)@).push(r@),
{
    match try_unique(taken, candidate) {
        Some(p) => p,
        None => String::new(),
    }
}

// ---------------------------------------------------------------------------
// Staying inside
// ---------------------------------------------------------------------------

/// Whether a text names an entry of a directory.
pub open spec fn is_plain_name(s: Seq<char>) -> bool {
    &&& s.len() > 0
    &&& !s.contains('/')
    &&& s != seq!['.']
    &&& s != seq!['.', '.']
}

/// Where a list of plain names leads, and what its last step is.
proof fn lemma_plain_path(parts: Seq<Seq<char>>)
    requires
        parts.len() > 0,
        forall|i: int| 0 <= i < parts.len() ==> is_plain_name(#[trigger] parts[i]),
    ensures
        text::joined(parts, seq!['/']).len() > 0,
        text::joined(parts, seq!['/'])[0] != '/',
        text::joined(parts, seq!['/']).last() != '/',
        paths::bare(text::joined(parts, seq!['/'])) == text::joined(parts, seq!['/']),
        paths::last_segment(text::joined(parts, seq!['/'])) == parts.last(),
        parts.len() > 1 ==> paths::has_slash(text::joined(parts, seq!['/']))
            && paths::last_slash(text::joined(parts, seq!['/'])) == text::joined(
            parts.drop_last(),
            seq!['/'],
        ).len(),
    decreases parts.len(),
{
    let p = text::joined(parts, seq!['/']);
    let name = parts.last();
    assert(is_plain_name(name));
    assert forall|i: int| 0 <= i < name.len() implies text::in_class(
        Class::IsNot('/'),
        #[trigger] name[i],
    ) by {
        assert(name.contains(name[i]));
    }
    if parts.len() == 1 {
        text::lemma_trailing(p, Class::IsNot('/'), p.len());
        assert(paths::last_segment(p) =~= p);
    } else {
        let front = text::joined(parts.drop_last(), seq!['/']);
        assert forall|i: int| 0 <= i < parts.drop_last().len() implies is_plain_name(
            #[trigger] parts.drop_last()[i],
        ) by {
            assert(parts.drop_last()[i] == parts[i]);
        }
        lemma_plain_path(parts.drop_last());
        assert(p == front + seq!['/'] + name);
        assert forall|i: int| p.len() - name.len() <= i < p.len() implies text::in_class(
            Class::IsNot('/'),
            #[trigger] p[i],
        ) by {
            assert(p[i] == name[i - (p.len() - name.len())]);
        }
        assert(p[p.len() - name.len() - 1] == '/');
        text::lemma_trailing(p, Class::IsNot('/'), name.len());
        assert(paths::last_segment(p) =~= name);
        assert(p[0] == front[0]);
    }
}

/// A name stays a plain one when a number is put after its stem.
proof fn lemma_numbered_name(p: Seq<char>, name: Seq<char>, n: nat)
    requires
        paths::file_name(p) == Some(name),
        is_plain_name(name),
    ensures
        is_plain_name(numbered_name(p, n)),
{
    let r = numbered_name(p, n);
    let stem = paths::stem_of_name(name);
    reveal_strlit(" (");
    number::lemma_digits_nonempty(n);
    text::lemma_trailing_facts(name, Class::IsNot('.'));
    assert(r[stem.len() as int] == ' ');
    assert forall|i: int| 0 <= i < r.len() implies #[trigger] r[i] != '/' by {
        let k = stem.len() as int;
        let d = number::digits(n);
        if i < k {
            assert(name.contains(name[i]));
        } else if k + 2 <= i < k + 2 + d.len() {
            assert(r[i] == d[i - k - 2]);
        } else if i > k + 3 + d.len() {
            assert(paths::extension_of_name(name) is Some);
            let e = paths::extension_of_name(name)->0;
            assert(r[i] == e[i - k - 4 - d.len()]);
            assert(name.contains(name[k + 1 + (i - k - 4 - d.len())]));
        }
    }
    if r == seq!['.'] || r == seq!['.', '.'] {
        assert(r[stem.len() as int] == '.');
    }
}

/// Whether a path lies in the folder that a text asks for: read step by step it
/// is the folder's safe components and one plain name. So it is not absolute and
/// no step of it goes upwards.
pub open spec fn lies_in(p: Seq<char>, raw: Seq<char>) -> bool {
    &&& !paths::is_absolute(p)
    &&& exists|last: Seq<char>| #[trigger]
        is_plain_name(last) && text::split(p, '/') == folder_components(raw).push(last)
}

/// A destination lies in the very folder that was asked for, whatever the folder
/// was made from and however many documents wanted the place: nothing is ever
/// written outside the library.
#[verifier::spinoff_prover]
#[verifier::rlimit(60)]
pub proof fn destinations_stay_inside_the_library(
    taken: Seq<Seq<char>>,
    raw: Seq<char>,
    name: Seq<char>,
    dest: Seq<char>,
)
    requires
        is_plain_name(name),
        is_claimed(taken, paths::join(folder(raw), name), dest),
    ensures
        lies_in(dest, raw),
{
    let parts = folder_components(raw);
    let wanted = paths::join(folder(raw), name);
    folders_stay_inside_the_library(raw);
    assert forall|i: int| 0 <= i < parts.len() implies is_plain_name(#[trigger] parts[i]) by {
        safe_components_are_names(parts[i]);
    }
    lemma_plain_path(parts);
    assert(!paths::is_absolute(name)) by {
        assert(name.contains(name[0]));
    }
    lemma_below(parts, name);
    let full = parts.push(name);
    lemma_plain_path(full);
    assert(full.drop_last() =~= parts);
    assert(paths::file_name(wanted) == Some(name));
    assert(wanted.take(paths::last_slash(wanted)) =~= folder(raw));
    assert(paths::parent(wanted) == Some(folder(raw)));
    if !is_free(taken, wanted) {
        let n = choose|n: int|
            2 <= n < MAX_NUMBER && dest == #[trigger] numbered(wanted, n as nat) && is_free(
                taken,
                dest,
            ) && forall|m: int|
                2 <= m < n ==> !is_free(taken, #[trigger] numbered(wanted, m as nat));
        let last = numbered_name(wanted, n as nat);
        lemma_numbered_name(wanted, name, n as nat);
        assert(!paths::is_absolute(last)) by {
            assert(last.contains(last[0]));
        }
        lemma_below(parts, last);
    }
}

/// A plain name below a folder, read step by step.
proof fn lemma_below(parts: Seq<Seq<char>>, name: Seq<char>)
    requires
        parts.len() > 0,
        forall|i: int| 0 <= i < parts.len() ==> is_plain_name(#[trigger] parts[i]),
        is_plain_name(name),
    ensures
        paths::join(text::joined(parts, seq!['/']), name) == text::joined(
            parts.push(name),
            seq!['/'],
        ),
        text::split(text::joined(parts.push(name), seq!['/']), '/') == parts.push(name),
        !paths::is_absolute(text::joined(parts.push(name), seq!['/'])),
        forall|i: int| 0 <= i < parts.len() + 1 ==> is_plain_name(#[trigger] parts.push(name)[i]),
{
    let full = parts.push(name);
    lemma_plain_path(parts);
    assert(name.contains(name[0]));
    assert forall|i: int| 0 <= i < full.len() implies is_plain_name(#[trigger] full[i]) by {
        if i < parts.len() {
            assert(full[i] == parts[i]);
        }
    }
    lemma_plain_path(full);
    assert(full.drop_last() =~= parts);
    text::lemma_split_joined(full, '/');
    assert(paths::join(text::joined(parts, seq!['/']), name) =~= text::joined(full, seq!['/']));
}

proof fn lemma_last_stop(s: Seq<char>)
    ensures
        match last_stop(s) {
            Some(at) => 0 <= at < s.len(),
            None => true,
        },
    decreases s.len(),
{
    if s.len() > 0 && s.last() != '.' {
        lemma_last_stop(s.drop_last());
    }
}

/// What is left of a safe component once its extension is off and it is cut to
/// a budget is made of its characters, and begins as it does.
proof fn lemma_stem(stem: Seq<char>, lower: Seq<char>, ext: Seq<char>, budget: nat)
    requires
        is_safe_component(stem),
    ensures
        !truncated(without_extension(stem, lower, ext), budget).contains('/'),
        budget > 3 ==> truncated(without_extension(stem, lower, ext), budget).len() > 0
            && truncated(without_extension(stem, lower, ext), budget)[0] != '.',
{
    let left = without_extension(stem, lower, ext);
    let cut = last_stop(stem) is Some && lower == ext;
    let head = if cut {
        stem.take(last_stop(stem)->0)
    } else {
        stem
    };
    lemma_last_stop(stem);
    text::lemma_trimmed_facts(head, Class::White);
    text::lemma_leading_facts(head, Class::White);
    reveal_strlit("Untitled");
    if cut && text::trim(head).len() > 0 {
        assert(head[0] == stem[0]);
        assert(text::leading(head, Class::White) == 0);
        assert(left =~= head.take(left.len() as int));
    }
    assert(left.len() > 0 && left[0] != '.' && !text::is_white(left[0]));
    assert forall|i: int| 0 <= i < left.len() implies #[trigger] left[i] != '/' by {
        if !cut || text::trim(head).len() > 0 {
            assert(left[i] == stem[i]);
            assert(!is_forbidden(stem[i]));
        }
    }
    lemma_truncated(left, budget);
    let t = truncated(left, budget);
    assert forall|i: int| 0 <= i < t.len() implies #[trigger] t[i] != '/' by {
        assert(t[i] == left[i]);
    }
}

/// A destination file name is a plain name, whatever title it was made from.
pub proof fn file_names_are_plain(title: Seq<char>, source: Seq<char>)
    requires
        extension_serves(kept_extension(source)),
    ensures
        is_plain_name(destination_name(title, source)),
{
    let ext = kept_extension(source);
    let stem = component(title);
    let name = destination_name(title, source);
    components_are_safe(title);
    let lower = text::lowered(ending(stem));
    lemma_stem(stem, lower, ext, stem_budget(ext));
    let t = truncated(without_extension(stem, lower, ext), stem_budget(ext));
    if name.contains('/') {
        let i = choose|i: int| 0 <= i < name.len() && name[i] == '/';
        if i < t.len() {
            assert(t.contains(t[i]));
        } else if i > t.len() {
            assert(ext.contains(ext[i - t.len() - 1]));
        }
    }
    if name == seq!['.'] || name == seq!['.', '.'] {
        assert(name == t + seq!['.'] + ext);
        assert(name.len() == t.len() + 1 + ext.len());
        assert(name.len() <= 2) by {
            assert(seq!['.', '.'].len() == 2 && seq!['.'].len() == 1);
        }
        assert(text::byte_len(ext) <= 4) by {
            reveal_with_fuel(text::byte_len, 2);
        }
        assert(t.len() > 0 && name[0] == t[0]);
    }
}

/// Whether a name needs no mending: it is short enough, holds no separator and no
/// control character, has no full stop and no white space at either end and single
/// blanks in between, and no system reserves it.
pub open spec fn is_sound(name: Seq<char>) -> bool {
    &&& name.len() > 0
    &&& text::byte_len(name) <= 180
    &&& forall|i: int|
        0 <= i < name.len() ==> !is_forbidden(#[trigger] name[i]) && !text::is_control(name[i])
    &&& name[0] != '.' && !text::is_white(name[0])
    &&& name.last() != '.' && !text::is_white(name.last())
    &&& text::collapsed(name) == name
    &&& !is_reserved(text::uppered(name))
}

/// A name that needs no mending is kept as it is.
pub proof fn sound_names_are_kept(name: Seq<char>)
    requires
        is_sound(name),
    ensures
        component(name) == name,
{
    assert(cleaned(name) =~= name);
    lemma_nothing_to_trim(name, Class::Edge);
    assert(truncated(name, MAX_COMPONENT as nat) == name);
    assert(plain_component(name) == name);
}

proof fn lemma_nothing_to_trim(s: Seq<char>, k: Class)
    requires
        s.len() > 0,
        !text::in_class(k, s[0]),
        !text::in_class(k, s.last()),
    ensures
        text::trimmed(s, k) == s,
        trim_end(s, k) == s,
{
    assert(text::leading(s, k) == 0 && text::trailing(s, k) == 0);
    assert(s.skip(0) =~= s);
    assert(s.take(s.len() as int) =~= s);
}

proof fn lemma_sound_parts(parts: Seq<Seq<char>>)
    requires
        forall|i: int| 0 <= i < parts.len() ==> is_sound(#[trigger] parts[i]),
    ensures
        folder_parts(parts) == parts,
    decreases parts.len(),
{
    if parts.len() > 0 {
        let last = parts.last();
        assert(is_sound(parts[parts.len() - 1]));
        lemma_sound_parts(parts.drop_last());
        lemma_nothing_to_trim(last, Class::White);
        sound_names_are_kept(last);
        reveal_strlit(".");
        reveal_strlit("..");
        assert("."@[0] == '.' && ".."@[0] == '.');
        assert(parts.drop_last().push(last) =~= parts);
    } else {
        assert(folder_parts(parts) =~= parts);
    }
}

/// A folder whose every part needs no mending is kept as it is.
pub proof fn sound_folders_are_kept(parts: Seq<Seq<char>>)
    requires
        parts.len() > 0,
        forall|i: int| 0 <= i < parts.len() ==> is_sound(#[trigger] parts[i]),
    ensures
        folder(text::joined(parts, seq!['/'])) == text::joined(parts, seq!['/']),
{
    assert forall|i: int| 0 <= i < parts.len() implies !(#[trigger] parts[i]).contains('/') by {
        assert(is_sound(parts[i]));
        if parts[i].contains('/') {
            let k = choose|k: int| 0 <= k < parts[i].len() && parts[i][k] == '/';
            assert(is_forbidden(parts[i][k]));
        }
    }
    text::lemma_split_joined(parts, '/');
    lemma_sound_parts(parts);
}

/// A document keeps its extension, in lower case, and its title if that is sound
/// and short enough: with no stop in it as it is, and with the extension at its end
/// without naming that twice.
pub proof fn titles_become_names(title: Seq<char>, source: Seq<char>, ext: Seq<char>)
    requires
        is_sound(title),
        ext == (match paths::extension(source) {
            Some(e) => text::lowered(e),
            None => "pdf"@,
        }),
        text::byte_len(title) + text::byte_len(ext) + 8 <= 180,
    ensures
        !title.contains('.') ==> destination_name(title, source) == title + seq!['.'] + ext,
        forall|left: Seq<char>, end: Seq<char>|
            title == #[trigger] (left + seq!['.'] + end) && left.len() > 0 && !end.contains('.')
                && text::lowered(end) == ext && !text::is_white(left.last())
                ==> destination_name(title, source) == left + seq!['.'] + ext,
{
    sound_names_are_kept(title);
    if !title.contains('.') {
        lemma_no_stop(title);
    }
    assert forall|left: Seq<char>, end: Seq<char>|
        title == #[trigger] (left + seq!['.'] + end) && left.len() > 0 && !end.contains('.')
            && text::lowered(end) == ext && !text::is_white(left.last()) implies destination_name(
        title,
        source,
    ) == left + seq!['.'] + ext by {
        lemma_stop_before(left, end);
        let at = left.len() as int;
        assert(title.take(at) =~= left);
        assert(title.skip(at + 1) =~= end);
        assert(left[0] == title[0]);
        lemma_nothing_to_trim(left, Class::White);
        text::lemma_byte_len_take(title, at);
    }
}

proof fn lemma_no_stop(s: Seq<char>)
    requires
        !s.contains('.'),
    ensures
        last_stop(s) is None,
    decreases s.len(),
{
    if s.len() > 0 {
        assert(s.contains(s.last()));
        let part = s.drop_last();
        if part.contains('.') {
            let k = choose|k: int| 0 <= k < part.len() && part[k] == '.';
            assert(s[k] == '.');
        }
        lemma_no_stop(part);
    }
}

proof fn lemma_stop_before(left: Seq<char>, end: Seq<char>)
    requires
        !end.contains('.'),
    ensures
        last_stop(left + seq!['.'] + end) == Some(left.len() as int),
    decreases end.len(),
{
    let s = left + seq!['.'] + end;
    if end.len() == 0 {
        assert(s.last() == '.');
    } else {
        assert(end.contains(end.last()));
        let part = end.drop_last();
        if part.contains('.') {
            let k = choose|k: int| 0 <= k < part.len() && part[k] == '.';
            assert(end[k] == '.');
        }
        lemma_stop_before(left, part);
        assert(s.drop_last() =~= left + seq!['.'] + part);
        assert(s.last() == end.last());
    }
}

} // verus!
