//! Building a chapter index — a PDF bookmark tree — for documents that have none.
//!
//! The expensive way to find chapters is to read every page. This does not do
//! that. Headings are set in larger type than body text, and `pdftohtml -xml`
//! reports the size of every text run, so a heading is recognisable without
//! understanding a word of it.
//!
//! Type size also gives the hierarchy for free. In a typical rulebook the parts
//! are set at 45pt, chapters at 36, sections at 30 and subsections at 23; those
//! four sizes become four levels of the tree without anyone naming them.
//!
//! Sizes, positions and ratios are numbers of single precision, held as their bit
//! patterns.

use lopdf::{Dictionary, Document, Object};
use crate::float;
use crate::float::{multiply, no_number, rank_of, reaches};
use crate::metadata;
use crate::metadata::ceiling_of;
use crate::number;
use crate::number::{decimal, decimal_usize, parse_count, parse_measure};
use crate::order;
use crate::order::sort_by_keys;
use crate::pdf;
use crate::pdf::{Item, array, as_dict, as_reference, catalog, dictionary, get_entry, get_object, get_pages, has_entry, insert_object, integer, is_encrypted, max_id, name, new_dictionary, new_object_id, null, reference, root_id, set_entry, set_in_object, string_literal};
use crate::table::TextMap;
use crate::text;
use crate::text::{alphabetic, append_chars, chars_of, collapse, copy_range, own, position, same, stands_at, text_of, trim_text, word_list};
use vstd::prelude::*;
use vstd::slice::slice_subrange;
use vstd::string::StringExecFns;

verus! {

/// One line of text that might be a heading.
#[derive(Debug)]
pub struct Candidate {
    /// 1-based page number, as the PDF counts them.
    pub page: usize,
    /// Type size in points; larger means higher in the hierarchy.
    pub size: u32,
    /// Distance from the top of the page, used to recover reading order.
    pub top: u32,
    pub text: String,
}

pub struct CandidateView {
    pub page: usize,
    pub size: u32,
    pub top: u32,
    pub text: Seq<char>,
}

impl View for Candidate {
    type V = CandidateView;

    open spec fn view(&self) -> CandidateView {
        CandidateView { page: self.page, size: self.size, top: self.top, text: self.text@ }
    }
}

impl Clone for Candidate {
    fn clone(&self) -> (r: Self)
        ensures
            r@ == self@,
    {
        Candidate { page: self.page, size: self.size, top: self.top, text: self.text.clone() }
    }
}

pub open spec fn candidate_views(v: Seq<Candidate>) -> Seq<CandidateView> {
    Seq::new(v.len(), |i: int| v[i]@)
}

/// A finished bookmark, ready to be written into the document.
#[derive(Debug)]
pub struct Entry {
    /// Nesting depth, 0 being top level.
    pub level: usize,
    pub title: String,
    pub page: usize,
}

pub struct EntryView {
    pub level: usize,
    pub title: Seq<char>,
    pub page: usize,
}

impl View for Entry {
    type V = EntryView;

    open spec fn view(&self) -> EntryView {
        EntryView { level: self.level, title: self.title@, page: self.page }
    }
}

impl Clone for Entry {
    fn clone(&self) -> (r: Self)
        ensures
            r@ == self@,
    {
        Entry { level: self.level, title: self.title.clone(), page: self.page }
    }
}

pub open spec fn entry_views(v: Seq<Entry>) -> Seq<EntryView> {
    Seq::new(v.len(), |i: int| v[i]@)
}

// ---------------------------------------------------------------------------
// Reading the layout
// ---------------------------------------------------------------------------

/// What `name="value"` gives in a tag body.
pub open spec fn attribute_of(chunk: Seq<char>, name: Seq<char>) -> Option<Seq<char>> {
    let key = name + "=\""@;
    match text::found(chunk, key, 0) {
        Some(at) => match text::found(chunk, "\""@, at + key.len()) {
            Some(end) => Some(chunk.subrange(at + key.len(), end)),
            None => None,
        },
        None => None,
    }
}

/// Read `name="value"` out of a tag body.
fn attribute(chunk: &[char], name: &str) -> (r: Option<Vec<char>>)
    ensures
        match r {
            Some(v) => attribute_of(chunk@, name@) == Some(v@),
            None => attribute_of(chunk@, name@) is None,
        },
{
    let mut key = chars_of(name);
    let tail = chars_of("=\"");
    append_chars(&mut key, tail.as_slice());
    let quote = chars_of("\"");
    let total: usize = chunk.len();
    let at: usize = match position(chunk, key.as_slice(), 0) {
        Some(at) => at,
        None => {
            return None;
        },
    };
    assert(at + key@.len() <= total);
    let start: usize = at + key.len();
    match position(chunk, quote.as_slice(), start) {
        Some(end) => Some(copy_range(chunk, start, end)),
        None => None,
    }
}

pub const FONT_TAG: &'static str = "<fontspec ";

pub const PAGE_TAG: &'static str = "<page ";

pub const TEXT_TAG: &'static str = "<text ";

pub const TEXT_END: &'static str = "</text>";

/// The sizes known after one more font description.
pub open spec fn with_font(
    sizes: Map<Seq<char>, u32>,
    chunk: Seq<char>,
) -> Map<Seq<char>, u32> {
    match (attribute_of(chunk, "id"@), attribute_of(chunk, "size"@)) {
        (Some(id), Some(size)) => match number::read_measure(size) {
            Some(v) => sizes.insert(id, v),
            None => sizes,
        },
        _ => sizes,
    }
}

/// Where the chunk that starts at `start` ends: at the next font description.
pub open spec fn font_end(s: Seq<char>, start: int) -> int {
    match text::found(s, FONT_TAG@, start) {
        Some(next) => next,
        None => s.len() as int,
    }
}

/// The sizes that the font descriptions from `i` on add to those known.
pub open spec fn fonts_from(
    s: Seq<char>,
    i: int,
    sizes: Map<Seq<char>, u32>,
) -> Map<Seq<char>, u32>
    decreases s.len() + 20 - i,
{
    proof {
        text::lemma_found_facts(s, FONT_TAG@, i);
    }
    match text::found(s, FONT_TAG@, i) {
        Some(at) => fonts_from(
            s,
            at + 10,
            with_font(sizes, s.subrange(at + 10, font_end(s, at + 10))),
        ),
        None => sizes,
    }
}

fn font_sizes(s: &[char]) -> (r: TextMap<u32>)
    ensures
        r@ == fonts_from(s@, 0, Map::empty()),
{
    let tag = chars_of(FONT_TAG);
    proof {
        reveal_strlit("<fontspec ");
    }
    let total: usize = s.len();
    let mut sizes: TextMap<u32> = TextMap::new();
    let mut i: usize = 0;
    loop
        invariant
            total == s@.len(),
            tag@ == FONT_TAG@,
            tag@.len() == 10,
            i <= s@.len(),
            fonts_from(s@, 0, Map::empty()) == fonts_from(s@, i as int, sizes@),
        decreases s@.len() - i,
    {
        let at: usize = match position(s, tag.as_slice(), i) {
            Some(at) => at,
            None => {
                return sizes;
            },
        };
        let start: usize = at + 10;
        let end: usize = match position(s, tag.as_slice(), start) {
            Some(next) => next,
            None => s.len(),
        };
        let chunk = slice_subrange(s, start, end);
        if let Some(id) = attribute(chunk, "id") {
            if let Some(size) = attribute(chunk, "size") {
                if let Some(v) = parse_measure(size.as_slice()) {
                    sizes.insert(text_of(id.as_slice()), v);
                }
            }
        }
        i = start;
    }
}

/// How many tags are open after the first `n` characters.
pub open spec fn tag_depth(s: Seq<char>, n: int) -> nat
    decreases n,
{
    if n <= 0 {
        0
    } else {
        let before = tag_depth(s, n - 1);
        if s[n - 1] == '<' {
            before + 1
        } else if s[n - 1] == '>' && before > 0 {
            (before - 1) as nat
        } else {
            before
        }
    }
}

/// The characters among the first `n` that stand outside every tag.
pub open spec fn outside_tags(s: Seq<char>, n: int) -> Seq<char>
    decreases n,
{
    if n <= 0 {
        seq![]
    } else {
        let before = outside_tags(s, n - 1);
        if s[n - 1] != '<' && s[n - 1] != '>' && tag_depth(s, n - 1) == 0 {
            before.push(s[n - 1])
        } else {
            before
        }
    }
}

/// The entities that `pdftohtml` writes: the character that one at `i` stands for,
/// and how long it is.
pub open spec fn entity_at(s: Seq<char>, i: int) -> Option<(char, int)> {
    if text::occurs_at(s, "&amp;"@, i) {
        Some(('&', 5))
    } else if text::occurs_at(s, "&lt;"@, i) {
        Some(('<', 4))
    } else if text::occurs_at(s, "&gt;"@, i) {
        Some(('>', 4))
    } else if text::occurs_at(s, "&quot;"@, i) {
        Some(('"', 6))
    } else if text::occurs_at(s, "&apos;"@, i) {
        Some(('\'', 6))
    } else if text::occurs_at(s, "&#160;"@, i) {
        Some((' ', 6))
    } else {
        None
    }
}

/// A text from `i` on with its entities decoded, each once.
pub open spec fn decoded(s: Seq<char>, i: int) -> Seq<char>
    decreases s.len() + 8 - i,
{
    if i >= s.len() {
        seq![]
    } else {
        match entity_at(s, i) {
            Some((c, n)) => seq![c] + decoded(s, i + n),
            None => seq![s[i]] + decoded(s, i + 1),
        }
    }
}

/// The text of an element: nested tags dropped, entities decoded, white space
/// collapsed.
pub open spec fn plain_text(body: Seq<char>) -> Seq<char> {
    text::collapsed(decoded(outside_tags(body, body.len() as int), 0))
}

fn begins(s: &Vec<char>, i: usize, what: &str) -> (r: bool)
    ensures
        r == text::occurs_at(s@, what@, i as int),
{
    stands_at(s.as_slice(), chars_of(what).as_slice(), i)
}

fn entity_of(s: &Vec<char>, i: usize) -> (r: Option<(char, usize)>)
    requires
        i < s@.len(),
    ensures
        match r {
            Some((c, n)) => entity_at(s@, i as int) == Some((c, n as int)) && 0 < n && i + n
                <= s@.len(),
            None => entity_at(s@, i as int) is None,
        },
{
    proof {
        reveal_strlit("&amp;");
        reveal_strlit("&lt;");
        reveal_strlit("&gt;");
        reveal_strlit("&quot;");
        reveal_strlit("&apos;");
        reveal_strlit("&#160;");
    }
    if begins(s, i, "&amp;") {
        Some(('&', 5))
    } else if begins(s, i, "&lt;") {
        Some(('<', 4))
    } else if begins(s, i, "&gt;") {
        Some(('>', 4))
    } else if begins(s, i, "&quot;") {
        Some(('"', 6))
    } else if begins(s, i, "&apos;") {
        Some(('\'', 6))
    } else if begins(s, i, "&#160;") {
        Some((' ', 6))
    } else {
        None
    }
}

/// Decode entities in one pass, so that each is decoded once.
fn decode(s: &Vec<char>) -> (r: Vec<char>)
    ensures
        r@ == decoded(s@, 0),
{
    let mut out: Vec<char> = Vec::new();
    let mut i: usize = 0;
    assert(out@ + decoded(s@, 0) =~= decoded(s@, 0));
    while i < s.len()
        invariant
            i <= s@.len(),
            out@ + decoded(s@, i as int) == decoded(s@, 0),
        decreases s@.len() - i,
    {
        let ghost before = out@;
        let ghost here = i as int;
        match entity_of(s, i) {
            Some((c, n)) => {
                out.push(c);
                i = i + n;
            },
            None => {
                out.push(s[i]);
                i = i + 1;
            },
        }
        assert(out@ + decoded(s@, i as int) =~= before + decoded(s@, here));
    }
    assert(out@ + decoded(s@, i as int) =~= out@);
    out
}

/// Drop nested tags (`<b>`, `<i>`) and decode the few entities pdftohtml emits.
fn strip_markup(body: &[char]) -> (r: Vec<char>)
    ensures
        r@ == plain_text(body@),
{
    let mut out: Vec<char> = Vec::new();
    let mut depth: usize = 0;
    let mut i: usize = 0;
    while i < body.len()
        invariant
            i <= body@.len(),
            depth <= i,
            depth == tag_depth(body@, i as int),
            out@ == outside_tags(body@, i as int),
        decreases body@.len() - i,
    {
        let c = body[i];
        if c == '<' {
            depth = depth + 1;
        } else if c == '>' {
            if depth > 0 {
                depth = depth - 1;
            }
        } else if depth == 0 {
            out.push(c);
        }
        i = i + 1;
    }
    collapse(decode(&out).as_slice())
}

/// Whether a text holds no angle bracket.
pub open spec fn has_no_tags(s: Seq<char>) -> bool {
    forall|i: int| 0 <= i < s.len() ==> #[trigger] s[i] != '<' && s[i] != '>'
}

proof fn lemma_outside_prefix(s: Seq<char>, t: Seq<char>, n: int)
    requires
        0 <= n <= s.len(),
        n <= t.len(),
        forall|i: int| 0 <= i < n ==> #[trigger] s[i] == t[i],
    ensures
        outside_tags(s, n) == outside_tags(t, n),
        tag_depth(s, n) == tag_depth(t, n),
    decreases n,
{
    if n > 0 {
        lemma_outside_prefix(s, t, n - 1);
        assert(s[n - 1] == t[n - 1]);
    }
}

proof fn lemma_outside_plain(s: Seq<char>, n: int)
    requires
        0 <= n <= s.len(),
        forall|i: int| 0 <= i < n ==> #[trigger] s[i] != '<' && s[i] != '>',
    ensures
        outside_tags(s, n) == s.take(n),
        tag_depth(s, n) == 0,
    decreases n,
{
    if n > 0 {
        lemma_outside_plain(s, n - 1);
        assert(s[n - 1] != '<' && s[n - 1] != '>');
        assert(s.take(n) =~= s.take(n - 1).push(s[n - 1]));
    } else {
        assert(s.take(0) =~= seq![]);
    }
}

proof fn lemma_inside_tag(s: Seq<char>, from: int, n: int)
    requires
        0 <= from <= n <= s.len(),
        tag_depth(s, from) == 1,
        forall|i: int| from <= i < n ==> #[trigger] s[i] != '<' && s[i] != '>',
    ensures
        outside_tags(s, n) == outside_tags(s, from),
        tag_depth(s, n) == 1,
    decreases n - from,
{
    if n > from {
        lemma_inside_tag(s, from, n - 1);
        assert(s[n - 1] != '<' && s[n - 1] != '>');
    }
}

proof fn lemma_outside_after(s: Seq<char>, from: int, n: int)
    requires
        0 <= from <= n <= s.len(),
        tag_depth(s, from) == 0,
        forall|i: int| from <= i < n ==> #[trigger] s[i] != '<' && s[i] != '>',
    ensures
        outside_tags(s, n) == outside_tags(s, from) + s.subrange(from, n),
        tag_depth(s, n) == 0,
    decreases n - from,
{
    if n > from {
        lemma_outside_after(s, from, n - 1);
        assert(s[n - 1] != '<' && s[n - 1] != '>');
        assert(s.subrange(from, n) =~= s.subrange(from, n - 1).push(s[n - 1]));
        assert(outside_tags(s, from) + s.subrange(from, n) =~= (outside_tags(s, from)
            + s.subrange(from, n - 1)).push(s[n - 1]));
    } else {
        assert(s.subrange(from, n) =~= seq![]);
        assert(outside_tags(s, from) + s.subrange(from, n) =~= outside_tags(s, from));
    }
}

/// Markup inside a heading is dropped, and what stands on its two sides is one text.
pub proof fn markup_is_dropped(a: Seq<char>, tag: Seq<char>, b: Seq<char>)
    requires
        has_no_tags(a),
        has_no_tags(tag),
        has_no_tags(b),
    ensures
        plain_text(a + seq!['<'] + tag + seq!['>'] + b) == plain_text(a + b),
{
    let s = a + seq!['<'] + tag + seq!['>'] + b;
    let t = a + b;
    let p = a.len() as int;
    let q = p + 1 + tag.len();
    let n = s.len() as int;
    assert forall|i: int| 0 <= i < p implies #[trigger] s[i] != '<' && s[i] != '>' by {
        assert(s[i] == a[i]);
    }
    lemma_outside_plain(s, p);
    assert(s[p] == '<');
    assert(tag_depth(s, p + 1) == 1);
    assert forall|i: int| p + 1 <= i < q implies #[trigger] s[i] != '<' && s[i] != '>' by {
        assert(s[i] == tag[i - p - 1]);
    }
    lemma_inside_tag(s, p + 1, q);
    assert(s[q] == '>');
    assert(tag_depth(s, q + 1) == 0);
    assert forall|i: int| q + 1 <= i < n implies #[trigger] s[i] != '<' && s[i] != '>' by {
        assert(s[i] == b[i - q - 1]);
    }
    lemma_outside_after(s, q + 1, n);
    assert forall|i: int| 0 <= i < t.len() implies #[trigger] t[i] != '<' && t[i] != '>' by {
        if i < p {
            assert(t[i] == a[i]);
        } else {
            assert(t[i] == b[i - p]);
        }
    }
    lemma_outside_plain(t, t.len() as int);
    assert(s.take(p) =~= a);
    assert(s.subrange(q + 1, n) =~= b);
    assert(t.take(t.len() as int) =~= t);
    assert(outside_tags(s, n) =~= t);
}

/// What stands for a character in a layout.
pub open spec fn entity_text(c: char) -> Seq<char> {
    if c == '&' {
        "&amp;"@
    } else if c == '<' {
        "&lt;"@
    } else if c == '>' {
        "&gt;"@
    } else if c == '"' {
        "&quot;"@
    } else if c == '\'' {
        "&apos;"@
    } else {
        seq![c]
    }
}

/// A text as a layout writes it.
pub open spec fn entity_texts(s: Seq<char>) -> Seq<char>
    decreases s.len(),
{
    if s.len() == 0 {
        seq![]
    } else {
        entity_text(s[0]) + entity_texts(s.drop_first())
    }
}

proof fn lemma_entities()
    ensures
        "&amp;"@ == seq!['&', 'a', 'm', 'p', ';'],
        "&lt;"@ == seq!['&', 'l', 't', ';'],
        "&gt;"@ == seq!['&', 'g', 't', ';'],
        "&quot;"@ == seq!['&', 'q', 'u', 'o', 't', ';'],
        "&apos;"@ == seq!['&', 'a', 'p', 'o', 's', ';'],
        "&#160;"@ == seq!['&', '#', '1', '6', '0', ';'],
{
    reveal_strlit("&amp;");
    reveal_strlit("&lt;");
    reveal_strlit("&gt;");
    reveal_strlit("&quot;");
    reveal_strlit("&apos;");
    reveal_strlit("&#160;");
    assert("&amp;"@ =~= seq!['&', 'a', 'm', 'p', ';']);
    assert("&lt;"@ =~= seq!['&', 'l', 't', ';']);
    assert("&gt;"@ =~= seq!['&', 'g', 't', ';']);
    assert("&quot;"@ =~= seq!['&', 'q', 'u', 'o', 't', ';']);
    assert("&apos;"@ =~= seq!['&', 'a', 'p', 'o', 's', ';']);
    assert("&#160;"@ =~= seq!['&', '#', '1', '6', '0', ';']);
}

/// Whether a text stands at a place, by what stands there in another.
proof fn lemma_not_there(s: Seq<char>, what: Seq<char>, i: int, k: int)
    requires
        0 <= k < what.len(),
        0 <= i,
        i + k < s.len() ==> s[i + k] != what[k],
    ensures
        !text::occurs_at(s, what, i),
{
    if text::occurs_at(s, what, i) {
        assert(s.subrange(i, i + what.len())[k] == s[i + k]);
    }
}

/// What is written at a place is what is read there.
proof fn lemma_entity_read(s: Seq<char>, i: int, c: char)
    requires
        0 <= i,
        i + entity_text(c).len() <= s.len(),
        s.subrange(i, i + entity_text(c).len()) == entity_text(c),
    ensures
        decoded(s, i) == seq![c] + decoded(s, i + entity_text(c).len()),
{
    lemma_entities();
    let e = entity_text(c);
    let n = e.len() as int;
    assert forall|k: int| 0 <= k < n implies s[i + k] == #[trigger] e[k] by {
        assert(s.subrange(i, i + n)[k] == s[i + k]);
    }
    assert(s[i] == e[0]);
    if c == '&' {
        assert(text::occurs_at(s, "&amp;"@, i));
    } else if c == '<' {
        assert(s[i + 1] == e[1]);
        lemma_not_there(s, "&amp;"@, i, 1);
        assert(text::occurs_at(s, "&lt;"@, i));
    } else if c == '>' {
        assert(s[i + 1] == e[1]);
        lemma_not_there(s, "&amp;"@, i, 1);
        lemma_not_there(s, "&lt;"@, i, 1);
        assert(text::occurs_at(s, "&gt;"@, i));
    } else if c == '"' {
        assert(s[i + 1] == e[1]);
        lemma_not_there(s, "&amp;"@, i, 1);
        lemma_not_there(s, "&lt;"@, i, 1);
        lemma_not_there(s, "&gt;"@, i, 1);
        assert(text::occurs_at(s, "&quot;"@, i));
    } else if c == '\'' {
        assert(s[i + 1] == e[1]);
        assert(s[i + 2] == e[2]);
        lemma_not_there(s, "&amp;"@, i, 2);
        lemma_not_there(s, "&lt;"@, i, 1);
        lemma_not_there(s, "&gt;"@, i, 1);
        lemma_not_there(s, "&quot;"@, i, 1);
        assert(text::occurs_at(s, "&apos;"@, i));
    } else {
        lemma_not_there(s, "&amp;"@, i, 0);
        lemma_not_there(s, "&lt;"@, i, 0);
        lemma_not_there(s, "&gt;"@, i, 0);
        lemma_not_there(s, "&quot;"@, i, 0);
        lemma_not_there(s, "&apos;"@, i, 0);
        lemma_not_there(s, "&#160;"@, i, 0);
    }
}

proof fn lemma_decoded(head: Seq<char>, x: Seq<char>)
    ensures
        decoded(head + entity_texts(x), head.len() as int) == x,
    decreases x.len(),
{
    let s = head + entity_texts(x);
    let i = head.len() as int;
    if x.len() > 0 {
        let c = x[0];
        let e = entity_text(c);
        let rest = x.drop_first();
        assert(s.subrange(i, i + e.len()) =~= e);
        lemma_entity_read(s, i, c);
        lemma_decoded(head + e, rest);
        assert(head + e + entity_texts(rest) =~= s);
        assert(seq![c] + rest =~= x);
    } else {
        assert(decoded(s, i) =~= x);
    }
}

proof fn lemma_entities_plain(x: Seq<char>)
    ensures
        has_no_tags(entity_texts(x)),
    decreases x.len(),
{
    if x.len() > 0 {
        lemma_entities();
        lemma_entities_plain(x.drop_first());
        let e = entity_text(x[0]);
        let rest = entity_texts(x.drop_first());
        let all = entity_texts(x);
        assert forall|i: int| 0 <= i < all.len() implies #[trigger] all[i] != '<' && all[i]
            != '>' by {
            if i < e.len() {
                assert(all[i] == e[i]);
            } else {
                assert(all[i] == rest[i - e.len()]);
            }
        }
    }
}

/// A heading reads as it was before the layout wrote it with entities, its white
/// space aside.
pub proof fn headings_read_back(x: Seq<char>)
    ensures
        plain_text(entity_texts(x)) == text::collapsed(x),
{
    let s = entity_texts(x);
    lemma_entities_plain(x);
    lemma_outside_plain(s, s.len() as int);
    assert(s.take(s.len() as int) =~= s);
    lemma_decoded(seq![], x);
    assert(seq![] + s =~= s);
}

/// A hard blank reads as a blank.
pub proof fn hard_blanks_are_blanks(s: Seq<char>, i: int)
    requires
        text::occurs_at(s, "&#160;"@, i),
    ensures
        decoded(s, i) == seq![' '] + decoded(s, i + 6),
{
    lemma_entities();
    let e = "&#160;"@;
    assert(s.subrange(i, i + 6)[1] == s[i + 1]);
    assert(s[i + 1] == '#');
    lemma_not_there(s, "&amp;"@, i, 1);
    lemma_not_there(s, "&lt;"@, i, 1);
    lemma_not_there(s, "&gt;"@, i, 1);
    lemma_not_there(s, "&quot;"@, i, 1);
    lemma_not_there(s, "&apos;"@, i, 1);
}

/// Whether a page number is one that a page tag of a layout gives.
pub open spec fn is_numbered(s: Seq<char>, page: usize) -> bool {
    exists|at: int| #[trigger]
        text::occurs_at(s, "<page "@, at) && (attribute_of(s.skip(at + 6), "number"@) matches Some(n)
            && number::read_count(n) == Some(page as nat))
}

/// The page that a page tag sets, if its number can be read.
pub open spec fn page_after(after: Seq<char>, page: usize) -> usize {
    match attribute_of(after, "number"@) {
        Some(n) => match number::read_count(n) {
            Some(v) => v as usize,
            None => page,
        },
        None => page,
    }
}

/// The distance from the top that a tag states; nothing if it cannot be read.
pub open spec fn top_of(attrs: Seq<char>) -> u32 {
    match attribute_of(attrs, "top"@) {
        Some(v) => match number::read_measure(v) {
            Some(t) => t,
            None => 0,
        },
        None => 0,
    }
}

/// The text run that an element is, if its font is known and it has any text.
pub open spec fn run_of(
    attrs: Seq<char>,
    body: Seq<char>,
    page: usize,
    fonts: Map<Seq<char>, u32>,
) -> Seq<CandidateView> {
    match attribute_of(attrs, "font"@) {
        Some(font) => if fonts.contains_key(font) && plain_text(body).len() > 0 {
            seq![
                CandidateView {
                    page,
                    size: fonts[font],
                    top: top_of(attrs),
                    text: plain_text(body),
                },
            ]
        } else {
            seq![]
        },
        None => seq![],
    }
}

/// The text runs from `i` on, when the page is `page` there. Whole elements
/// count: a heading may contain nested markup, and "Chapter 2: <b>Endings</b>"
/// is not the two fragments "Chapter 2: " and "Endings".
pub open spec fn runs_from(
    s: Seq<char>,
    i: int,
    page: usize,
    fonts: Map<Seq<char>, u32>,
) -> Seq<CandidateView>
    decreases s.len() + 20 - i,
{
    proof {
        text::lemma_found_facts(s, "<"@, i);
    }
    match text::found(s, "<"@, i) {
        None => seq![],
        Some(open) => {
            if text::occurs_at(s, PAGE_TAG@, open) {
                runs_from(s, open + 6, page_after(s.skip(open + 6), page), fonts)
            } else if !text::occurs_at(s, TEXT_TAG@, open) {
                runs_from(s, open + 1, page, fonts)
            } else {
                proof {
                    text::lemma_found_facts(s, ">"@, open + 6);
                }
                match text::found(s, ">"@, open + 6) {
                    None => seq![],
                    Some(head) => {
                        proof {
                            text::lemma_found_facts(s, TEXT_END@, head + 1);
                        }
                        match text::found(s, TEXT_END@, head + 1) {
                            None => runs_from(s, head + 1, page, fonts),
                            Some(close) => run_of(
                                s.subrange(open + 6, head),
                                s.subrange(head + 1, close),
                                page,
                                fonts,
                            ) + runs_from(s, close + 7, page, fonts),
                        }
                    },
                }
            }
        },
    }
}

/// Whether a run comes of a text element of a layout: it has the text of the element
/// without its markup, the size of the font that the element names, and the distance
/// from the top that it states.
pub open spec fn is_run_at(
    s: Seq<char>,
    fonts: Map<Seq<char>, u32>,
    run: CandidateView,
    at: int,
    head: int,
    close: int,
) -> bool {
    &&& text::occurs_at(s, "<text "@, at)
    &&& text::first_at(s, ">"@, at + 6, head)
    &&& text::first_at(s, "</text>"@, head + 1, close)
    &&& run.text == plain_text(s.subrange(head + 1, close))
    &&& run.text.len() > 0
    &&& attribute_of(s.subrange(at + 6, head), "font"@) matches Some(font) && fonts.contains_key(
        font,
    ) && run.size == fonts[font]
    &&& match attribute_of(s.subrange(at + 6, head), "top"@) {
        Some(top) => match number::read_measure(top) {
            Some(t) => run.top == t,
            None => run.top == 0,
        },
        None => run.top == 0,
    }
}

proof fn lemma_runs(s: Seq<char>, i: int, page: usize, fonts: Map<Seq<char>, u32>, k: int)
    requires
        0 <= k < runs_from(s, i, page, fonts).len(),
    ensures
        ({
            let run = runs_from(s, i, page, fonts)[k];
            &&& run.page == page || is_numbered(s, run.page)
            &&& exists|at: int, head: int, close: int| #[trigger]
                is_run_at(s, fonts, run, at, head, close)
        }),
    decreases s.len() + 20 - i,
{
    text::lemma_found_facts(s, "<"@, i);
    let run = runs_from(s, i, page, fonts)[k];
    match text::found(s, "<"@, i) {
        None => {},
        Some(open) => {
            if text::occurs_at(s, PAGE_TAG@, open) {
                let next = page_after(s.skip(open + 6), page);
                lemma_runs(s, open + 6, next, fonts, k);
                if run.page == next && next != page {
                    assert(is_numbered(s, run.page));
                }
            } else if !text::occurs_at(s, TEXT_TAG@, open) {
                lemma_runs(s, open + 1, page, fonts, k);
            } else {
                text::lemma_found_facts(s, ">"@, open + 6);
                match text::found(s, ">"@, open + 6) {
                    None => {},
                    Some(head) => {
                        text::lemma_found_facts(s, TEXT_END@, head + 1);
                        match text::found(s, TEXT_END@, head + 1) {
                            None => {
                                lemma_runs(s, head + 1, page, fonts, k);
                            },
                            Some(close) => {
                                let here = run_of(
                                    s.subrange(open + 6, head),
                                    s.subrange(head + 1, close),
                                    page,
                                    fonts,
                                );
                                if k < here.len() {
                                    assert(run == here[k]);
                                    assert(is_run_at(s, fonts, run, open, head, close));
                                } else {
                                    lemma_runs(s, close + 7, page, fonts, k - here.len());
                                }
                            },
                        }
                    },
                }
            }
        },
    }
}

/// Every run of a layout is the text of one of its elements, in the size of the font
/// that the element names, and stands on a page that a page tag numbers; before the
/// first such tag it stands on none.
pub proof fn runs_come_from_text_elements(s: Seq<char>, k: int)
    requires
        0 <= k < layout_runs(s).len(),
    ensures
        layout_runs(s)[k].page == 0 || is_numbered(s, layout_runs(s)[k].page),
        exists|at: int, head: int, close: int| #[trigger]
            is_run_at(
                s,
                fonts_from(s, 0, Map::empty()),
                layout_runs(s)[k],
                at,
                head,
                close,
            ),
{
    lemma_runs(s, 0, 0, fonts_from(s, 0, Map::empty()), k);
}

/// The text runs of a layout.
pub open spec fn layout_runs(s: Seq<char>) -> Seq<CandidateView> {
    runs_from(s, 0, 0, fonts_from(s, 0, Map::empty()))
}

fn one_run(attrs: &[char], body: &[char], page: usize, fonts: &TextMap<u32>) -> (r: Option<
    Candidate,
>)
    ensures
        run_of(attrs@, body@, page, fonts@) == (match r {
            Some(c) => seq![c@],
            None => Seq::<CandidateView>::empty(),
        }),
{
    let font = match attribute(attrs, "font") {
        Some(font) => font,
        None => {
            return None;
        },
    };
    let size: u32 = match fonts.get(text_of(font.as_slice()).as_str()) {
        Some(size) => *size,
        None => {
            return None;
        },
    };
    let top: u32 = match attribute(attrs, "top") {
        Some(v) => match parse_measure(v.as_slice()) {
            Some(t) => t,
            None => 0,
        },
        None => 0,
    };
    let text = strip_markup(body);
    if text.len() == 0 {
        return None;
    }
    Some(Candidate { page, size, top, text: text_of(text.as_slice()) })
}

fn text_runs(s: &[char], fonts: &TextMap<u32>) -> (r: Vec<Candidate>)
    ensures
        candidate_views(r@) == runs_from(s@, 0, 0, fonts@),
{
    let lt = chars_of("<");
    let gt = chars_of(">");
    let page_tag = chars_of(PAGE_TAG);
    let text_tag = chars_of(TEXT_TAG);
    let text_end = chars_of(TEXT_END);
    proof {
        reveal_strlit("<");
        reveal_strlit(">");
        reveal_strlit("<page ");
        reveal_strlit("<text ");
        reveal_strlit("</text>");
    }
    let ghost all = runs_from(s@, 0, 0, fonts@);
    let total: usize = s.len();
    let mut out: Vec<Candidate> = Vec::new();
    let mut page: usize = 0;
    let mut i: usize = 0;
    assert(all =~= candidate_views(out@) + all);
    loop
        invariant
            total == s@.len(),
            lt@ == "<"@ && lt@.len() == 1,
            gt@ == ">"@ && gt@.len() == 1,
            page_tag@ == PAGE_TAG@ && page_tag@.len() == 6,
            text_tag@ == TEXT_TAG@ && text_tag@.len() == 6,
            text_end@ == TEXT_END@ && text_end@.len() == 7,
            i <= total,
            all == runs_from(s@, 0, 0, fonts@),
            all == candidate_views(out@) + runs_from(s@, i as int, page, fonts@),
        decreases total - i,
    {
        let open: usize = match position(s, lt.as_slice(), i) {
            Some(open) => open,
            None => {
                assert(candidate_views(out@) =~= all);
                return out;
            },
        };
        if stands_at(s, page_tag.as_slice(), open) {
            let after = slice_subrange(s, open + 6, total);
            assert(after@ =~= s@.skip(open + 6));
            if let Some(n) = attribute(after, "number") {
                if let Some(v) = parse_count(n.as_slice()) {
                    page = v;
                }
            }
            i = open + 6;
        } else if !stands_at(s, text_tag.as_slice(), open) {
            i = open + 1;
        } else {
            let head: usize = match position(s, gt.as_slice(), open + 6) {
                Some(head) => head,
                None => {
                    assert(candidate_views(out@) =~= all);
                    return out;
                },
            };
            match position(s, text_end.as_slice(), head + 1) {
                None => {
                    i = head + 1;
                },
                Some(close) => {
                    let attrs = slice_subrange(s, open + 6, head);
                    let body = slice_subrange(s, head + 1, close);
                    let ghost before = out@;
                    let ghost rest = runs_from(s@, close + 7, page, fonts@);
                    if let Some(run) = one_run(attrs, body, page, fonts) {
                        out.push(run);
                        assert(candidate_views(out@) =~= candidate_views(before).push(run@));
                        assert(all =~= candidate_views(out@) + rest);
                    } else {
                        assert(all =~= candidate_views(out@) + rest);
                    }
                    i = close + 7;
                },
            }
        }
    }
}

// ---------------------------------------------------------------------------
// Choosing headings
// ---------------------------------------------------------------------------

/// How many letters a word has.
pub open spec fn letters(word: Seq<char>) -> nat
    decreases word.len(),
{
    if word.len() == 0 {
        0
    } else {
        letters(word.drop_last()) + (if text::alphabetic_char(word.last()) {
            1nat
        } else {
            0nat
        })
    }
}

/// Whether a line of large text reads like a heading rather than decoration: a
/// drop-cap is one big letter, a page number is just digits, and "1 2 3" has no
/// run of letters.
pub open spec fn is_plausible(text: Seq<char>) -> bool {
    let t = text::trim(text);
    &&& 3 <= t.len() <= 80
    &&& exists|i: int| 0 <= i < text::words(t).len() && letters(#[trigger] text::words(t)[i]) >= 2
}

fn letter_count(word: &Vec<char>) -> (r: usize)
    ensures
        r == letters(word@),
{
    let mut n: usize = 0;
    let mut i: usize = 0;
    assert(word@.take(0) =~= Seq::<char>::empty());
    while i < word.len()
        invariant
            i <= word@.len(),
            n <= i,
            n == letters(word@.take(i as int)),
        decreases word@.len() - i,
    {
        assert(word@.take(i + 1).drop_last() =~= word@.take(i as int));
        if alphabetic(word[i]) {
            n = n + 1;
        }
        i = i + 1;
    }
    assert(word@.take(i as int) =~= word@);
    n
}

/// A word has two letters or more where two of its characters are letters.
proof fn lemma_two_letters(word: Seq<char>)
    ensures
        letters(word) >= 1 <==> exists|a: int|
            0 <= a < word.len() && text::alphabetic_char(#[trigger] word[a]),
        letters(word) >= 2 <==> exists|a: int, b: int|
            0 <= a < b < word.len() && text::alphabetic_char(#[trigger] word[a])
                && text::alphabetic_char(#[trigger] word[b]),
    decreases word.len(),
{
    if word.len() > 0 {
        let front = word.drop_last();
        let n = front.len() as int;
        lemma_two_letters(front);
        assert forall|a: int| 0 <= a < n implies #[trigger] word[a] == front[a] by {}
        if letters(front) >= 2 {
            let (a, b) = choose|a: int, b: int|
                0 <= a < b < front.len() && text::alphabetic_char(#[trigger] front[a])
                    && text::alphabetic_char(#[trigger] front[b]);
            assert(text::alphabetic_char(word[a]) && text::alphabetic_char(word[b]));
        }
        if letters(front) >= 1 {
            let a = choose|a: int| 0 <= a < front.len() && text::alphabetic_char(#[trigger] front[a]);
            assert(text::alphabetic_char(word[a]));
        }
        if text::alphabetic_char(word[n]) {
            assert(letters(word) >= 1);
        }
        if exists|a: int, b: int|
            0 <= a < b < word.len() && text::alphabetic_char(#[trigger] word[a])
                && text::alphabetic_char(#[trigger] word[b]) {
            let (a, b) = choose|a: int, b: int|
                0 <= a < b < word.len() && text::alphabetic_char(#[trigger] word[a])
                    && text::alphabetic_char(#[trigger] word[b]);
            assert(text::alphabetic_char(front[a]));
            if b < n {
                assert(text::alphabetic_char(front[b]));
            }
        }
        if exists|a: int| 0 <= a < word.len() && text::alphabetic_char(#[trigger] word[a]) {
            let a = choose|a: int| 0 <= a < word.len() && text::alphabetic_char(#[trigger] word[a]);
            if a < n {
                assert(text::alphabetic_char(front[a]));
            }
        }
    }
}

/// Whether two characters of a word are letters.
pub open spec fn has_two_letters(word: Seq<char>) -> bool {
    exists|a: int, b: int|
        0 <= a < b < word.len() && text::alphabetic_char(#[trigger] word[a])
            && text::alphabetic_char(#[trigger] word[b])
}

/// A heading has three to eighty characters, white space at its ends aside, and a
/// word with two letters. So a drop-cap and a page number are none.
pub proof fn headings_hold_a_word(text: Seq<char>)
    ensures
        is_plausible(text) <==> 3 <= text::trim(text).len() <= 80 && exists|i: int|
            0 <= i < text::words(text::trim(text)).len() && has_two_letters(
                #[trigger] text::words(text::trim(text))[i],
            ),
{
    let list = text::words(text::trim(text));
    if exists|i: int| 0 <= i < list.len() && letters(#[trigger] list[i]) >= 2 {
        let i = choose|i: int| 0 <= i < list.len() && letters(#[trigger] list[i]) >= 2;
        lemma_two_letters(list[i]);
        assert(has_two_letters(list[i]));
    }
    if exists|i: int| 0 <= i < list.len() && has_two_letters(#[trigger] list[i]) {
        let i = choose|i: int| 0 <= i < list.len() && has_two_letters(#[trigger] list[i]);
        lemma_two_letters(list[i]);
        assert(letters(list[i]) >= 2);
    }
}

/// Whether a line of large text reads like a heading rather than decoration.
pub fn plausible_heading(text: &str) -> (r: bool)
    ensures
        r == is_plausible(text@),
        text::trim(text@).len() < 3 || text::trim(text@).len() > 80 ==> !r,
{
    let t = chars_of(trim_text(text).as_str());
    if t.len() < 3 || t.len() > 80 {
        return false;
    }
    let list = word_list(t.as_slice());
    let ghost all = text::words(t@);
    let mut i: usize = 0;
    while i < list.len()
        invariant
            t@ == text::trim(text@),
            all == text::words(t@),
            all == text::char_lists(list@),
            3 <= t@.len() <= 80,
            i <= list@.len(),
            forall|j: int| 0 <= j < i ==> letters(#[trigger] all[j]) < 2,
        decreases list@.len() - i,
    {
        assert(all[i as int] == list@[i as int]@);
        if letter_count(&list[i]) >= 2 {
            assert(letters(text::words(t@)[i as int]) >= 2);
            return true;
        }
        i = i + 1;
    }
    false
}

/// How many characters are set in a size.
pub open spec fn weight(runs: Seq<CandidateView>, size: u32) -> nat
    decreases runs.len(),
{
    if runs.len() == 0 {
        0
    } else {
        weight(runs.drop_last(), size) + (if runs.last().size == size {
            runs.last().text.len()
        } else {
            0
        })
    }
}

/// The body text size is whichever size covers the most characters, the last in the
/// order of the patterns if there are several, which is
/// far more robust than the most frequent size: a book with many short headings
/// can have more heading runs than body runs.
pub open spec fn is_body_size(runs: Seq<CandidateView>, body: u32) -> bool {
    &&& exists|i: int| 0 <= i < runs.len() && (#[trigger] runs[i]).size == body
    &&& forall|i: int|
        0 <= i < runs.len() ==> {
            let other = (#[trigger] runs[i]).size;
            weight(runs, other) < weight(runs, body) || (weight(runs, other) == weight(
                runs,
                body,
            ) && other <= body)
        }
}

/// The size of the body text.
pub open spec fn body_of(runs: Seq<CandidateView>) -> u32 {
    choose|body: u32| is_body_size(runs, body)
}

/// The characters that are set in a size: each by its run and its place in it.
pub open spec fn covered(runs: Seq<CandidateView>, size: u32) -> Set<(int, int)> {
    Set::new(
        |p: (int, int)|
            0 <= p.0 < runs.len() && runs[p.0].size == size && 0 <= p.1 < runs[p.0].text.len(),
    )
}

proof fn lemma_places_in_run(n: int, k: nat)
    ensures
        Set::new(|p: (int, int)| p.0 == n && 0 <= p.1 < k).finite(),
        Set::new(|p: (int, int)| p.0 == n && 0 <= p.1 < k).len() == k,
    decreases k,
{
    let all = Set::new(|p: (int, int)| p.0 == n && 0 <= p.1 < k);
    if k == 0 {
        assert(all =~= Set::empty());
    } else {
        let m = (k - 1) as nat;
        lemma_places_in_run(n, m);
        assert(all =~= Set::new(|p: (int, int)| p.0 == n && 0 <= p.1 < m).insert((n, k - 1)));
    }
}

proof fn lemma_covered(runs: Seq<CandidateView>, size: u32)
    ensures
        covered(runs, size).finite(),
        covered(runs, size).len() == weight(runs, size),
    decreases runs.len(),
{
    let all = covered(runs, size);
    if runs.len() == 0 {
        assert(all =~= Set::empty());
    } else {
        let front = runs.drop_last();
        let n = runs.len() - 1;
        let before = covered(front, size);
        lemma_covered(front, size);
        if runs.last().size == size {
            let k = runs.last().text.len();
            let here = Set::new(|p: (int, int)| p.0 == n && 0 <= p.1 < k);
            lemma_places_in_run(n, k);
            assert(before.disjoint(here));
            vstd::set_lib::lemma_set_disjoint_lens(before, here);
            assert(all =~= before + here);
        } else {
            assert(all =~= before);
        }
    }
}

/// The body size is the one that the most characters are set in; of several, the
/// one with the highest pattern.
pub proof fn the_body_covers_the_most_characters(runs: Seq<CandidateView>, body: u32, i: int)
    requires
        is_body_size(runs, body),
        0 <= i < runs.len(),
    ensures
        covered(runs, runs[i].size).finite(),
        covered(runs, runs[i].size).len() <= covered(runs, body).len(),
        covered(runs, runs[i].size).len() == covered(runs, body).len() ==> runs[i].size <= body,
{
    lemma_covered(runs, runs[i].size);
    lemma_covered(runs, body);
}

/// A text that has any runs has one body size.
pub proof fn there_is_one_body_size(runs: Seq<CandidateView>, a: u32, b: u32)
    requires
        is_body_size(runs, a),
        is_body_size(runs, b),
    ensures
        a == b,
{
    let i = choose|i: int| 0 <= i < runs.len() && (#[trigger] runs[i]).size == a;
    let j = choose|j: int| 0 <= j < runs.len() && (#[trigger] runs[j]).size == b;
    assert(runs[i].size == a && runs[j].size == b);
}

spec fn uses_size(runs: Seq<CandidateView>, size: u32) -> bool {
    exists|i: int| 0 <= i < runs.len() && (#[trigger] runs[i]).size == size
}

spec fn lists_size(sizes: Seq<(u32, u128)>, size: u32) -> bool {
    exists|k: int| 0 <= k < sizes.len() && (#[trigger] sizes[k]).0 == size
}

/// The sizes seen so far, each once, and the characters set in each.
spec fn is_tally(runs: Seq<CandidateView>, sizes: Seq<(u32, u128)>) -> bool {
    &&& forall|k: int| #![trigger sizes[k]]
        0 <= k < sizes.len() ==> sizes[k].1 == weight(runs, sizes[k].0)
    &&& forall|a: int, b: int|
        0 <= a < b < sizes.len() ==> (#[trigger] sizes[a]).0 != (#[trigger] sizes[b]).0
    &&& forall|size: u32| #[trigger] uses_size(runs, size) <==> lists_size(sizes, size)
}

spec fn texts_fit(runs: Seq<CandidateView>) -> bool {
    forall|i: int| 0 <= i < runs.len() ==> (#[trigger] runs[i]).text.len() <= 0xffff_ffff_ffff_ffff
}

proof fn lemma_weight_bound(runs: Seq<CandidateView>, size: u32)
    requires
        texts_fit(runs),
    ensures
        weight(runs, size) <= runs.len() * 0xffff_ffff_ffff_ffff,
    decreases runs.len(),
{
    if runs.len() > 0 {
        assert(runs[runs.len() - 1].text.len() <= 0xffff_ffff_ffff_ffff);
        lemma_weight_bound(runs.drop_last(), size);
    }
}

proof fn lemma_weight_absent(runs: Seq<CandidateView>, size: u32)
    requires
        !uses_size(runs, size),
    ensures
        weight(runs, size) == 0,
    decreases runs.len(),
{
    if runs.len() > 0 {
        let part = runs.drop_last();
        assert(runs[runs.len() - 1].size != size);
        if uses_size(part, size) {
            let i = choose|i: int| 0 <= i < part.len() && (#[trigger] part[i]).size == size;
            assert(runs[i].size == size);
        }
        lemma_weight_absent(part, size);
    }
}

proof fn lemma_uses_push(runs: Seq<CandidateView>, run: CandidateView, size: u32)
    ensures
        uses_size(runs.push(run), size) <==> uses_size(runs, size) || size == run.size,
{
    let all = runs.push(run);
    if uses_size(all, size) {
        let i = choose|i: int| 0 <= i < all.len() && (#[trigger] all[i]).size == size;
        if i < runs.len() {
            assert(runs[i].size == size);
        }
    }
    if uses_size(runs, size) {
        let i = choose|i: int| 0 <= i < runs.len() && (#[trigger] runs[i]).size == size;
        assert(all[i].size == size);
    }
    assert(all[runs.len() as int] == run);
}

/// More characters in a size that is listed already.
proof fn lemma_tally_more(
    runs: Seq<CandidateView>,
    run: CandidateView,
    sizes: Seq<(u32, u128)>,
    k: int,
    total: u128,
)
    requires
        is_tally(runs, sizes),
        0 <= k < sizes.len(),
        sizes[k].0 == run.size,
        total == sizes[k].1 + run.text.len(),
    ensures
        is_tally(runs.push(run), sizes.update(k, (run.size, total))),
{
    let all = runs.push(run);
    let now = sizes.update(k, (run.size, total));
    assert(all.drop_last() =~= runs);
    assert forall|j: int| #![trigger now[j]] 0 <= j < now.len() implies now[j].1 == weight(
        all,
        now[j].0,
    ) by {
        assert(sizes[j].1 == weight(runs, sizes[j].0));
        if j < k {
            assert(sizes[j].0 != sizes[k].0);
        } else if j > k {
            assert(sizes[k].0 != sizes[j].0);
        }
    }
    assert forall|a: int, b: int| 0 <= a < b < now.len() implies (#[trigger] now[a]).0 != (
    #[trigger] now[b]).0 by {
        assert(sizes[a].0 != sizes[b].0);
    }
    assert forall|size: u32| #[trigger] uses_size(all, size) <==> lists_size(now, size) by {
        lemma_uses_push(runs, run, size);
        assert(uses_size(runs, size) <==> lists_size(sizes, size));
        if lists_size(sizes, size) {
            let j = choose|j: int| 0 <= j < sizes.len() && (#[trigger] sizes[j]).0 == size;
            assert(now[j].0 == size);
        }
        if lists_size(now, size) {
            let j = choose|j: int| 0 <= j < now.len() && (#[trigger] now[j]).0 == size;
            assert(sizes[j].0 == size);
        }
        assert(now[k].0 == run.size);
    }
}

/// Characters in a size that is new.
proof fn lemma_tally_new(
    runs: Seq<CandidateView>,
    run: CandidateView,
    sizes: Seq<(u32, u128)>,
    total: u128,
)
    requires
        is_tally(runs, sizes),
        !lists_size(sizes, run.size),
        total == run.text.len(),
    ensures
        is_tally(runs.push(run), sizes.push((run.size, total))),
{
    let all = runs.push(run);
    let now = sizes.push((run.size, total));
    assert(all.drop_last() =~= runs);
    assert(!uses_size(runs, run.size));
    lemma_weight_absent(runs, run.size);
    assert forall|j: int| #![trigger now[j]] 0 <= j < now.len() implies now[j].1 == weight(
        all,
        now[j].0,
    ) by {
        if j < sizes.len() {
            assert(sizes[j].1 == weight(runs, sizes[j].0));
            assert(sizes[j].0 != run.size);
        }
    }
    assert forall|a: int, b: int| 0 <= a < b < now.len() implies (#[trigger] now[a]).0 != (
    #[trigger] now[b]).0 by {
        assert(now[a] == sizes[a]);
        if b < sizes.len() {
            assert(sizes[a].0 != sizes[b].0);
        } else {
            assert(sizes[a].0 != run.size);
        }
    }
    assert forall|size: u32| #[trigger] uses_size(all, size) <==> lists_size(now, size) by {
        lemma_uses_push(runs, run, size);
        assert(uses_size(runs, size) <==> lists_size(sizes, size));
        if lists_size(sizes, size) {
            let j = choose|j: int| 0 <= j < sizes.len() && (#[trigger] sizes[j]).0 == size;
            assert(now[j].0 == size);
        }
        if lists_size(now, size) {
            let j = choose|j: int| 0 <= j < now.len() && (#[trigger] now[j]).0 == size;
            if j < sizes.len() {
                assert(sizes[j].0 == size);
            }
        }
        assert(now[sizes.len() as int].0 == run.size);
    }
}

/// Where a size is listed.
fn size_position(sizes: &Vec<(u32, u128)>, size: u32) -> (r: Option<usize>)
    ensures
        match r {
            Some(k) => k < sizes@.len() && sizes@[k as int].0 == size,
            None => !lists_size(sizes@, size),
        },
{
    let mut k: usize = 0;
    while k < sizes.len()
        invariant
            k <= sizes@.len(),
            forall|j: int| 0 <= j < k ==> (#[trigger] sizes@[j]).0 != size,
        decreases sizes@.len() - k,
    {
        if sizes[k].0 == size {
            return Some(k);
        }
        k = k + 1;
    }
    None
}

/// The sizes of some runs and the characters set in each.
fn tally_sizes(runs: &Vec<Candidate>) -> (r: Vec<(u32, u128)>)
    ensures
        is_tally(candidate_views(runs@), r@),
{
    let ghost all = candidate_views(runs@);
    let total: usize = runs.len();
    let mut sizes: Vec<(u32, u128)> = Vec::new();
    let mut i: usize = 0;
    while i < total
        invariant
            total == runs@.len(),
            all == candidate_views(runs@),
            i <= total,
            is_tally(all.take(i as int), sizes@),
            texts_fit(all.take(i as int)),
        decreases total - i,
    {
        let run = &runs[i];
        let n: usize = chars_of(run.text.as_str()).len();
        let ghost part = all.take(i as int);
        proof {
            assert(all.take(i + 1) =~= part.push(run@));
            assert(texts_fit(part.push(run@)));
            lemma_weight_bound(part, run.size);
        }
        match size_position(&sizes, run.size) {
            Some(k) => {
                let before: u128 = sizes[k].1;
                assert(before == weight(part, run.size));
                let ghost start = sizes@;
                sizes.set(k, (run.size, before + n as u128));
                proof {
                    lemma_tally_more(part, run@, start, k as int, (before + n) as u128);
                }
            },
            None => {
                proof {
                    lemma_tally_new(part, run@, sizes@, n as u128);
                }
                sizes.push((run.size, n as u128));
            },
        }
        i = i + 1;
    }
    assert(all.take(i as int) =~= all);
    sizes
}

fn body_size(runs: &Vec<Candidate>) -> (r: Option<u32>)
    ensures
        match r {
            Some(body) => is_body_size(candidate_views(runs@), body) && body == body_of(
                candidate_views(runs@),
            ),
            None => runs@.len() == 0,
        },
{
    let ghost all = candidate_views(runs@);
    let sizes = tally_sizes(runs);
    if sizes.len() == 0 {
        proof {
            if runs@.len() > 0 {
                assert(all[0].size == all[0].size);
                assert(uses_size(all, all[0].size));
                assert(lists_size(sizes@, all[0].size));
            }
        }
        return None;
    }
    let mut best: usize = 0;
    let mut k: usize = 1;
    while k < sizes.len()
        invariant
            1 <= k <= sizes@.len(),
            best < k,
            forall|j: int|
                0 <= j < k ==> (#[trigger] sizes@[j]).1 < sizes@[best as int].1 || (
                sizes@[j].1 == sizes@[best as int].1 && sizes@[j].0 <= sizes@[best as int].0),
        decreases sizes@.len() - k,
    {
        if sizes[k].1 > sizes[best].1 || (sizes[k].1 == sizes[best].1 && sizes[k].0 > sizes[best].0) {
            best = k;
        }
        k = k + 1;
    }
    let body: u32 = sizes[best].0;
    proof {
        assert(sizes@[best as int].1 == weight(all, body));
        assert(lists_size(sizes@, body));
        assert(uses_size(all, body));
        assert forall|i: int| 0 <= i < all.len() implies ({
            let other = (#[trigger] all[i]).size;
            weight(all, other) < weight(all, body) || (weight(all, other) == weight(all, body)
                && other <= body)
        }) by {
            assert(uses_size(all, all[i].size));
            assert(lists_size(sizes@, all[i].size));
            let j = choose|j: int| 0 <= j < sizes@.len() && (#[trigger] sizes@[j]).0 == all[i].size;
            assert(sizes@[j].1 == weight(all, sizes@[j].0));
        }
        assert(is_body_size(all, body));
        there_is_one_body_size(all, body, body_of(all));
    }
    Some(body)
}

/// Whether a run is set large enough, and reads like a heading.
pub open spec fn stands_out(run: CandidateView, body: u32, min_ratio: u32) -> bool {
    float::at_least(run.size, float::product(body, min_ratio)) && is_plausible(run.text)
}

pub open spec fn standing_out(
    runs: Seq<CandidateView>,
    body: u32,
    min_ratio: u32,
) -> Seq<CandidateView>
    decreases runs.len(),
{
    if runs.len() == 0 {
        seq![]
    } else {
        let before = standing_out(runs.drop_last(), body, min_ratio);
        if stands_out(runs.last(), body, min_ratio) {
            before.push(runs.last())
        } else {
            before
        }
    }
}

/// Down the page, page by page.
pub open spec fn reading_key(c: CandidateView) -> Seq<i128> {
    seq![c.page as i128, float::rank(c.top) as i128]
}

pub open spec fn reading_keys(v: Seq<CandidateView>) -> Seq<Seq<i128>> {
    Seq::new(v.len(), |i: int| reading_key(v[i]))
}

/// Candidates in reading order. The layout can put a sidebar before the chapter
/// title above it, and an outline listed out of order is worse than none.
pub open spec fn in_reading_order(v: Seq<CandidateView>) -> Seq<CandidateView> {
    order::arranged(v, reading_keys(v))
}

/// Whether two candidates carry one text on one page or on facing pages.
pub open spec fn repeats(a: CandidateView, b: CandidateView) -> bool {
    a.text == b.text && a.page - b.page <= 1 && b.page - a.page <= 1
}

/// Candidates without those that repeat the one kept before them: the same
/// heading on consecutive pages is a running header, not a chapter.
pub open spec fn without_repeats(v: Seq<CandidateView>) -> Seq<CandidateView>
    decreases v.len(),
{
    if v.len() == 0 {
        seq![]
    } else {
        let before = without_repeats(v.drop_last());
        if before.len() > 0 && repeats(v.last(), before.last()) {
            before
        } else {
            before.push(v.last())
        }
    }
}

/// The headings of a layout.
pub open spec fn headings_of(runs: Seq<CandidateView>, min_ratio: u32) -> Seq<CandidateView> {
    if runs.len() == 0 || float::at_least(0, body_of(runs)) {
        seq![]
    } else {
        without_repeats(in_reading_order(standing_out(runs, body_of(runs), min_ratio)))
    }
}

proof fn lemma_standing_out(runs: Seq<CandidateView>, body: u32, min_ratio: u32, c: CandidateView)
    ensures
        standing_out(runs, body, min_ratio).contains(c) <==> runs.contains(c) && stands_out(
            c,
            body,
            min_ratio,
        ),
    decreases runs.len(),
{
    if runs.len() > 0 {
        let before = standing_out(runs.drop_last(), body, min_ratio);
        lemma_standing_out(runs.drop_last(), body, min_ratio, c);
        lemma_last_or_before(runs, c);
        lemma_pushed_holds(before, runs.last(), c);
    }
}

proof fn lemma_pushed_holds(v: Seq<CandidateView>, x: CandidateView, c: CandidateView)
    ensures
        v.push(x).contains(c) <==> v.contains(c) || c == x,
{
    let all = v.push(x);
    if v.contains(c) {
        let i = choose|i: int| 0 <= i < v.len() && v[i] == c;
        assert(all[i] == c);
    }
    assert(all[v.len() as int] == x);
    if all.contains(c) {
        let i = choose|i: int| 0 <= i < all.len() && all[i] == c;
        if i < v.len() {
            assert(v[i] == c);
        }
    }
}

proof fn lemma_last_or_before(v: Seq<CandidateView>, c: CandidateView)
    requires
        v.len() > 0,
    ensures
        v.contains(c) <==> v.drop_last().contains(c) || c == v.last(),
{
    lemma_pushed_holds(v.drop_last(), v.last(), c);
    assert(v.drop_last().push(v.last()) =~= v);
}

/// Where each candidate that is kept stood before: in the same order.
proof fn lemma_kept_in_order(v: Seq<CandidateView>) -> (at: Seq<int>)
    ensures
        at.len() == without_repeats(v).len(),
        forall|i: int|
            0 <= i < at.len() ==> 0 <= #[trigger] at[i] < v.len() && v[at[i]] == without_repeats(
                v,
            )[i],
        forall|i: int, j: int| 0 <= i < j < at.len() ==> #[trigger] at[i] < #[trigger] at[j],
    decreases v.len(),
{
    if v.len() == 0 {
        Seq::empty()
    } else {
        let at = lemma_kept_in_order(v.drop_last());
        if without_repeats(v).len() == at.len() {
            at
        } else {
            at.push(v.len() - 1)
        }
    }
}

/// Whether one candidate is not read after another: it stands on an earlier page,
/// or on the same page and not below it.
pub open spec fn is_not_after(a: CandidateView, b: CandidateView) -> bool {
    a.page < b.page || (a.page == b.page && float::rank(a.top) <= float::rank(b.top))
}

proof fn lemma_read_in_order(v: Seq<CandidateView>, i: int, j: int)
    requires
        0 <= i < j < v.len(),
    ensures
        in_reading_order(v).len() == v.len(),
        is_not_after(in_reading_order(v)[i], in_reading_order(v)[j]),
{
    let keys = reading_keys(v);
    order::sorting_keeps_every_item(v, keys, v[0]);
    order::sorting_orders_by_key(v, keys, i, j);
    let (a, b) = choose|a: int, b: int|
        0 <= a < v.len() && 0 <= b < v.len() && a != b && order::arranged(v, keys)[i]
            == #[trigger] v[a] && order::arranged(v, keys)[j] == #[trigger] v[b]
            && !order::lex_before(keys[b], keys[a]);
    let x = keys[b];
    let y = keys[a];
    assert(x == reading_key(v[b]) && y == reading_key(v[a]));
    assert(x.drop_first().len() == 1 && y.drop_first().len() == 1);
    assert(x.drop_first()[0] == x[1] && y.drop_first()[0] == y[1]);
    reveal_with_fuel(order::lex_before, 3);
    if v[a].page == v[b].page {
        assert(!order::lex_before(x.drop_first(), y.drop_first()));
    }
}

/// Headings are listed as they are read: page by page, and down each page.
pub proof fn headings_are_in_reading_order(
    runs: Seq<CandidateView>,
    min_ratio: u32,
    i: int,
    j: int,
)
    requires
        0 <= i < j < headings_of(runs, min_ratio).len(),
    ensures
        ({
            let r = headings_of(runs, min_ratio);
            &&& r[i].page <= r[j].page
            &&& r[i].page == r[j].page ==> float::rank(r[i].top) <= float::rank(r[j].top)
        }),
{
    let large = standing_out(runs, body_of(runs), min_ratio);
    let ordered = in_reading_order(large);
    order::sorting_keeps_every_item(large, reading_keys(large), large[0]);
    let at = lemma_kept_in_order(ordered);
    lemma_read_in_order(large, at[i], at[j]);
}

/// Headings are runs of the layout that read like headings, and whose size is at
/// least the body size times the ratio.
pub proof fn headings_are_large_runs(runs: Seq<CandidateView>, min_ratio: u32, i: int)
    requires
        0 <= i < headings_of(runs, min_ratio).len(),
    ensures
        ({
            let h = headings_of(runs, min_ratio)[i];
            &&& runs.contains(h)
            &&& is_plausible(h.text)
            &&& forall|body: u32| #[trigger]
                is_body_size(runs, body) ==> float::at_least(
                    h.size,
                    float::product(body, min_ratio),
                )
        }),
{
    let h = headings_of(runs, min_ratio)[i];
    let large = standing_out(runs, body_of(runs), min_ratio);
    let ordered = in_reading_order(large);
    let at = lemma_kept_in_order(ordered);
    assert(ordered[at[i]] == h);
    order::sorting_keeps_every_item(large, reading_keys(large), h);
    lemma_standing_out(runs, body_of(runs), min_ratio, h);
    assert forall|body: u32| #[trigger] is_body_size(runs, body) implies float::at_least(
        h.size,
        float::product(body, min_ratio),
    ) by {
        there_is_one_body_size(runs, body, body_of(runs));
    }
}

/// Where the body text has no size, nothing stands out against it.
pub proof fn no_body_means_no_headings(runs: Seq<CandidateView>, body: u32, min_ratio: u32)
    requires
        is_body_size(runs, body),
        float::at_least(0, body),
    ensures
        headings_of(runs, min_ratio).len() == 0,
{
    there_is_one_body_size(runs, body, body_of(runs));
}

/// No heading is followed by its own text on the same page or on a facing one.
pub proof fn headings_are_not_repeated(runs: Seq<CandidateView>, min_ratio: u32, i: int)
    requires
        0 <= i,
        i + 1 < headings_of(runs, min_ratio).len(),
    ensures
        ({
            let r = headings_of(runs, min_ratio);
            r[i].text == r[i + 1].text ==> r[i + 1].page > r[i].page + 1
        }),
{
    let large = standing_out(runs, body_of(runs), min_ratio);
    lemma_no_repeats(in_reading_order(large), i);
    headings_are_in_reading_order(runs, min_ratio, i, i + 1);
}

proof fn lemma_no_repeats(v: Seq<CandidateView>, i: int)
    requires
        0 <= i,
        i + 1 < without_repeats(v).len(),
    ensures
        ({
            let a = without_repeats(v)[i];
            let b = without_repeats(v)[i + 1];
            a.text != b.text || a.page - b.page > 1 || b.page - a.page > 1
        }),
    decreases v.len(),
{
    let before = without_repeats(v.drop_last());
    if i + 1 < before.len() {
        lemma_no_repeats(v.drop_last(), i);
    }
}

/// A run that is large enough and reads like a heading is a heading, or one with
/// its text stands on the same page or a facing one.
pub proof fn large_runs_become_headings(
    runs: Seq<CandidateView>,
    body: u32,
    min_ratio: u32,
    c: CandidateView,
)
    requires
        is_body_size(runs, body),
        !float::at_least(0, body),
        runs.contains(c),
        is_plausible(c.text),
        float::at_least(c.size, float::product(body, min_ratio)),
    ensures
        exists|i: int|
            0 <= i < headings_of(runs, min_ratio).len() && (#[trigger] headings_of(
                runs,
                min_ratio,
            )[i]).text == c.text && headings_of(runs, min_ratio)[i].page - c.page <= 1 && c.page
                - headings_of(runs, min_ratio)[i].page <= 1,
{
    there_is_one_body_size(runs, body, body_of(runs));
    let large = standing_out(runs, body, min_ratio);
    let ordered = in_reading_order(large);
    lemma_standing_out(runs, body, min_ratio, c);
    order::sorting_keeps_every_item(large, reading_keys(large), c);
    let k = choose|k: int| 0 <= k < ordered.len() && ordered[k] == c;
    lemma_kept_or_repeated(ordered, k);
    let i = choose|i: int|
        0 <= i < without_repeats(ordered).len() && repeats(
            c,
            #[trigger] without_repeats(ordered)[i],
        );
    assert(headings_of(runs, min_ratio) == without_repeats(ordered));
    assert(headings_of(runs, min_ratio)[i].text == c.text);
}

proof fn lemma_kept_or_repeated(v: Seq<CandidateView>, k: int)
    requires
        0 <= k < v.len(),
    ensures
        exists|i: int|
            0 <= i < without_repeats(v).len() && repeats(
                v[k],
                #[trigger] without_repeats(v)[i],
            ),
    decreases v.len(),
{
    let before = without_repeats(v.drop_last());
    let all = without_repeats(v);
    if k < v.len() - 1 {
        lemma_kept_or_repeated(v.drop_last(), k);
        let i = choose|i: int| 0 <= i < before.len() && repeats(v[k], #[trigger] before[i]);
        assert(all[i] == before[i]);
    } else if all.len() == before.len() {
        assert(repeats(v[k], all[all.len() - 1]));
    } else {
        assert(all[all.len() - 1] == v[k]);
        assert(repeats(v[k], all[all.len() - 1]));
    }
}

fn pick_large(runs: &Vec<Candidate>, body: u32, min_ratio: u32) -> (r: Vec<Candidate>)
    ensures
        candidate_views(r@) == standing_out(candidate_views(runs@), body, min_ratio),
{
    let ghost all = candidate_views(runs@);
    let least: u32 = multiply(body, min_ratio);
    let mut out: Vec<Candidate> = Vec::new();
    let mut i: usize = 0;
    assert(all.take(0) =~= Seq::<CandidateView>::empty());
    assert(candidate_views(out@) =~= Seq::<CandidateView>::empty());
    while i < runs.len()
        invariant
            least == float::product(body, min_ratio),
            all == candidate_views(runs@),
            i <= runs@.len(),
            candidate_views(out@) == standing_out(all.take(i as int), body, min_ratio),
        decreases runs@.len() - i,
    {
        let run = &runs[i];
        assert(all.take(i + 1).drop_last() =~= all.take(i as int));
        assert(all.take(i + 1).last() == run@);
        if reaches(run.size, least) && plausible_heading(run.text.as_str()) {
            let ghost before = out@;
            out.push(run.clone());
            assert(candidate_views(out@) =~= candidate_views(before).push(run@));
        }
        i = i + 1;
    }
    assert(all.take(i as int) =~= all);
    out
}

fn read_in_order(v: Vec<Candidate>) -> (r: Vec<Candidate>)
    ensures
        candidate_views(r@) == in_reading_order(candidate_views(v@)),
{
    let ghost all = candidate_views(v@);
    let mut keys: Vec<Vec<i128>> = Vec::new();
    let mut i: usize = 0;
    while i < v.len()
        invariant
            all == candidate_views(v@),
            i <= v@.len(),
            keys@.len() == i,
            order::key_lists(keys@) =~= reading_keys(all).take(i as int),
        decreases v@.len() - i,
    {
        let key: Vec<i128> = vec![v[i].page as i128, rank_of(v[i].top) as i128];
        let ghost before = keys@;
        assert(key@ =~= reading_key(all[i as int]));
        keys.push(key);
        proof {
            assert(order::key_lists(keys@) =~= order::key_lists(before).push(key@));
        }
        i = i + 1;
    }
    assert(reading_keys(all).take(i as int) =~= reading_keys(all));
    let r = sort_by_keys(v, &keys);
    assert(candidate_views(r@) =~= in_reading_order(all));
    r
}

fn near(a: usize, b: usize) -> (r: bool)
    ensures
        r == (a - b <= 1 && b - a <= 1),
{
    if a > b {
        a - b <= 1
    } else {
        b - a <= 1
    }
}

/// Drop candidates that repeat the one kept before them on the same or a facing
/// page.
pub fn drop_running_headers(v: &Vec<Candidate>) -> (r: Vec<Candidate>)
    ensures
        candidate_views(r@) == without_repeats(candidate_views(v@)),
{
    let ghost all = candidate_views(v@);
    let mut out: Vec<Candidate> = Vec::new();
    let mut i: usize = 0;
    assert(all.take(0) =~= Seq::<CandidateView>::empty());
    assert(candidate_views(out@) =~= Seq::<CandidateView>::empty());
    while i < v.len()
        invariant
            all == candidate_views(v@),
            i <= v@.len(),
            candidate_views(out@) == without_repeats(all.take(i as int)),
        decreases v@.len() - i,
    {
        let c = &v[i];
        assert(all.take(i + 1).drop_last() =~= all.take(i as int));
        assert(all.take(i + 1).last() == c@);
        let last: usize = out.len();
        let repeated = last > 0 && same(c.text.as_str(), out[last - 1].text.as_str())
            && near(c.page, out[last - 1].page);
        if last > 0 {
            assert(candidate_views(out@).last() == out@[last - 1]@);
        }
        if !repeated {
            let ghost before = out@;
            out.push(c.clone());
            assert(candidate_views(out@) =~= candidate_views(before).push(c@));
        }
        i = i + 1;
    }
    assert(all.take(i as int) =~= all);
    out
}

/// Parse pdftohtml's XML into heading candidates. `min_ratio` is how much
/// larger than body text a run must be to be considered.
pub fn parse(xml: &str, min_ratio: u32) -> (r: Vec<Candidate>)
    ensures
        candidate_views(r@) == headings_of(layout_runs(xml@), min_ratio),
        forall|i: int, j: int|
            0 <= i < j < r@.len() ==> (#[trigger] r@[i]).page <= (#[trigger] r@[j]).page,
        forall|i: int, j: int|
            0 <= i < j < r@.len() && (#[trigger] r@[i]).page == (#[trigger] r@[j]).page
                ==> float::rank(r@[i].top) <= float::rank(r@[j].top),
        forall|i: int|
            0 <= i < r@.len() ==> layout_runs(xml@).contains((#[trigger] r@[i])@) && is_plausible(
                r@[i].text@,
            ),
{
    let s = chars_of(xml);
    let fonts = font_sizes(s.as_slice());
    let runs = text_runs(s.as_slice(), &fonts);
    let body: u32 = match body_size(&runs) {
        Some(body) => body,
        None => {
            let none: Vec<Candidate> = Vec::new();
            assert(candidate_views(none@) =~= Seq::<CandidateView>::empty());
            return none;
        },
    };
    if reaches(0, body) {
        let none: Vec<Candidate> = Vec::new();
        assert(candidate_views(none@) =~= Seq::<CandidateView>::empty());
        return none;
    }
    let large = pick_large(&runs, body, min_ratio);
    let ordered = read_in_order(large);
    let headings = drop_running_headers(&ordered);
    proof {
        let runs = layout_runs(xml@);
        let all = candidate_views(headings@);
        assert(all == headings_of(runs, min_ratio));
        assert forall|i: int, j: int| 0 <= i < j < headings@.len() implies (
        #[trigger] headings@[i]).page <= (#[trigger] headings@[j]).page && (headings@[i].page
            == headings@[j].page ==> float::rank(headings@[i].top) <= float::rank(
            headings@[j].top,
        )) by {
            headings_are_in_reading_order(runs, min_ratio, i, j);
            assert(all[i] == headings@[i]@ && all[j] == headings@[j]@);
        }
        assert forall|i: int| 0 <= i < headings@.len() implies runs.contains(
            (#[trigger] headings@[i])@,
        ) && is_plausible(headings@[i].text@) by {
            headings_are_large_runs(runs, min_ratio, i);
            assert(all[i] == headings@[i]@);
        }
    }
    headings
}

// ---------------------------------------------------------------------------
// Nesting
// ---------------------------------------------------------------------------

/// The ranks of the sizes of some candidates, each once, in order of appearance.
pub open spec fn distinct_sizes(v: Seq<CandidateView>) -> Seq<i64>
    decreases v.len(),
{
    if v.len() == 0 {
        seq![]
    } else {
        let before = distinct_sizes(v.drop_last());
        let rank = float::rank(v.last().size) as i64;
        if float::is_nan(v.last().size) || before.contains(rank) {
            before
        } else {
            before.push(rank)
        }
    }
}

/// How many of some sizes are larger than a size.
pub open spec fn count_above(sizes: Seq<i64>, size: i64) -> nat
    decreases sizes.len(),
{
    if sizes.len() == 0 {
        0
    } else {
        count_above(sizes.drop_last(), size) + (if sizes.last() > size {
            1nat
        } else {
            0nat
        })
    }
}

/// The level of a size: how many larger sizes there are, up to a depth limit.
pub open spec fn level_of(v: Seq<CandidateView>, size: u32, max_depth: usize) -> nat {
    let rank = count_above(distinct_sizes(v), float::rank(size) as i64);
    if max_depth == 0 || float::is_nan(size) {
        0
    } else if rank < max_depth {
        rank
    } else {
        (max_depth - 1) as nat
    }
}

/// The candidates as a nested outline, with their type sizes as levels.
pub open spec fn nested(v: Seq<CandidateView>, max_depth: usize) -> Seq<EntryView> {
    Seq::new(
        v.len(),
        |i: int|
            EntryView {
                level: level_of(v, v[i].size, max_depth) as usize,
                title: v[i].text,
                page: v[i].page,
            },
    )
}

fn sizes_of(v: &[Candidate]) -> (r: Vec<i64>)
    ensures
        r@ == distinct_sizes(candidate_views(v@)),
        r@.len() <= v@.len(),
{
    let ghost all = candidate_views(v@);
    let mut sizes: Vec<i64> = Vec::new();
    let mut i: usize = 0;
    assert(all.take(0) =~= Seq::<CandidateView>::empty());
    while i < v.len()
        invariant
            all == candidate_views(v@),
            i <= v@.len(),
            sizes@ == distinct_sizes(all.take(i as int)),
            sizes@.len() <= i,
        decreases v@.len() - i,
    {
        let size: i64 = rank_of(v[i].size);
        assert(all.take(i + 1).drop_last() =~= all.take(i as int));
        assert(all.take(i + 1).last().size == v@[i as int].size);
        let mut known = false;
        let mut k: usize = 0;
        while k < sizes.len() && !known
            invariant
                k <= sizes@.len(),
                !known ==> forall|j: int| 0 <= j < k ==> sizes@[j] != size,
                known ==> sizes@.contains(size),
            decreases sizes@.len() - k,
        {
            if sizes[k] == size {
                assert(sizes@[k as int] == size);
                known = true;
            }
            k = k + 1;
        }
        if !known && !no_number(v[i].size) {
            sizes.push(size);
        }
        i = i + 1;
    }
    assert(all.take(i as int) =~= all);
    sizes
}

fn larger_sizes(sizes: &Vec<i64>, size: i64) -> (r: usize)
    ensures
        r == count_above(sizes@, size),
{
    let mut n: usize = 0;
    let mut i: usize = 0;
    assert(sizes@.take(0) =~= Seq::<i64>::empty());
    while i < sizes.len()
        invariant
            i <= sizes@.len(),
            n <= i,
            n == count_above(sizes@.take(i as int), size),
        decreases sizes@.len() - i,
    {
        assert(sizes@.take(i + 1).drop_last() =~= sizes@.take(i as int));
        if sizes[i] > size {
            n = n + 1;
        }
        i = i + 1;
    }
    assert(sizes@.take(i as int) =~= sizes@);
    n
}

/// Turn candidates into a nested outline using their type sizes as levels.
///
/// Sizes are ranked largest first, so the biggest type becomes level 0 whatever
/// its actual point size; a document set entirely in 14pt with 18pt headings
/// nests exactly like one using 45pt parts.
pub fn nest(candidates: &[Candidate], max_depth: usize) -> (r: Vec<Entry>)
    ensures
        entry_views(r@) == nested(candidate_views(candidates@), max_depth),
{
    let ghost all = candidate_views(candidates@);
    let sizes = sizes_of(candidates);
    let mut out: Vec<Entry> = Vec::new();
    let mut i: usize = 0;
    while i < candidates.len()
        invariant
            all == candidate_views(candidates@),
            sizes@ == distinct_sizes(all),
            i <= candidates@.len(),
            entry_views(out@) =~= nested(all, max_depth).take(i as int),
        decreases candidates@.len() - i,
    {
        let c = &candidates[i];
        let rank: usize = larger_sizes(&sizes, rank_of(c.size));
        let level: usize = if max_depth == 0 || no_number(c.size) {
            0
        } else if rank < max_depth {
            rank
        } else {
            max_depth - 1
        };
        let entry = Entry { level, title: c.text.clone(), page: c.page };
        let ghost before = out@;
        out.push(entry);
        proof {
            assert(all[i as int] == c@);
            assert(entry_views(out@) =~= entry_views(before).push(entry@));
        }
        i = i + 1;
    }
    assert(nested(all, max_depth).take(i as int) =~= nested(all, max_depth));
    out
}

proof fn lemma_count_above(sizes: Seq<i64>, a: i64, b: i64)
    requires
        a >= b,
    ensures
        count_above(sizes, a) <= count_above(sizes, b) <= sizes.len(),
    decreases sizes.len(),
{
    if sizes.len() > 0 {
        lemma_count_above(sizes.drop_last(), a, b);
    }
}

proof fn lemma_none_above(sizes: Seq<i64>, size: i64)
    requires
        forall|i: int| 0 <= i < sizes.len() ==> #[trigger] sizes[i] <= size,
    ensures
        count_above(sizes, size) == 0,
    decreases sizes.len(),
{
    if sizes.len() > 0 {
        lemma_none_above(sizes.drop_last(), size);
    }
}

/// Every rank listed is that of a size.
proof fn lemma_distinct_sizes(v: Seq<CandidateView>, k: int)
    requires
        0 <= k < distinct_sizes(v).len(),
    ensures
        exists|i: int|
            0 <= i < v.len() && !float::is_nan((#[trigger] v[i]).size) && distinct_sizes(v)[k]
                == float::rank(v[i].size),
    decreases v.len(),
{
    let part = v.drop_last();
    let before = distinct_sizes(part);
    if k < before.len() {
        lemma_distinct_sizes(part, k);
        let i = choose|i: int|
            0 <= i < part.len() && !float::is_nan((#[trigger] part[i]).size) && before[k]
                == float::rank(part[i].size);
        assert(v[i] == part[i]);
    } else {
        assert(v[v.len() - 1] == v.last());
    }
}

/// Headings keep their texts and pages when they are nested, and stay in order.
/// Those of one size are at one level. Larger type is at a higher level than smaller
/// type, unless the smaller one is as deep as it may be; then it is no deeper.
pub proof fn larger_type_is_nested_higher(v: Seq<CandidateView>, max_depth: usize, i: int, j: int)
    requires
        0 <= i < v.len() <= usize::MAX,
        0 <= j < v.len(),
    ensures
        nested(v, max_depth).len() == v.len(),
        nested(v, max_depth)[i].title == v[i].text,
        nested(v, max_depth)[i].page == v[i].page,
        v[i].size == v[j].size ==> nested(v, max_depth)[i].level == nested(v, max_depth)[j].level,
        max_depth > 0 && float::below(v[j].size, v[i].size) ==> nested(v, max_depth)[i].level
            < nested(v, max_depth)[j].level || nested(v, max_depth)[j].level == max_depth - 1,
{
    if float::below(v[j].size, v[i].size) {
        let sizes = distinct_sizes(v);
        let a = float::rank(v[i].size) as i64;
        let b = float::rank(v[j].size) as i64;
        lemma_size_listed(v, i);
        let k = choose|k: int| 0 <= k < sizes.len() && sizes[k] == a;
        lemma_one_above(sizes, a, b, k);
        lemma_count_above(sizes, a, b);
        lemma_distinct_count(v);
    }
}

proof fn lemma_distinct_count(v: Seq<CandidateView>)
    ensures
        distinct_sizes(v).len() <= v.len(),
    decreases v.len(),
{
    if v.len() > 0 {
        lemma_distinct_count(v.drop_last());
    }
}

proof fn lemma_size_listed(v: Seq<CandidateView>, i: int)
    requires
        0 <= i < v.len(),
        !float::is_nan(v[i].size),
    ensures
        distinct_sizes(v).contains(float::rank(v[i].size) as i64),
    decreases v.len(),
{
    let part = v.drop_last();
    let before = distinct_sizes(part);
    let all = distinct_sizes(v);
    let rank = float::rank(v[i].size) as i64;
    if i < part.len() {
        lemma_size_listed(part, i);
        let k = choose|k: int| 0 <= k < before.len() && before[k] == rank;
        assert(all[k] == rank);
    } else if !before.contains(rank) {
        assert(all[before.len() as int] == rank);
    }
}

proof fn lemma_one_above(sizes: Seq<i64>, a: i64, b: i64, k: int)
    requires
        a > b,
        0 <= k < sizes.len(),
        sizes[k] == a,
    ensures
        count_above(sizes, a) < count_above(sizes, b),
    decreases sizes.len(),
{
    let part = sizes.drop_last();
    lemma_count_above(part, a, b);
    if k < part.len() {
        lemma_one_above(part, a, b, k);
    }
}

/// Nesting ranks sizes: larger type never nests deeper than smaller type, the
/// largest is at the top, and no level reaches the depth limit.
pub proof fn nesting_ranks_sizes(v: Seq<CandidateView>, max_depth: usize, i: int, j: int)
    requires
        0 <= i < v.len(),
        0 <= j < v.len(),
        float::at_least(v[i].size, v[j].size),
        v.len() <= usize::MAX,
    ensures
        nested(v, max_depth)[i].level <= nested(v, max_depth)[j].level,
        max_depth > 0 ==> nested(v, max_depth)[i].level < max_depth,
        (forall|k: int| 0 <= k < v.len() ==> !float::below(v[i].size, (#[trigger] v[k]).size))
            ==> nested(v, max_depth)[i].level == 0,
{
    let sizes = distinct_sizes(v);
    let a = float::rank(v[i].size) as i64;
    lemma_count_above(sizes, a, float::rank(v[j].size) as i64);
    if forall|k: int| 0 <= k < v.len() ==> !float::below(v[i].size, (#[trigger] v[k]).size) {
        assert forall|k: int| 0 <= k < sizes.len() implies #[trigger] sizes[k] <= a by {
            lemma_distinct_sizes(v, k);
            let m = choose|m: int|
                0 <= m < v.len() && !float::is_nan((#[trigger] v[m]).size) && sizes[k]
                    == float::rank(v[m].size);
            assert(!float::below(v[i].size, v[m].size));
        }
        lemma_none_above(sizes, a);
    }
}

/// `n` indentations.
pub open spec fn indented(n: nat) -> Seq<char>
    decreases n,
{
    if n == 0 {
        seq![]
    } else {
        indented((n - 1) as nat) + "    "@
    }
}

pub open spec fn entry_line(e: EntryView) -> Seq<char> {
    indented(e.level as nat) + e.title + "  ..... p"@ + number::digits(e.page as nat) + "\n"@
}

pub open spec fn entry_lines(v: Seq<EntryView>) -> Seq<char>
    decreases v.len(),
{
    if v.len() == 0 {
        seq![]
    } else {
        entry_lines(v.drop_last()) + entry_line(v.last())
    }
}

/// Four blanks for each level.
proof fn lemma_indented(n: nat)
    ensures
        indented(n) == Seq::new(4 * n, |i: int| ' '),
    decreases n,
{
    reveal_strlit("    ");
    if n > 0 {
        lemma_indented((n - 1) as nat);
        assert(indented(n) =~= Seq::new(4 * n, |i: int| ' '));
    } else {
        assert(indented(n) =~= Seq::new(4 * n, |i: int| ' '));
    }
}

/// A listing tells of each heading on a line of its own: four blanks for each level,
/// the title and the page.
pub proof fn each_heading_is_listed_on_a_line(v: Seq<EntryView>, e: EntryView)
    ensures
        entry_lines(v.push(e)) == entry_lines(v) + (Seq::new(4 * e.level as nat, |i: int| ' ')
            + e.title + "  ..... p"@ + number::digits(e.page as nat) + "\n"@),
        entry_lines(seq![]) == Seq::<char>::empty(),
{
    lemma_indented(e.level as nat);
    assert(v.push(e).drop_last() =~= v);
}

/// What the font pass found in a document, for printing.
pub fn dump(entries: &Vec<Entry>) -> (r: String)
    ensures
        r@ == number::digits(entries@.len()) + " candidates\n"@ + entry_lines(entry_views(entries@)),
{
    let ghost all = entry_views(entries@);
    let mut out = decimal_usize(entries.len());
    out.append(" candidates\n");
    let ghost head = out@;
    let mut i: usize = 0;
    assert(all.take(0) =~= Seq::<EntryView>::empty());
    assert(out@ =~= head + entry_lines(all.take(0)));
    while i < entries.len()
        invariant
            all == entry_views(entries@),
            i <= entries@.len(),
            out@ == head + entry_lines(all.take(i as int)),
        decreases entries@.len() - i,
    {
        let e = &entries[i];
        let ghost before = out@;
        assert(all.take(i + 1).drop_last() =~= all.take(i as int));
        assert(all.take(i + 1).last() == e@);
        let mut k: usize = 0;
        assert(out@ =~= before + indented(0));
        while k < e.level
            invariant
                k <= e.level,
                out@ == before + indented(k as nat),
            decreases e.level - k,
        {
            out.append("    ");
            assert(out@ =~= before + indented((k + 1) as nat));
            k = k + 1;
        }
        out.append(e.title.as_str());
        out.append("  ..... p");
        out.append(decimal_usize(e.page).as_str());
        out.append("\n");
        assert(out@ =~= before + entry_line(e@));
        assert(out@ =~= head + entry_lines(all.take(i + 1)));
        i = i + 1;
    }
    assert(all.take(i as int) =~= all);
    out
}

// ---------------------------------------------------------------------------
// Leaving a document alone
// ---------------------------------------------------------------------------

/// Why a document was left alone.
#[derive(Debug)]
pub enum Skip {
    AlreadyIndexed,
    Encrypted,
    TooShort { pages: usize },
    NoHeadings,
    Unreadable(String),
    WouldBloat { before: u64, after: u64 },
}

impl Skip {
    /// The reason in words.
    pub open spec fn reason(self) -> Seq<char> {
        match self {
            Skip::AlreadyIndexed => "already has a bookmark tree"@,
            Skip::Encrypted => "encrypted; cannot be rewritten"@,
            Skip::TooShort { .. } => "shorter than the page minimum"@,
            Skip::NoHeadings => "no headings stand out from the body text"@,
            Skip::Unreadable(why) => "could not be read: "@ + why@,
            Skip::WouldBloat { before, after } => "rewriting grew it from "@ + number::digits(
                before as nat,
            ) + " to "@ + number::digits(after as nat) + " bytes"@,
        }
    }

    pub fn message(&self) -> (r: String)
        ensures
            r@ == self.reason(),
    {
        match self {
            Skip::AlreadyIndexed => own("already has a bookmark tree"),
            Skip::Encrypted => own("encrypted; cannot be rewritten"),
            Skip::TooShort { .. } => own("shorter than the page minimum"),
            Skip::NoHeadings => own("no headings stand out from the body text"),
            Skip::Unreadable(why) => {
                let mut out = own("could not be read: ");
                out.append(why.as_str());
                out
            },
            Skip::WouldBloat { before, after } => {
                let mut out = own("rewriting grew it from ");
                out.append(decimal(*before).as_str());
                out.append(" to ");
                out.append(decimal(*after).as_str());
                out.append(" bytes");
                out
            },
        }
    }
}

// ---------------------------------------------------------------------------
// The tree
// ---------------------------------------------------------------------------

/// A heading and everything nested beneath it.
pub struct Node {
    pub title: String,
    pub page: usize,
    pub children: Vec<Node>,
}

/// How many headings there are in all.
pub open spec fn node_count(nodes: Seq<Node>) -> nat
    decreases nodes,
{
    if nodes.len() == 0 {
        0
    } else {
        node_count(nodes.drop_last()) + 1 + node_count(nodes.last().children@)
    }
}

/// A heading at the depth it ends up at.
pub struct Placed {
    pub depth: nat,
    pub title: Seq<char>,
    pub page: usize,
}

/// The headings in order, each before what is nested beneath it.
pub open spec fn preorder(nodes: Seq<Node>, depth: nat) -> Seq<Placed>
    decreases nodes,
{
    if nodes.len() == 0 {
        seq![]
    } else {
        let node = nodes.last();
        preorder(nodes.drop_last(), depth).push(
            Placed { depth, title: node.title@, page: node.page },
        ) + preorder(node.children@, depth + 1)
    }
}

/// The depth at which the entry at `i` ends up: its level, but at most one below
/// the entry before it. A subsection with no section above it is attached to
/// whatever is open rather than dropped.
pub open spec fn depth_at(entries: Seq<EntryView>, i: int) -> nat
    decreases i,
{
    if i <= 0 {
        0
    } else {
        let open = depth_at(entries, i - 1) + 1;
        if entries[i].level < open {
            entries[i].level as nat
        } else {
            open
        }
    }
}

/// The entries at the depths they end up at.
pub open spec fn placed(entries: Seq<EntryView>) -> Seq<Placed> {
    Seq::new(
        entries.len(),
        |i: int|
            Placed {
                depth: depth_at(entries, i),
                title: entries[i].title,
                page: entries[i].page,
            },
    )
}

proof fn lemma_preorder_count(nodes: Seq<Node>, depth: nat)
    ensures
        preorder(nodes, depth).len() == node_count(nodes),
    decreases nodes,
{
    if nodes.len() > 0 {
        lemma_preorder_count(nodes.drop_last(), depth);
        lemma_preorder_count(nodes.last().children@, depth + 1);
    }
}

fn depths_of(entries: &Vec<Entry>) -> (r: Vec<usize>)
    ensures
        r@.len() == entries@.len(),
        forall|i: int|
            0 <= i < r@.len() ==> #[trigger] r@[i] == depth_at(entry_views(entries@), i),
        forall|i: int| 0 <= i < r@.len() ==> #[trigger] r@[i] <= i,
{
    let ghost all = entry_views(entries@);
    let mut out: Vec<usize> = Vec::new();
    let mut open: usize = 0;
    let mut i: usize = 0;
    while i < entries.len()
        invariant
            all == entry_views(entries@),
            i <= entries@.len(),
            out@.len() == i,
            open <= i,
            i == 0 ==> open == 0,
            i > 0 ==> open == depth_at(all, i - 1) + 1,
            forall|j: int| 0 <= j < i ==> #[trigger] out@[j] == depth_at(all, j),
            forall|j: int| 0 <= j < i ==> #[trigger] out@[j] <= j,
        decreases entries@.len() - i,
    {
        let depth: usize = if entries[i].level < open {
            entries[i].level
        } else {
            open
        };
        assert(depth == depth_at(all, i as int)) by {
            assert(all[i as int].level == entries@[i as int].level);
        }
        out.push(depth);
        open = depth + 1;
        i = i + 1;
    }
    out
}

/// Whether the depths belong to some entries.
spec fn are_depths(entries: Seq<EntryView>, depths: Seq<usize>) -> bool {
    &&& depths.len() == entries.len()
    &&& forall|i: int| 0 <= i < depths.len() ==> #[trigger] depths[i] == depth_at(entries, i)
}

/// The siblings at `depth` that start at `from`, and where they end.
fn siblings(entries: &Vec<Entry>, depths: &Vec<usize>, from: usize, depth: usize) -> (r: (
    Vec<Node>,
    usize,
))
    requires
        from <= entries@.len(),
        depth <= from,
        are_depths(entry_views(entries@), depths@),
        from < entries@.len() ==> depths@[from as int] <= depth,
    ensures
        from <= r.1 <= entries@.len(),
        r.1 < entries@.len() ==> depths@[r.1 as int] < depth,
        preorder(r.0@, depth as nat) == placed(entry_views(entries@)).subrange(
            from as int,
            r.1 as int,
        ),
    decreases entries@.len() - from,
{
    let ghost all = entry_views(entries@);
    let ghost flat = placed(all);
    let total: usize = entries.len();
    let mut nodes: Vec<Node> = Vec::new();
    let mut i: usize = from;
    assert(preorder(nodes@, depth as nat) =~= flat.subrange(from as int, from as int));
    while i < total && depths[i] == depth
        invariant
            total == entries@.len(),
            all == entry_views(entries@),
            flat == placed(all),
            are_depths(all, depths@),
            depth <= from <= i <= total,
            i < total ==> depths@[i as int] <= depth,
            preorder(nodes@, depth as nat) == flat.subrange(from as int, i as int),
        decreases total - i,
    {
        proof {
            if i + 1 < total {
                assert(depths@[i + 1] == depth_at(all, i + 1));
                assert(depths@[i as int] == depth_at(all, i as int));
            }
        }
        let (children, next) = siblings(entries, depths, i + 1, depth + 1);
        let node = Node { title: entries[i].title.clone(), page: entries[i].page, children };
        let ghost before = nodes@;
        nodes.push(node);
        proof {
            assert(nodes@.drop_last() =~= before);
            assert(depths@[i as int] == depth_at(all, i as int));
            assert(flat[i as int] == (Placed {
                depth: depth as nat,
                title: node.title@,
                page: node.page,
            }));
            assert(preorder(nodes@, depth as nat) =~= flat.subrange(from as int, next as int));
        }
        i = next;
    }
    (nodes, i)
}

/// Turn the flat, ordered list into a tree.
///
/// A level that jumps by more than one — a subsection with no section above it —
/// is attached to whatever is currently open, rather than being dropped.
pub fn tree(entries: &Vec<Entry>) -> (r: Vec<Node>)
    ensures
        preorder(r@, 0) == placed(entry_views(entries@)),
        node_count(r@) == entries@.len(),
{
    let depths = depths_of(entries);
    let (nodes, end) = siblings(entries, &depths, 0, 0);
    proof {
        let flat = placed(entry_views(entries@));
        assert(flat.subrange(0, end as int) =~= flat);
        lemma_preorder_count(nodes@, 0);
    }
    nodes
}

fn count_nodes(nodes: &Vec<Node>) -> (r: usize)
    requires
        node_count(nodes@) <= usize::MAX,
    ensures
        r == node_count(nodes@),
    decreases nodes,
{
    let mut count: usize = 0;
    let mut i: usize = 0;
    assert(nodes@.take(0) =~= Seq::<Node>::empty());
    while i < nodes.len()
        invariant
            i <= nodes@.len(),
            count == node_count(nodes@.take(i as int)),
            node_count(nodes@) <= usize::MAX,
        decreases nodes@.len() - i,
    {
        let ghost next = nodes@.take(i + 1);
        proof {
            assert(next.drop_last() =~= nodes@.take(i as int));
            assert(next.last() == nodes@[i as int]);
            lemma_count_take(nodes@, i + 1);
            assert(decreases_to!(nodes => nodes@[i as int].children));
        }
        count = count + 1 + count_nodes(&nodes[i].children);
        i = i + 1;
    }
    assert(nodes@.take(i as int) =~= nodes@);
    count
}

proof fn lemma_count_take(nodes: Seq<Node>, n: int)
    requires
        0 <= n <= nodes.len(),
    ensures
        node_count(nodes.take(n)) <= node_count(nodes),
    decreases nodes.len() - n,
{
    if n < nodes.len() {
        lemma_count_take(nodes, n + 1);
        assert(nodes.take(n + 1).drop_last() =~= nodes.take(n));
    } else {
        assert(nodes.take(n) =~= nodes);
    }
}

// ---------------------------------------------------------------------------
// Writing the tree into the PDF
// ---------------------------------------------------------------------------

/// Whether the catalog refers to a bookmark tree that has anything in it.
pub open spec fn holds_outline(
    objects: Map<(u32, u16), Item>,
    trailer: Map<Seq<char>, Item>,
) -> bool {
    match pdf::referred(objects, trailer, "Root"@) {
        Some(catalog) => match pdf::held(catalog, "Outlines"@) {
            Some(Item::Reference(id)) => match pdf::resolved(objects, id) {
                Some((_, Item::Dictionary(m))) => m.contains_key("First"@),
                _ => false,
            },
            _ => false,
        },
        None => false,
    }
}

/// Whether the document already carries a bookmark tree worth keeping.
pub fn has_outline(doc: &Document) -> (r: bool)
    ensures
        r == holds_outline(pdf::objects_of(*doc), pdf::trailer_of(*doc)),
        r <==> (pdf::referred(
            pdf::objects_of(*doc),
            pdf::trailer_of(*doc),
            "Root"@,
        ) matches Some(c) && (pdf::held(c, "Outlines"@) matches Some(Item::Reference(id)) && (
        pdf::resolved(pdf::objects_of(*doc), id) matches Some((_, Item::Dictionary(m)))
            && m.contains_key("First"@)))),
{
    let cat = match catalog(doc) {
        Some(cat) => cat,
        None => {
            return false;
        },
    };
    let outlines = match get_entry(cat, "Outlines") {
        Some(outlines) => outlines,
        None => {
            return false;
        },
    };
    let id = match as_reference(outlines) {
        Some(id) => id,
        None => {
            return false;
        },
    };
    match get_object(doc, id) {
        Some(target) => match as_dict(target) {
            Some(d) => has_entry(d, "First"),
            None => false,
        },
        None => false,
    }
}

/// An object number of the first generation.
pub open spec fn numbered_id(n: int) -> (u32, u16) {
    (n as u32, 0u16)
}

/// The headings beneath the first `k` of some siblings.
pub open spec fn beneath(nodes: Seq<Node>, k: int) -> nat
    decreases k,
{
    if k <= 0 {
        0
    } else {
        beneath(nodes, k - 1) + node_count(nodes[k - 1].children@)
    }
}

/// The object number of the first heading beneath sibling `k`, when the
/// siblings have the numbers from `base` on.
pub open spec fn child_base(nodes: Seq<Node>, base: int, k: int) -> int {
    base + nodes.len() + beneath(nodes, k)
}

/// The page a heading stands on.
pub open spec fn page_ref(pages: Seq<(u32, u16)>, page: usize) -> (u32, u16) {
    if 1 <= page <= pages.len() {
        pages[page - 1]
    } else {
        pages[0]
    }
}

/// Where a bookmark leads: to the top of the page rather than a remembered
/// scroll position.
pub open spec fn destination(page: (u32, u16)) -> Item {
    Item::Array(
        seq![Item::Reference(page), Item::Name(vstd::utf8::encode_utf8("XYZ"@)), Item::Null, Item::Null, Item::Null],
    )
}

/// What every bookmark holds: its title, the one it is nested in, and where it
/// leads.
pub open spec fn bare_bookmark(node: Node, parent: (u32, u16), pages: Seq<(u32, u16)>) -> Map<
    Seq<char>,
    Item,
> {
    pdf::no_entries().insert("Title"@, Item::Text(vstd::utf8::encode_utf8(node.title@))).insert(
        "Parent"@,
        Item::Reference(parent),
    ).insert("Dest"@, destination(page_ref(pages, node.page)))
}

/// The bookmark of sibling `k`, when the siblings have the numbers from `base`
/// on: linked to its neighbours, and to the first and last of those nested
/// beneath it. These start collapsed, which a negative count says, so a long
/// book does not open as a wall of subsections.
pub open spec fn bookmark(
    nodes: Seq<Node>,
    k: int,
    parent: (u32, u16),
    base: int,
    pages: Seq<(u32, u16)>,
) -> Map<Seq<char>, Item> {
    let bare = bare_bookmark(nodes[k], parent, pages);
    let after = if k > 0 {
        bare.insert("Prev"@, Item::Reference(numbered_id(base + k - 1)))
    } else {
        bare
    };
    let linked = if k + 1 < nodes.len() {
        after.insert("Next"@, Item::Reference(numbered_id(base + k + 1)))
    } else {
        after
    };
    let children = nodes[k].children@;
    if children.len() > 0 {
        let first = child_base(nodes, base, k);
        linked.insert("First"@, Item::Reference(numbered_id(first))).insert(
            "Last"@,
            Item::Reference(numbered_id(first + children.len() - 1)),
        ).insert("Count"@, Item::Integer(-(node_count(children) as int)))
    } else {
        linked
    }
}

/// The objects for the first `k` of some siblings and all that is nested
/// beneath these.
pub open spec fn level_objects(
    nodes: Seq<Node>,
    k: int,
    parent: (u32, u16),
    base: int,
    pages: Seq<(u32, u16)>,
) -> Map<(u32, u16), Item>
    decreases nodes, k,
{
    if k <= 0 || k > nodes.len() {
        Map::empty()
    } else {
        let id = numbered_id(base + k - 1);
        let children = nodes[k - 1].children@;
        level_objects(nodes, k - 1, parent, base, pages).union_prefer_right(
            level_objects(
                children,
                children.len() as int,
                id,
                child_base(nodes, base, k - 1),
                pages,
            ),
        ).insert(id, Item::Dictionary(bookmark(nodes, k - 1, parent, base, pages)))
    }
}

proof fn lemma_beneath(nodes: Seq<Node>, k: int)
    requires
        0 <= k <= nodes.len(),
    ensures
        node_count(nodes.take(k)) == k + beneath(nodes, k),
        node_count(nodes.take(k)) <= node_count(nodes),
    decreases k,
{
    lemma_count_take(nodes, k);
    if k > 0 {
        lemma_beneath(nodes, k - 1);
        assert(nodes.take(k).drop_last() =~= nodes.take(k - 1));
    } else {
        assert(nodes.take(0) =~= Seq::<Node>::empty());
    }
}

/// Every bookmark has a number of its own, from `base` on.
proof fn lemma_level_numbers(
    nodes: Seq<Node>,
    k: int,
    parent: (u32, u16),
    base: int,
    pages: Seq<(u32, u16)>,
    id: (u32, u16),
)
    requires
        0 <= k <= nodes.len(),
        0 <= base,
        base + node_count(nodes) <= u32::MAX + 1,
        level_objects(nodes, k, parent, base, pages).contains_key(id),
    ensures
        id.1 == 0,
        base <= id.0 < base + node_count(nodes),
    decreases nodes, k,
{
    lemma_beneath(nodes, nodes.len() as int);
    assert(nodes.take(nodes.len() as int) =~= nodes);
    if k > 0 {
        let own = numbered_id(base + k - 1);
        let children = nodes[k - 1].children@;
        let inner = level_objects(
            children,
            children.len() as int,
            own,
            child_base(nodes, base, k - 1),
            pages,
        );
        lemma_beneath(nodes, k);
        lemma_beneath(nodes, k - 1);
        lemma_beneath_grows(nodes, k);
        if id == own {
        } else if inner.contains_key(id) {
            lemma_level_numbers(
                children,
                children.len() as int,
                own,
                child_base(nodes, base, k - 1),
                pages,
                id,
            );
        } else {
            lemma_level_numbers(nodes, k - 1, parent, base, pages, id);
        }
    }
}

proof fn lemma_beneath_grows(nodes: Seq<Node>, k: int)
    requires
        0 <= k <= nodes.len(),
    ensures
        nodes.len() + beneath(nodes, k) <= node_count(nodes),
    decreases nodes.len() - k,
{
    if k < nodes.len() {
        lemma_beneath_grows(nodes, k + 1);
    } else {
        lemma_beneath(nodes, k);
        assert(nodes.take(k) =~= nodes);
    }
}

fn page_of(pages: &Vec<(u32, u16)>, page: usize) -> (r: (u32, u16))
    requires
        pages@.len() > 0,
    ensures
        r == page_ref(pages@, page),
{
    if page >= 1 && page <= pages.len() {
        pages[page - 1]
    } else {
        pages[0]
    }
}

fn bookmark_of(
    node: &Node,
    parent: (u32, u16),
    pages: &Vec<(u32, u16)>,
    prev: Option<(u32, u16)>,
    next: Option<(u32, u16)>,
    children: Option<((u32, u16), (u32, u16))>,
) -> (r: Dictionary)
    requires
        pages@.len() > 0,
        node_count(node.children@) <= u32::MAX,
    ensures
        pdf::entries_of(r) == ({
            let bare = bare_bookmark(*node, parent, pages@);
            let after = match prev {
                Some(id) => bare.insert("Prev"@, Item::Reference(id)),
                None => bare,
            };
            let linked = match next {
                Some(id) => after.insert("Next"@, Item::Reference(id)),
                None => after,
            };
            match children {
                Some((first, last)) => linked.insert("First"@, Item::Reference(first)).insert(
                    "Last"@,
                    Item::Reference(last),
                ).insert("Count"@, Item::Integer(-(node_count(node.children@) as int))),
                None => linked,
            }
        }),
{
    let mut dict = new_dictionary();
    set_entry(&mut dict, "Title", string_literal(node.title.as_str()));
    set_entry(&mut dict, "Parent", reference(parent));
    let mut dest: Vec<Object> = Vec::new();
    dest.push(reference(page_of(pages, node.page)));
    dest.push(name("XYZ"));
    dest.push(null());
    dest.push(null());
    dest.push(null());
    proof {
        assert(pdf::items_of(dest@) =~= seq![
            Item::Reference(page_ref(pages@, node.page)),
            Item::Name(vstd::utf8::encode_utf8("XYZ"@)),
            Item::Null,
            Item::Null,
            Item::Null,
        ]);
    }
    set_entry(&mut dict, "Dest", array(dest));
    if let Some(id) = prev {
        set_entry(&mut dict, "Prev", reference(id));
    }
    if let Some(id) = next {
        set_entry(&mut dict, "Next", reference(id));
    }
    if let Some((first, last)) = children {
        set_entry(&mut dict, "First", reference(first));
        set_entry(&mut dict, "Last", reference(last));
        let count: usize = count_nodes(&node.children);
        set_entry(&mut dict, "Count", integer(-(count as i64)));
    }
    dict
}

/// Write one level of siblings, returning the first and last object ids.
fn write_level(
    doc: &mut Document,
    nodes: &Vec<Node>,
    parent: (u32, u16),
    pages: &Vec<(u32, u16)>,
) -> (r: Option<((u32, u16), (u32, u16))>)
    requires
        pages@.len() > 0,
        pdf::max_id_of(*old(doc)) + node_count(nodes@) <= u32::MAX,
    ensures
        r == (if nodes@.len() == 0 {
            None
        } else {
            Some(
                (
                    numbered_id(pdf::max_id_of(*old(doc)) + 1),
                    numbered_id(pdf::max_id_of(*old(doc)) + nodes@.len()),
                ),
            )
        }),
        pdf::max_id_of(*final(doc)) == pdf::max_id_of(*old(doc)) + node_count(nodes@),
        pdf::trailer_of(*final(doc)) == pdf::trailer_of(*old(doc)),
        pdf::objects_of(*final(doc)) == pdf::objects_of(*old(doc)).union_prefer_right(
            level_objects(
                nodes@,
                nodes@.len() as int,
                parent,
                pdf::max_id_of(*old(doc)) + 1,
                pages@,
            ),
        ),
    decreases nodes,
{
    let ghost top = pdf::max_id_of(*doc);
    let ghost start = pdf::objects_of(*doc);
    let ghost tail = pdf::trailer_of(*doc);
    let ghost base = top + 1;
    let n: usize = nodes.len();
    proof {
        lemma_beneath(nodes@, nodes@.len() as int);
        assert(nodes@.take(nodes@.len() as int) =~= nodes@);
    }
    if n == 0 {
        assert(start =~= start.union_prefer_right(Map::empty()));
        return None;
    }
    let mut ids: Vec<(u32, u16)> = Vec::new();
    let mut k: usize = 0;
    while k < n
        invariant
            n == nodes@.len(),
            k <= n,
            n <= node_count(nodes@),
            top + node_count(nodes@) <= u32::MAX,
            base == top + 1,
            pdf::max_id_of(*doc) == top + k,
            pdf::objects_of(*doc) == start,
            pdf::trailer_of(*doc) == tail,
            ids@.len() == k,
            forall|j: int| 0 <= j < k ==> #[trigger] ids@[j] == numbered_id(base + j),
        decreases n - k,
    {
        ids.push(new_object_id(doc));
        k = k + 1;
    }
    let mut i: usize = 0;
    assert(start =~= start.union_prefer_right(level_objects(nodes@, 0, parent, base as int, pages@)));
    while i < n
        invariant
            n == nodes@.len(),
            i <= n,
            pages@.len() > 0,
            top + node_count(nodes@) <= u32::MAX,
            base == top + 1,
            ids@.len() == n,
            forall|j: int| 0 <= j < n ==> #[trigger] ids@[j] == numbered_id(base + j),
            pdf::max_id_of(*doc) == top + n + beneath(nodes@, i as int),
            pdf::trailer_of(*doc) == tail,
            pdf::objects_of(*doc) == start.union_prefer_right(
                level_objects(nodes@, i as int, parent, base as int, pages@),
            ),
        decreases n - i,
    {
        let ghost before = level_objects(nodes@, i as int, parent, base as int, pages@);
        proof {
            lemma_beneath_grows(nodes@, i + 1);
            assert(decreases_to!(nodes => nodes@[i as int].children));
        }
        let node = &nodes[i];
        let children = write_level(doc, &node.children, ids[i], pages);
        let prev = if i > 0 {
            Some(ids[i - 1])
        } else {
            None
        };
        let next = if i + 1 < n {
            Some(ids[i + 1])
        } else {
            None
        };
        let dict = bookmark_of(node, parent, pages, prev, next, children);
        insert_object(doc, ids[i], dictionary(dict));
        proof {
            let id = numbered_id(base + i);
            assert(ids@[i as int] == id);
            let inner = level_objects(
                node.children@,
                node.children@.len() as int,
                id,
                child_base(nodes@, base as int, i as int),
                pages@,
            );
            assert(pdf::entries_of(dict) == bookmark(nodes@, i as int, parent, base as int, pages@));
            assert(pdf::objects_of(*doc) =~= start.union_prefer_right(
                before.union_prefer_right(inner).insert(
                    id,
                    Item::Dictionary(bookmark(nodes@, i as int, parent, base as int, pages@)),
                ),
            ));
        }
        i = i + 1;
    }
    Some((ids[0], ids[n - 1]))
}

/// Whether an entry points at a page that exists.
pub open spec fn on_a_page(e: EntryView, pages: nat) -> bool {
    1 <= e.page <= pages
}

/// The entries that point at a page that exists: a bookmark to a page that does
/// not exist makes a reader reject the whole outline.
pub open spec fn on_pages(entries: Seq<EntryView>, pages: nat) -> Seq<EntryView>
    decreases entries.len(),
{
    if entries.len() == 0 {
        seq![]
    } else {
        let before = on_pages(entries.drop_last(), pages);
        if on_a_page(entries.last(), pages) {
            before.push(entries.last())
        } else {
            before
        }
    }
}

fn keep_on_pages(entries: &[Entry], pages: usize) -> (r: Vec<Entry>)
    ensures
        entry_views(r@) == on_pages(entry_views(entries@), pages as nat),
        r@.len() <= entries@.len(),
{
    let ghost all = entry_views(entries@);
    let mut out: Vec<Entry> = Vec::new();
    let mut i: usize = 0;
    assert(all.take(0) =~= Seq::<EntryView>::empty());
    assert(entry_views(out@) =~= Seq::<EntryView>::empty());
    while i < entries.len()
        invariant
            all == entry_views(entries@),
            i <= entries@.len(),
            out@.len() <= i,
            entry_views(out@) == on_pages(all.take(i as int), pages as nat),
        decreases entries@.len() - i,
    {
        let e = &entries[i];
        assert(all.take(i + 1).drop_last() =~= all.take(i as int));
        assert(all.take(i + 1).last() == e@);
        if e.page >= 1 && e.page <= pages {
            let ghost before = out@;
            out.push(e.clone());
            assert(entry_views(out@) =~= entry_views(before).push(e@));
        }
        i = i + 1;
    }
    assert(all.take(i as int) =~= all);
    out
}

/// The head of a bookmark tree whose top level has the numbers from `base` on.
pub open spec fn outline_head(nodes: Seq<Node>, base: int) -> Map<Seq<char>, Item> {
    pdf::no_entries().insert("Type"@, Item::Name(vstd::utf8::encode_utf8("Outlines"@))).insert(
        "First"@,
        Item::Reference(numbered_id(base)),
    ).insert("Last"@, Item::Reference(numbered_id(base + nodes.len() - 1))).insert(
        "Count"@,
        Item::Integer(node_count(nodes) as int),
    )
}

/// The objects with a bookmark tree added, whose head takes the first number
/// after `top`.
pub open spec fn with_tree(
    objects: Map<(u32, u16), Item>,
    nodes: Seq<Node>,
    top: int,
    pages: Seq<(u32, u16)>,
) -> Map<(u32, u16), Item> {
    objects.union_prefer_right(
        level_objects(nodes, nodes.len() as int, numbered_id(top + 1), top + 2, pages),
    ).insert(numbered_id(top + 1), Item::Dictionary(outline_head(nodes, top + 2)))
}

/// The objects with a catalog that refers to a bookmark tree and asks readers to
/// show it when the document opens.
pub open spec fn with_catalog(
    objects: Map<(u32, u16), Item>,
    catalog: (u32, u16),
    head: (u32, u16),
) -> Map<(u32, u16), Item> {
    pdf::with_entry(
        pdf::with_entry(objects, catalog, "Outlines"@, Item::Reference(head)),
        catalog,
        "PageMode"@,
        Item::Name(vstd::utf8::encode_utf8("UseOutlines"@)),
    )
}

/// Whether entries can be written at all: there are pages, some entry points at
/// one, and there are object numbers left for the tree.
pub open spec fn can_index(doc: Document, entries: Seq<EntryView>) -> bool {
    let kept = on_pages(entries, pdf::pages_of(doc).len());
    &&& pdf::pages_of(doc).len() > 0
    &&& kept.len() > 0
    &&& pdf::max_id_of(doc) + kept.len() + 1 <= u32::MAX
}

/// Why entries cannot be written, in words.
pub open spec fn index_refusal(doc: Document, entries: Seq<EntryView>) -> Option<Seq<char>> {
    let kept = on_pages(entries, pdf::pages_of(doc).len());
    if entries.len() == 0 {
        Some(Skip::NoHeadings.reason())
    } else if pdf::pages_of(doc).len() == 0 {
        Some("could not be read: "@ + "no pages"@)
    } else if kept.len() == 0 {
        Some(Skip::NoHeadings.reason())
    } else if !can_index(doc, entries) {
        Some("could not be read: "@ + "too many objects"@)
    } else {
        None
    }
}

/// A document has become another by the writing of a tree of headings.
pub open spec fn is_indexed(
    before: Document,
    after: Document,
    entries: Seq<EntryView>,
    nodes: Seq<Node>,
) -> bool {
    let top = pdf::max_id_of(before) as int;
    let kept = on_pages(entries, pdf::pages_of(before).len());
    let grown = with_tree(pdf::objects_of(before), nodes, top, pdf::pages_of(before));
    &&& preorder(nodes, 0) == placed(kept)
    &&& pdf::max_id_of(after) == top + 1 + kept.len()
    &&& pdf::trailer_of(after) == pdf::trailer_of(before)
    &&& pdf::objects_of(after) == (match pdf::held(pdf::trailer_of(before), "Root"@) {
        Some(Item::Reference(id)) => with_catalog(grown, id, numbered_id(top + 1)),
        _ => grown,
    })
}

/// What the writing of entries makes of a document, and what it returns.
pub open spec fn writes_index(
    before: Document,
    after: Document,
    entries: Seq<EntryView>,
    r: Result<usize, Skip>,
) -> bool {
    let pages = pdf::pages_of(before).len();
    let kept = on_pages(entries, pages);
    if can_index(before, entries) {
        &&& exists|nodes: Seq<Node>| #[trigger] is_indexed(before, after, entries, nodes)
        &&& match pdf::held(pdf::trailer_of(before), "Root"@) {
            Some(Item::Reference(_)) => r == Ok::<usize, Skip>(kept.len() as usize),
            _ => r matches Err(Skip::Unreadable(_)),
        }
    } else {
        &&& after == before
        &&& if entries.len() > 0 && pages == 0 {
            r matches Err(Skip::Unreadable(why)) && why@ == "no pages"@
        } else if kept.len() == 0 {
            r == Err::<usize, Skip>(Skip::NoHeadings)
        } else {
            r matches Err(Skip::Unreadable(why)) && why@ == "too many objects"@
        }
    }
}

/// Build the bookmark tree on an already-loaded document, and return the number
/// of bookmarks written.
///
/// Metadata and bookmarks share one load and one save: a rewritten file cannot
/// always be read again, so a document gets exactly one rewrite and every
/// change has to be part of it.
pub fn apply_to_doc(doc: &mut Document, entries: &[Entry]) -> (r: Result<usize, Skip>)
    ensures
        writes_index(*old(doc), *final(doc), entry_views(entries@), r),
        r is Ok ==> forall|a: int|
            0 <= a < entries@.len() && 1 <= (#[trigger] entries@[a]).page <= pdf::pages_of(
                *old(doc),
            ).len() ==> exists|id: (u32, u16)| #[trigger]
                pdf::objects_of(*final(doc)).contains_key(id) && leads_to(
                    pdf::objects_of(*final(doc))[id],
                    entries@[a].title@,
                    pdf::pages_of(*old(doc))[entries@[a].page - 1],
                ),
{
    let ghost before = *doc;
    let ghost all = entry_views(entries@);
    if entries.len() == 0 {
        assert(on_pages(all, pdf::pages_of(before).len()).len() == 0);
        return Err(Skip::NoHeadings);
    }
    let pages = get_pages(doc);
    if pages.len() == 0 {
        return Err(Skip::Unreadable(own("no pages")));
    }
    let kept = keep_on_pages(entries, pages.len());
    let ghost kept_views = on_pages(all, pdf::pages_of(before).len());
    let total: usize = kept.len();
    assert(total == kept_views.len());
    if total == 0 {
        return Err(Skip::NoHeadings);
    }
    let top: u32 = max_id(doc);
    if total as u128 + top as u128 + 1 > 0xffff_ffff {
        return Err(Skip::Unreadable(own("too many objects")));
    }
    let roots = tree(&kept);
    let outlines_id = new_object_id(doc);
    proof {
        if roots@.len() == 0 {
            assert(node_count(roots@) == 0);
        }
    }
    let (first, last) = match write_level(doc, &roots, outlines_id, &pages) {
        Some(ends) => ends,
        None => {
            return Err(Skip::NoHeadings);
        },
    };
    let mut root = new_dictionary();
    set_entry(&mut root, "Type", name("Outlines"));
    set_entry(&mut root, "First", reference(first));
    set_entry(&mut root, "Last", reference(last));
    set_entry(&mut root, "Count", integer(total as i64));
    insert_object(doc, outlines_id, dictionary(root));
    assert(pdf::objects_of(*doc) == with_tree(pdf::objects_of(before), roots@, top as int, pages@));
    let catalog_id = match root_id(doc) {
        Ok(id) => id,
        Err(why) => {
            assert(is_indexed(before, *doc, all, roots@));
            return Err(Skip::Unreadable(why));
        },
    };
    set_in_object(doc, catalog_id, "Outlines", reference(outlines_id));
    // Ask readers to show the tree when the document opens.
    set_in_object(doc, catalog_id, "PageMode", name("UseOutlines"));
    assert(is_indexed(before, *doc, all, roots@));
    let r: Result<usize, Skip> = Ok(total);
    proof {
        assert(writes_index(before, *doc, all, r));
        assert forall|a: int|
            0 <= a < entries@.len() && 1 <= (#[trigger] entries@[a]).page <= pdf::pages_of(
                before,
            ).len() implies exists|id: (u32, u16)| #[trigger]
            pdf::objects_of(*doc).contains_key(id) && leads_to(
                pdf::objects_of(*doc)[id],
                entries@[a].title@,
                pdf::pages_of(before)[entries@[a].page - 1],
            ) by {
            assert(all[a] == entries@[a]@);
            every_heading_leads_to_its_page(before, *doc, all, r, a);
        }
    }
    r
}

/// The object numbers of the first `k` of some siblings and of all that is nested
/// beneath these, in order, each before what is nested beneath it.
pub open spec fn numbers_of(nodes: Seq<Node>, k: int, base: int) -> Seq<(u32, u16)>
    decreases nodes, k,
{
    if k <= 0 || k > nodes.len() {
        seq![]
    } else {
        let children = nodes[k - 1].children@;
        numbers_of(nodes, k - 1, base).push(numbered_id(base + k - 1)) + numbers_of(
            children,
            children.len() as int,
            child_base(nodes, base, k - 1),
        )
    }
}

/// Where the numbers of some siblings, and of what is nested beneath them, lie.
proof fn lemma_level_bands(
    nodes: Seq<Node>,
    k: int,
    parent: (u32, u16),
    base: int,
    pages: Seq<(u32, u16)>,
    id: (u32, u16),
)
    requires
        0 <= k <= nodes.len(),
        0 <= base,
        base + node_count(nodes) <= u32::MAX + 1,
        level_objects(nodes, k, parent, base, pages).contains_key(id),
    ensures
        base <= id.0 < base + k || base + nodes.len() <= id.0 < child_base(nodes, base, k),
    decreases k,
{
    if k > 0 {
        let own = numbered_id(base + k - 1);
        let children = nodes[k - 1].children@;
        let first = child_base(nodes, base, k - 1);
        let n = children.len() as int;
        lemma_beneath_grows(nodes, k);
        if id == own {
        } else if level_objects(children, n, own, first, pages).contains_key(id) {
            lemma_level_numbers(children, n, own, first, pages, id);
        } else {
            lemma_level_bands(nodes, k - 1, parent, base, pages, id);
        }
    }
}

/// Whether the heading at `i` is nested in the one at `j`: the last before it that
/// is one level up, with nothing as high in between.
pub open spec fn is_nested_in(line: Seq<Placed>, i: int, j: int) -> bool {
    &&& 0 <= j < i < line.len()
    &&& line[j].depth + 1 == line[i].depth
    &&& forall|m: int| j < m < i ==> (#[trigger] line[m]).depth >= line[i].depth
}

/// Whether the `n` headings after the one at `i`, and no more, are nested beneath
/// it.
pub open spec fn are_beneath(line: Seq<Placed>, i: int, n: int) -> bool {
    &&& 0 <= i
    &&& 0 <= n
    &&& i + n < line.len()
    &&& forall|m: int| i < m <= i + n ==> (#[trigger] line[m]).depth > line[i].depth
    &&& i + n + 1 < line.len() ==> line[i + n + 1].depth <= line[i].depth
}

/// Whether a bookmark shows a title and leads to a page, at no place on it in
/// particular.
pub open spec fn leads_to(item: Item, title: Seq<char>, page: (u32, u16)) -> bool {
    item matches Item::Dictionary(m) && pdf::held(m, "Title"@) == Some(
        Item::Text(vstd::utf8::encode_utf8(title)),
    ) && (pdf::held(m, "Dest"@) matches Some(Item::Array(to)) && to.len() == 5 && to[0]
        == Item::Reference(page) && to[1] == Item::Name(vstd::utf8::encode_utf8("XYZ"@)) && to[2]
        == Item::Null && to[3] == Item::Null && to[4] == Item::Null)
}

/// Whether a bookmark stands for the heading at `i` of a line, when `ids` are the
/// numbers of the bookmarks of the line: it is nested as the heading is, in
/// `parent` if that is at `depth`, and counts what is nested beneath it, collapsed.
pub open spec fn is_placed_as(
    item: Item,
    line: Seq<Placed>,
    ids: Seq<(u32, u16)>,
    i: int,
    parent: (u32, u16),
    depth: nat,
) -> bool {
    item matches Item::Dictionary(m) && {
        &&& line[i].depth == depth ==> pdf::held(m, "Parent"@) == Some(Item::Reference(parent))
        &&& line[i].depth != depth ==> exists|j: int| #[trigger]
            is_nested_in(line, i, j) && pdf::held(m, "Parent"@) == Some(Item::Reference(ids[j]))
        &&& exists|n: int| #[trigger]
            are_beneath(line, i, n) && pdf::held(m, "First"@) == (if n > 0 {
                Some(Item::Reference(ids[i + 1]))
            } else {
                None
            }) && pdf::held(m, "Count"@) == (if n > 0 {
                Some(Item::Integer(-n))
            } else {
                None
            })
    }
}

/// What stands for one heading among some siblings and all beneath them.
#[verifier::rlimit(60)]
proof fn lemma_bookmarks(
    nodes: Seq<Node>,
    k: int,
    parent: (u32, u16),
    base: int,
    pages: Seq<(u32, u16)>,
    depth: nat,
)
    requires
        0 <= k <= nodes.len(),
        0 <= base,
        base + node_count(nodes) <= u32::MAX + 1,
    ensures
        ({
            let line = preorder(nodes.take(k), depth);
            let ids = numbers_of(nodes, k, base);
            let objects = level_objects(nodes, k, parent, base, pages);
            &&& ids.len() == line.len()
            &&& ids.no_duplicates()
            &&& forall|i: int|
                0 <= i < ids.len() ==> {
                    &&& objects.contains_key(#[trigger] ids[i])
                    &&& 1 <= line[i].page <= pages.len() ==> leads_to(
                        objects[ids[i]],
                        line[i].title,
                        pages[line[i].page - 1],
                    )
                    &&& is_placed_as(objects[ids[i]], line, ids, i, parent, depth)
                }
        }),
    decreases nodes, k,
{
    let line = preorder(nodes.take(k), depth);
    let ids = numbers_of(nodes, k, base);
    let objects = level_objects(nodes, k, parent, base, pages);
    if k == 0 {
        assert(nodes.take(0) =~= Seq::<Node>::empty());
    } else {
        let own = numbered_id(base + k - 1);
        let children = nodes[k - 1].children@;
        let first = child_base(nodes, base, k - 1);
        let n = children.len() as int;
        let front = preorder(nodes.take(k - 1), depth);
        let inner = preorder(children, depth + 1);
        let front_ids = numbers_of(nodes, k - 1, base);
        let inner_ids = numbers_of(children, n, first);
        let outer = level_objects(nodes, k - 1, parent, base, pages);
        let within = level_objects(children, n, own, first, pages);
        assert(nodes.take(k).drop_last() =~= nodes.take(k - 1));
        assert(nodes.take(k).last() == nodes[k - 1]);
        assert(children.take(n) =~= children);
        lemma_beneath_grows(nodes, k);
        lemma_beneath_grows(nodes, k - 1);
        lemma_bookmarks(nodes, k - 1, parent, base, pages, depth);
        lemma_bookmarks(children, n, own, first, pages, depth + 1);
        lemma_depths(nodes.take(k - 1), depth);
        lemma_depths(children, depth + 1);
        let p = front.len() as int;
        assert(line == front.push(line[p]) + inner);
        assert(ids == front_ids.push(own) + inner_ids);
        assert(ids.len() == line.len());
        assert forall|i: int| 0 <= i < front_ids.len() implies front_ids[i] != own
            && !within.contains_key(#[trigger] front_ids[i]) by {
            lemma_level_bands(nodes, k - 1, parent, base, pages, front_ids[i]);
            if within.contains_key(front_ids[i]) {
                lemma_level_numbers(children, n, own, first, pages, front_ids[i]);
            }
        }
        assert forall|i: int| 0 <= i < inner_ids.len() implies #[trigger] inner_ids[i] != own by {
            lemma_level_numbers(children, n, own, first, pages, inner_ids[i]);
        }
        assert forall|i: int, j: int| 0 <= i < j < ids.len() implies #[trigger] ids[i]
            != #[trigger] ids[j] by {
            if i < p {
                assert(ids[i] == front_ids[i]);
                if j < p {
                    assert(ids[j] == front_ids[j]);
                } else if j > p {
                    assert(ids[j] == inner_ids[j - p - 1]);
                    assert(within.contains_key(inner_ids[j - p - 1]));
                }
            } else if i == p {
                assert(ids[j] == inner_ids[j - p - 1]);
            } else {
                assert(ids[i] == inner_ids[i - p - 1] && ids[j] == inner_ids[j - p - 1]);
            }
        }
        assert(ids.no_duplicates());
        assert forall|i: int| 0 <= i < ids.len() implies {
            &&& objects.contains_key(#[trigger] ids[i])
            &&& 1 <= line[i].page <= pages.len() ==> leads_to(
                objects[ids[i]],
                line[i].title,
                pages[line[i].page - 1],
            )
            &&& is_placed_as(objects[ids[i]], line, ids, i, parent, depth)
        } by {
            if i < p {
                assert(ids[i] == front_ids[i] && line[i] == front[i]);
                assert(objects[ids[i]] == outer[front_ids[i]]);
                lemma_placed_in_front(outer[front_ids[i]], front, line, front_ids, ids, i, parent, depth);
            } else if i == p {
                assert(objects[own] == Item::Dictionary(bookmark(nodes, k - 1, parent, base, pages)));
                lemma_own_bookmark(nodes, k - 1, parent, base, pages);
                lemma_preorder_count(children, depth + 1);
                let m = bookmark(nodes, k - 1, parent, base, pages);
                let c = node_count(children) as int;
                assert(inner.len() == c);
                assert forall|j: int| p < j <= p + c implies (#[trigger] line[j]).depth
                    > line[p].depth by {
                    assert(line[j] == inner[j - p - 1]);
                }
                assert(are_beneath(line, p, c));
                if c > 0 {
                    lemma_first_number(children, first);
                    assert(ids[p + 1] == inner_ids[0]);
                }
                assert(is_placed_as(objects[ids[i]], line, ids, i, parent, depth));
            } else {
                let q = i - p - 1;
                assert(ids[i] == inner_ids[q] && line[i] == inner[q]);
                assert(objects[ids[i]] == within[inner_ids[q]]);
                assert(within.contains_key(inner_ids[q]));
                lemma_placed_within(
                    within[inner_ids[q]],
                    inner,
                    line,
                    inner_ids,
                    ids,
                    q,
                    p,
                    own,
                    parent,
                    depth,
                );
            }
        }
    }
}

/// More headings after a line leave what was nested in it as it was.
proof fn lemma_placed_in_front(
    item: Item,
    front: Seq<Placed>,
    line: Seq<Placed>,
    front_ids: Seq<(u32, u16)>,
    ids: Seq<(u32, u16)>,
    i: int,
    parent: (u32, u16),
    depth: nat,
)
    requires
        0 <= i < front.len() == front_ids.len(),
        front.len() < line.len() == ids.len(),
        forall|j: int| 0 <= j < front.len() ==> #[trigger] line[j] == front[j],
        forall|j: int| 0 <= j < front.len() ==> #[trigger] ids[j] == front_ids[j],
        forall|j: int| 0 <= j < front.len() ==> (#[trigger] front[j]).depth >= depth,
        line[front.len() as int].depth == depth,
        is_placed_as(item, front, front_ids, i, parent, depth),
    ensures
        is_placed_as(item, line, ids, i, parent, depth),
{
    match item {
        Item::Dictionary(m) => {
            assert(line[i] == front[i]);
            if line[i].depth != depth {
                let j = choose|j: int| #[trigger]
                    is_nested_in(front, i, j) && pdf::held(m, "Parent"@) == Some(
                        Item::Reference(front_ids[j]),
                    );
                assert(line[j] == front[j] && ids[j] == front_ids[j]);
                assert forall|x: int| j < x < i implies (#[trigger] line[x]).depth
                    >= line[i].depth by {
                    assert(line[x] == front[x]);
                }
                assert(is_nested_in(line, i, j));
            }
            let n = choose|n: int| #[trigger]
                are_beneath(front, i, n) && pdf::held(m, "First"@) == (if n > 0 {
                    Some(Item::Reference(front_ids[i + 1]))
                } else {
                    None
                }) && pdf::held(m, "Count"@) == (if n > 0 {
                    Some(Item::Integer(-n))
                } else {
                    None
                });
            assert forall|x: int| i < x <= i + n implies (#[trigger] line[x]).depth
                > line[i].depth by {
                assert(line[x] == front[x]);
            }
            if i + n + 1 < front.len() {
                assert(line[i + n + 1] == front[i + n + 1]);
            }
            assert(are_beneath(line, i, n));
            if n > 0 {
                assert(ids[i + 1] == front_ids[i + 1]);
            }
        },
        _ => {},
    }
}

/// What is nested beneath a heading is nested as it was among itself.
proof fn lemma_placed_within(
    item: Item,
    inner: Seq<Placed>,
    line: Seq<Placed>,
    inner_ids: Seq<(u32, u16)>,
    ids: Seq<(u32, u16)>,
    q: int,
    p: int,
    own: (u32, u16),
    parent: (u32, u16),
    depth: nat,
)
    requires
        0 <= p,
        0 <= q < inner.len() == inner_ids.len(),
        line.len() == ids.len() == p + 1 + inner.len(),
        line[p].depth == depth,
        ids[p] == own,
        forall|j: int| 0 <= j < inner.len() ==> line[p + 1 + j] == #[trigger] inner[j],
        forall|j: int| 0 <= j < inner.len() ==> ids[p + 1 + j] == #[trigger] inner_ids[j],
        forall|j: int| 0 <= j < inner.len() ==> (#[trigger] inner[j]).depth >= depth + 1,
        is_placed_as(item, inner, inner_ids, q, own, depth + 1),
    ensures
        is_placed_as(item, line, ids, p + 1 + q, parent, depth),
{
    let i = p + 1 + q;
    match item {
        Item::Dictionary(m) => {
            assert(line[i] == inner[q]);
            if line[i].depth == depth + 1 {
                assert forall|x: int| p < x < i implies (#[trigger] line[x]).depth
                    >= line[i].depth by {
                    assert(line[x] == inner[x - p - 1]);
                }
                assert(is_nested_in(line, i, p));
            } else {
                let j = choose|j: int| #[trigger]
                    is_nested_in(inner, q, j) && pdf::held(m, "Parent"@) == Some(
                        Item::Reference(inner_ids[j]),
                    );
                assert(line[p + 1 + j] == inner[j] && ids[p + 1 + j] == inner_ids[j]);
                assert forall|x: int| p + 1 + j < x < i implies (#[trigger] line[x]).depth
                    >= line[i].depth by {
                    assert(line[x] == inner[x - p - 1]);
                }
                assert(is_nested_in(line, i, p + 1 + j));
            }
            let n = choose|n: int| #[trigger]
                are_beneath(inner, q, n) && pdf::held(m, "First"@) == (if n > 0 {
                    Some(Item::Reference(inner_ids[q + 1]))
                } else {
                    None
                }) && pdf::held(m, "Count"@) == (if n > 0 {
                    Some(Item::Integer(-n))
                } else {
                    None
                });
            assert forall|x: int| i < x <= i + n implies (#[trigger] line[x]).depth
                > line[i].depth by {
                assert(line[x] == inner[x - p - 1]);
            }
            if q + n + 1 < inner.len() {
                assert(line[p + 1 + (q + n + 1)] == inner[q + n + 1]);
            }
            assert(are_beneath(line, i, n));
            if n > 0 {
                assert(ids[p + 1 + (q + 1)] == inner_ids[q + 1]);
            }
        },
        _ => {},
    }
}

/// What the bookmark of a sibling holds.
proof fn lemma_own_bookmark(
    nodes: Seq<Node>,
    k: int,
    parent: (u32, u16),
    base: int,
    pages: Seq<(u32, u16)>,
)
    requires
        0 <= k < nodes.len(),
    ensures
        ({
            let m = bookmark(nodes, k, parent, base, pages);
            let node = nodes[k];
            let c = node_count(node.children@) as int;
            &&& 1 <= node.page <= pages.len() ==> leads_to(
                Item::Dictionary(m),
                node.title@,
                pages[node.page - 1],
            )
            &&& pdf::held(m, "Parent"@) == Some(Item::Reference(parent))
            &&& node.children@.len() > 0 <==> c > 0
            &&& pdf::held(m, "First"@) == (if c > 0 {
                Some(Item::Reference(numbered_id(child_base(nodes, base, k))))
            } else {
                None
            })
            &&& pdf::held(m, "Count"@) == (if c > 0 {
                Some(Item::Integer(-c))
            } else {
                None
            })
        }),
{
    lemma_keys_differ();
    let children = nodes[k].children@;
    if children.len() > 0 {
        assert(node_count(children) > 0);
    } else {
        assert(node_count(children) == 0);
    }
    let to = destination(page_ref(pages, nodes[k].page))->Array_0;
    assert(to[0] == Item::Reference(page_ref(pages, nodes[k].page)));
    assert(to[1] == Item::Name(vstd::utf8::encode_utf8("XYZ"@)) && to[2] == Item::Null);
    assert(to[3] == Item::Null && to[4] == Item::Null);
}

proof fn lemma_first_number(nodes: Seq<Node>, base: int)
    requires
        nodes.len() > 0,
    ensures
        numbers_of(nodes, nodes.len() as int, base).len() > 0,
        numbers_of(nodes, nodes.len() as int, base)[0] == numbered_id(base),
{
    lemma_first_of(nodes, nodes.len() as int, base);
}

proof fn lemma_first_of(nodes: Seq<Node>, k: int, base: int)
    requires
        0 < k <= nodes.len(),
    ensures
        numbers_of(nodes, k, base).len() > 0,
        numbers_of(nodes, k, base)[0] == numbered_id(base),
    decreases k,
{
    if k > 1 {
        lemma_first_of(nodes, k - 1, base);
    } else {
        assert(numbers_of(nodes, 0, base).len() == 0);
    }
}

/// Siblings are linked both ways, and all of them to what they are nested in.
pub proof fn siblings_are_linked(
    nodes: Seq<Node>,
    k: int,
    parent: (u32, u16),
    base: int,
    pages: Seq<(u32, u16)>,
)
    requires
        0 <= k,
        k + 1 < nodes.len(),
    ensures
        bookmark(nodes, k, parent, base, pages)["Next"@] == Item::Reference(
            numbered_id(base + k + 1),
        ),
        bookmark(nodes, k + 1, parent, base, pages)["Prev"@] == Item::Reference(
            numbered_id(base + k),
        ),
        bookmark(nodes, k, parent, base, pages)["Parent"@] == Item::Reference(parent),
        bookmark(nodes, k + 1, parent, base, pages)["Parent"@] == Item::Reference(parent),
        !bookmark(nodes, 0, parent, base, pages).contains_key("Prev"@),
        !bookmark(nodes, nodes.len() - 1, parent, base, pages).contains_key("Next"@),
{
    lemma_keys_differ();
}

/// The keys of a bookmark are different texts.
proof fn lemma_keys_differ()
    ensures
        "Title"@ != "Parent"@,
        "Title"@ != "Prev"@,
        "Title"@ != "Next"@,
        "Dest"@ != "Parent"@,
        "Dest"@ != "Prev"@,
        "Dest"@ != "Next"@,
        "Parent"@ != "Prev"@,
        "Parent"@ != "Next"@,
        "Prev"@ != "Next"@,
        "First"@ != "Next"@,
        "First"@ != "Prev"@,
        "First"@ != "Parent"@,
        "Last"@ != "Next"@,
        "Last"@ != "Prev"@,
        "Last"@ != "Parent"@,
        "Count"@ != "Next"@,
        "Count"@ != "Prev"@,
        "Count"@ != "Parent"@,
        "Last"@ != "First"@,
        "Count"@ != "First"@,
        "Outlines"@ != "PageMode"@,
        "Title"@ != "First"@,
        "Title"@ != "Last"@,
        "Title"@ != "Count"@,
        "Title"@ != "Dest"@,
        "Dest"@ != "First"@,
        "Dest"@ != "Last"@,
        "Dest"@ != "Count"@,
        "Count"@ != "Last"@,
        "Title"@ != "Outlines"@,
        "Title"@ != "PageMode"@,
        "Dest"@ != "Outlines"@,
        "Dest"@ != "PageMode"@,
        "Parent"@ != "Outlines"@,
        "Parent"@ != "PageMode"@,
        "First"@ != "Outlines"@,
        "First"@ != "PageMode"@,
        "Count"@ != "Outlines"@,
        "Count"@ != "PageMode"@,
{
    reveal_strlit("Title");
    reveal_strlit("Parent");
    reveal_strlit("Dest");
    reveal_strlit("Prev");
    reveal_strlit("Next");
    reveal_strlit("First");
    reveal_strlit("Last");
    reveal_strlit("Count");
    reveal_strlit("Outlines");
    reveal_strlit("PageMode");
    assert("Title"@[0] == 'T' && "Parent"@[0] == 'P' && "Dest"@[0] == 'D' && "Next"@[0] == 'N');
    assert("First"@[0] == 'F' && "Last"@[0] == 'L' && "Count"@[0] == 'C' && "Outlines"@[0] == 'O');
    assert("Prev"@[0] == 'P' && "Prev"@.len() == 4 && "Parent"@.len() == 6);
    assert("PageMode"@[0] == 'P' && "PageMode"@.len() == 8);
}

/// Bookmarks take numbers of their own, so nothing that the document held
/// before is lost, as long as its highest number is the highest.
pub proof fn bookmarks_take_fresh_numbers(
    objects: Map<(u32, u16), Item>,
    nodes: Seq<Node>,
    top: int,
    pages: Seq<(u32, u16)>,
    id: (u32, u16),
)
    requires
        0 <= top,
        top + 1 + node_count(nodes) <= u32::MAX,
        objects.contains_key(id),
        id.0 <= top,
    ensures
        with_tree(objects, nodes, top, pages).contains_key(id),
        with_tree(objects, nodes, top, pages)[id] == objects[id],
{
    let level = level_objects(nodes, nodes.len() as int, numbered_id(top + 1), top + 2, pages);
    if level.contains_key(id) {
        lemma_level_numbers(
            nodes,
            nodes.len() as int,
            numbered_id(top + 1),
            top + 2,
            pages,
            id,
        );
    }
}

/// All that stands for headings are dictionaries.
proof fn lemma_level_dictionaries(
    nodes: Seq<Node>,
    k: int,
    parent: (u32, u16),
    base: int,
    pages: Seq<(u32, u16)>,
    id: (u32, u16),
)
    requires
        level_objects(nodes, k, parent, base, pages).contains_key(id),
    ensures
        level_objects(nodes, k, parent, base, pages)[id] is Dictionary,
    decreases nodes, k,
{
    if 0 < k <= nodes.len() {
        let own_id = numbered_id(base + k - 1);
        let children = nodes[k - 1].children@;
        let first = child_base(nodes, base, k - 1);
        let n = children.len() as int;
        if id != own_id {
            if level_objects(children, n, own_id, first, pages).contains_key(id) {
                lemma_level_dictionaries(children, n, own_id, first, pages, id);
            } else {
                lemma_level_dictionaries(nodes, k - 1, parent, base, pages, id);
            }
        }
    }
}

/// Where references led to a dictionary, they still do after dictionaries have
/// been put among the objects, or in the place of some.
proof fn lemma_followed_overlaid(
    objects: Map<(u32, u16), Item>,
    more: Map<(u32, u16), Item>,
    id: (u32, u16),
    limit: nat,
)
    requires
        forall|k: (u32, u16)| #[trigger] objects.contains_key(k) ==> more.contains_key(k),
        forall|k: (u32, u16)|
            #![trigger more[k]]
            objects.contains_key(k) ==> more[k] == objects[k] || more[k] is Dictionary,
        pdf::followed(objects, id, limit) matches Some((_, Item::Dictionary(_))),
    ensures
        pdf::followed(more, id, limit) matches Some((_, Item::Dictionary(_))),
    decreases limit,
{
    assert(more[id] == objects[id] || more[id] is Dictionary);
    match objects[id] {
        Item::Reference(next) => {
            if limit > 0 {
                lemma_followed_overlaid(objects, more, next, (limit - 1) as nat);
            }
        },
        _ => {},
    }
}

/// Following references after a dictionary at their end has changed.
proof fn lemma_followed_updated(
    objects: Map<(u32, u16), Item>,
    id: (u32, u16),
    at: (u32, u16),
    old_entries: Map<Seq<char>, Item>,
    new_entries: Map<Seq<char>, Item>,
    limit: nat,
)
    requires
        pdf::followed(objects, id, limit) == Some((at, Item::Dictionary(old_entries))),
    ensures
        pdf::followed(objects.insert(at, Item::Dictionary(new_entries)), id, limit) == Some(
            (at, Item::Dictionary(new_entries)),
        ),
    decreases limit,
{
    let now = objects.insert(at, Item::Dictionary(new_entries));
    lemma_followed_end(objects, id, limit);
    match objects[id] {
        Item::Reference(next) => {
            if limit > 0 {
                lemma_followed_updated(
                    objects,
                    next,
                    at,
                    old_entries,
                    new_entries,
                    (limit - 1) as nat,
                );
            }
        },
        _ => {},
    }
}

proof fn lemma_followed_end(objects: Map<(u32, u16), Item>, id: (u32, u16), limit: nat)
    ensures
        pdf::followed(objects, id, limit) matches Some((at, item)) ==> objects.contains_key(at)
            && objects[at] == item && !(item is Reference),
    decreases limit,
{
    if objects.contains_key(id) {
        match objects[id] {
            Item::Reference(next) => {
                if limit > 0 {
                    lemma_followed_end(objects, next, (limit - 1) as nat);
                }
            },
            _ => {},
        }
    }
}

/// A document whose catalog can be found has a bookmark tree once one has been
/// written, and its catalog asks readers to show it: a second pass leaves it alone.
pub proof fn an_indexed_document_has_an_outline(
    before: Document,
    after: Document,
    entries: Seq<EntryView>,
    nodes: Seq<Node>,
)
    requires
        can_index(before, entries),
        is_indexed(before, after, entries, nodes),
        pdf::referred(pdf::objects_of(before), pdf::trailer_of(before), "Root"@) is Some,
    ensures
        holds_outline(pdf::objects_of(after), pdf::trailer_of(after)),
        pdf::referred(pdf::objects_of(after), pdf::trailer_of(after), "Root"@) matches Some(c)
            && pdf::held(c, "Outlines"@) == Some(
            Item::Reference(numbered_id(pdf::max_id_of(before) + 1)),
        ) && pdf::held(c, "PageMode"@) == Some(
            Item::Name(vstd::utf8::encode_utf8("UseOutlines"@)),
        ),
{
    let objects = pdf::objects_of(before);
    let pages = pdf::pages_of(before);
    let top = pdf::max_id_of(before) as int;
    let grown = with_tree(objects, nodes, top, pages);
    let head = numbered_id(top + 1);
    let level = level_objects(nodes, nodes.len() as int, head, top + 2, pages);
    lemma_keys_differ();
    match pdf::held(pdf::trailer_of(before), "Root"@) {
        Some(Item::Reference(id)) => {
            assert forall|k: (u32, u16)| #![trigger grown[k]] objects.contains_key(k) implies grown[k]
                == objects[k] || grown[k] is Dictionary by {
                if level.contains_key(k) {
                    lemma_level_dictionaries(nodes, nodes.len() as int, head, top + 2, pages, k);
                }
            }
            lemma_followed_overlaid(objects, grown, id, 128);
            lemma_followed_end(grown, id, 128);
            match pdf::resolved(grown, id) {
                Some((at, Item::Dictionary(m))) => {
                    let tree_ref = Item::Reference(head);
                    let m1 = m.insert("Outlines"@, tree_ref);
                    let o1 = pdf::with_entry(grown, id, "Outlines"@, tree_ref);
                    assert(o1 == grown.insert(at, Item::Dictionary(m1)));
                    lemma_followed_updated(grown, id, at, m, m1, 128);
                    let mode = Item::Name(vstd::utf8::encode_utf8("UseOutlines"@));
                    let m2 = m1.insert("PageMode"@, mode);
                    let o2 = pdf::with_entry(o1, id, "PageMode"@, mode);
                    assert(o2 == o1.insert(at, Item::Dictionary(m2)));
                    lemma_followed_updated(o1, id, at, m1, m2, 128);
                    assert(pdf::objects_of(after) == o2);
                    assert(pdf::held(m2, "Outlines"@) == Some(tree_ref));
                    let tree_entries = outline_head(nodes, top + 2);
                    assert(tree_entries.contains_key("First"@));
                    assert(grown[head] == Item::Dictionary(tree_entries));
                    if at == head {
                        assert(m == tree_entries);
                        assert(pdf::followed(o2, head, 128) == Some((head, Item::Dictionary(m2))));
                        assert(m2.contains_key("First"@));
                    } else {
                        assert(o2.contains_key(head) && o2[head] == grown[head]);
                        assert(pdf::followed(o2, head, 128) == Some(
                            (head, Item::Dictionary(tree_entries)),
                        ));
                    }
                },
                _ => {},
            }
        },
        _ => {},
    }
}

proof fn lemma_on_pages(entries: Seq<EntryView>, pages: nat, i: int)
    requires
        0 <= i < on_pages(entries, pages).len(),
    ensures
        on_a_page(on_pages(entries, pages)[i], pages),
    decreases entries.len(),
{
    let before = on_pages(entries.drop_last(), pages);
    if i < before.len() {
        lemma_on_pages(entries.drop_last(), pages, i);
    }
}

/// Writing headings into a document that has pages, a catalog and numbers left
/// either finds none on a page and leaves it alone, or gives it a bookmark tree
/// of all that are on one, none of which leads past the last page.
pub proof fn headings_on_pages_become_bookmarks(
    before: Document,
    after: Document,
    entries: Seq<EntryView>,
    r: Result<usize, Skip>,
)
    requires
        writes_index(before, after, entries, r),
        pdf::pages_of(before).len() > 0,
        pdf::referred(pdf::objects_of(before), pdf::trailer_of(before), "Root"@) is Some,
        pdf::max_id_of(before) + on_pages(entries, pdf::pages_of(before).len()).len() + 1
            <= u32::MAX,
    ensures
        ({
            let kept = on_pages(entries, pdf::pages_of(before).len());
            if kept.len() == 0 {
                r == Err::<usize, Skip>(Skip::NoHeadings) && after == before
            } else {
                &&& r == Ok::<usize, Skip>(kept.len() as usize)
                &&& holds_outline(pdf::objects_of(after), pdf::trailer_of(after))
                &&& exists|nodes: Seq<Node>| #[trigger]
                    is_indexed(before, after, entries, nodes) && forall|i: int|
                        0 <= i < preorder(nodes, 0).len() ==> 1 <= (#[trigger] preorder(
                            nodes,
                            0,
                        )[i]).page <= pdf::pages_of(before).len()
            }
        }),
{
    let pages = pdf::pages_of(before).len();
    let kept = on_pages(entries, pages);
    if kept.len() > 0 {
        let nodes = choose|nodes: Seq<Node>| #[trigger] is_indexed(before, after, entries, nodes);
        an_indexed_document_has_an_outline(before, after, entries, nodes);
        assert forall|i: int| 0 <= i < preorder(nodes, 0).len() implies 1 <= (#[trigger] preorder(
            nodes,
            0,
        )[i]).page <= pages by {
            lemma_on_pages(entries, pages, i);
        }
    }
}

/// Setting one entry of a dictionary leaves the entries of every dictionary under
/// other keys as they were.
proof fn lemma_entries_stay(
    objects: Map<(u32, u16), Item>,
    at: (u32, u16),
    key: Seq<char>,
    value: Item,
    id: (u32, u16),
)
    requires
        objects.contains_key(id),
        objects[id] is Dictionary,
    ensures
        ({
            let now = pdf::with_entry(objects, at, key, value);
            &&& now.contains_key(id)
            &&& now[id] is Dictionary
            &&& forall|other: Seq<char>|
                other != key ==> #[trigger] pdf::held(now[id]->Dictionary_0, other) == pdf::held(
                    objects[id]->Dictionary_0,
                    other,
                )
        }),
{
    lemma_followed_end(objects, at, 128);
}

/// The objects of a document that headings were written into: the tree, and a
/// catalog that refers to it.
proof fn lemma_indexed_objects(
    before: Document,
    after: Document,
    entries: Seq<EntryView>,
    nodes: Seq<Node>,
    id: (u32, u16),
)
    requires
        is_indexed(before, after, entries, nodes),
        ({
            let top = pdf::max_id_of(before) as int;
            let grown = with_tree(pdf::objects_of(before), nodes, top, pdf::pages_of(before));
            grown.contains_key(id) && grown[id] is Dictionary
        }),
    ensures
        ({
            let top = pdf::max_id_of(before) as int;
            let grown = with_tree(pdf::objects_of(before), nodes, top, pdf::pages_of(before));
            let objects = pdf::objects_of(after);
            &&& objects.contains_key(id)
            &&& objects[id] is Dictionary
            &&& forall|key: Seq<char>|
                key != "Outlines"@ && key != "PageMode"@ ==> #[trigger] pdf::held(
                    objects[id]->Dictionary_0,
                    key,
                ) == pdf::held(grown[id]->Dictionary_0, key)
        }),
{
    let top = pdf::max_id_of(before) as int;
    let grown = with_tree(pdf::objects_of(before), nodes, top, pdf::pages_of(before));
    let head = numbered_id(top + 1);
    match pdf::held(pdf::trailer_of(before), "Root"@) {
        Some(Item::Reference(at)) => {
            let mode = Item::Name(vstd::utf8::encode_utf8("UseOutlines"@));
            let part = pdf::with_entry(grown, at, "Outlines"@, Item::Reference(head));
            lemma_entries_stay(grown, at, "Outlines"@, Item::Reference(head), id);
            lemma_entries_stay(part, at, "PageMode"@, mode, id);
            let all = pdf::with_entry(part, at, "PageMode"@, mode);
            assert forall|key: Seq<char>|
                key != "Outlines"@ && key != "PageMode"@ implies #[trigger] pdf::held(
                all[id]->Dictionary_0,
                key,
            ) == pdf::held(grown[id]->Dictionary_0, key) by {
                assert(pdf::held(part[id]->Dictionary_0, key) == pdf::held(
                    grown[id]->Dictionary_0,
                    key,
                ));
            }
        },
        _ => {},
    }
}

/// Whether the objects with some numbers are the bookmarks of a line of headings,
/// in order: each shows its heading's title, leads to the heading's page, counted
/// from one, and is nested as the heading is, the highest in the object `head`,
/// which leads to the first of them and counts them all.
pub open spec fn are_bookmarks(
    objects: Map<(u32, u16), Item>,
    head: (u32, u16),
    line: Seq<Placed>,
    ids: Seq<(u32, u16)>,
    pages: Seq<(u32, u16)>,
) -> bool {
    &&& ids.len() == line.len()
    &&& ids.no_duplicates()
    &&& forall|i: int|
        0 <= i < ids.len() ==> {
            &&& objects.contains_key(#[trigger] ids[i])
            &&& leads_to(objects[ids[i]], line[i].title, pages[line[i].page - 1])
            &&& is_placed_as(objects[ids[i]], line, ids, i, head, 0)
        }
    &&& objects.contains_key(head)
    &&& objects[head] matches Item::Dictionary(m) && pdf::held(m, "First"@) == Some(
        Item::Reference(ids[0]),
    ) && pdf::held(m, "Count"@) == Some(Item::Integer(line.len() as int))
}

/// Every heading that is written into a document has a bookmark of its own, which
/// leads to the page it stands on.
pub proof fn bookmarks_stand_for_headings(
    before: Document,
    after: Document,
    entries: Seq<EntryView>,
    nodes: Seq<Node>,
) -> (ids: Seq<(u32, u16)>)
    requires
        can_index(before, entries),
        is_indexed(before, after, entries, nodes),
    ensures
        are_bookmarks(
            pdf::objects_of(after),
            numbered_id(pdf::max_id_of(before) + 1),
            placed(on_pages(entries, pdf::pages_of(before).len())),
            ids,
            pdf::pages_of(before),
        ),
{
    let pages = pdf::pages_of(before);
    let top = pdf::max_id_of(before) as int;
    let head = numbered_id(top + 1);
    let kept = on_pages(entries, pages.len());
    let line = placed(kept);
    let k = nodes.len() as int;
    let ids = numbers_of(nodes, k, top + 2);
    let level = level_objects(nodes, k, head, top + 2, pages);
    let grown = with_tree(pdf::objects_of(before), nodes, top, pages);
    let objects = pdf::objects_of(after);
    assert(nodes.take(k) =~= nodes);
    lemma_preorder_count(nodes, 0);
    lemma_bookmarks(nodes, k, head, top + 2, pages, 0);
    lemma_keys_differ();
    assert forall|i: int| 0 <= i < ids.len() implies {
        &&& objects.contains_key(#[trigger] ids[i])
        &&& leads_to(objects[ids[i]], line[i].title, pages[line[i].page - 1])
        &&& is_placed_as(objects[ids[i]], line, ids, i, head, 0)
    } by {
        let id = ids[i];
        lemma_level_numbers(nodes, k, head, top + 2, pages, id);
        lemma_on_pages(entries, pages.len(), i);
        assert(grown[id] == level[id]);
        lemma_indexed_objects(before, after, entries, nodes, id);
        let m = grown[id]->Dictionary_0;
        let now = objects[id]->Dictionary_0;
        assert(pdf::held(now, "Title"@) == pdf::held(m, "Title"@));
        assert(pdf::held(now, "Dest"@) == pdf::held(m, "Dest"@));
        assert(pdf::held(now, "Parent"@) == pdf::held(m, "Parent"@));
        assert(pdf::held(now, "First"@) == pdf::held(m, "First"@));
        assert(pdf::held(now, "Count"@) == pdf::held(m, "Count"@));
    }
    if nodes.len() == 0 {
        assert(node_count(nodes) == 0);
    }
    lemma_first_of(nodes, k, top + 2);
    lemma_indexed_objects(before, after, entries, nodes, head);
    assert(pdf::held(objects[head]->Dictionary_0, "First"@) == pdf::held(
        outline_head(nodes, top + 2),
        "First"@,
    ));
    assert(pdf::held(objects[head]->Dictionary_0, "Count"@) == pdf::held(
        outline_head(nodes, top + 2),
        "Count"@,
    ));
    ids
}

proof fn lemma_kept_on_pages(entries: Seq<EntryView>, pages: nat, a: int)
    requires
        0 <= a < entries.len(),
        1 <= entries[a].page <= pages,
    ensures
        exists|i: int|
            0 <= i < on_pages(entries, pages).len() && #[trigger] on_pages(entries, pages)[i]
                == entries[a],
    decreases entries.len(),
{
    let before = on_pages(entries.drop_last(), pages);
    let all = on_pages(entries, pages);
    if a < entries.len() - 1 {
        lemma_kept_on_pages(entries.drop_last(), pages, a);
        let i = choose|i: int| 0 <= i < before.len() && #[trigger] before[i] == entries[a];
        assert(all[i] == before[i]);
    } else {
        assert(all[all.len() - 1] == entries[a]);
    }
}

/// Once headings have been written into a document, every one of them that stands
/// on a page of the document, counted from one, has a bookmark with its title that
/// leads to that page.
pub proof fn every_heading_leads_to_its_page(
    before: Document,
    after: Document,
    entries: Seq<EntryView>,
    r: Result<usize, Skip>,
    a: int,
)
    requires
        writes_index(before, after, entries, r),
        r is Ok,
        0 <= a < entries.len(),
        1 <= entries[a].page <= pdf::pages_of(before).len(),
    ensures
        exists|id: (u32, u16)| #[trigger]
            pdf::objects_of(after).contains_key(id) && leads_to(
                pdf::objects_of(after)[id],
                entries[a].title,
                pdf::pages_of(before)[entries[a].page - 1],
            ),
{
    let pages = pdf::pages_of(before);
    let kept = on_pages(entries, pages.len());
    let nodes = choose|nodes: Seq<Node>| #[trigger] is_indexed(before, after, entries, nodes);
    let ids = bookmarks_stand_for_headings(before, after, entries, nodes);
    lemma_kept_on_pages(entries, pages.len(), a);
    let i = choose|i: int| 0 <= i < kept.len() && #[trigger] kept[i] == entries[a];
    assert(placed(kept)[i].title == entries[a].title);
    assert(pdf::objects_of(after).contains_key(ids[i]));
}

/// Headings end up at their levels, as long as none is more than one level below
/// the one before it. One that is, is nested in the one before it.
pub proof fn levels_become_depths(entries: Seq<EntryView>, i: int)
    requires
        0 <= i < entries.len(),
    ensures
        entries[0].level == 0 && (forall|k: int|
            1 <= k <= i ==> (#[trigger] entries[k]).level <= entries[k - 1].level + 1)
            ==> placed(entries)[i].depth == entries[i].level,
        i > 0 && entries[i].level > placed(entries)[i - 1].depth ==> placed(entries)[i].depth
            == placed(entries)[i - 1].depth + 1,
        i > 0 && entries[i].level <= placed(entries)[i - 1].depth ==> placed(entries)[i].depth
            == entries[i].level,
    decreases i,
{
    if i > 0 {
        levels_become_depths(entries, i - 1);
    }
}

// ---------------------------------------------------------------------------
// Headings in order determine their tree
// ---------------------------------------------------------------------------

/// Whether two lists of headings are the same, with all that is nested beneath.
pub open spec fn same_forest(a: Seq<Node>, b: Seq<Node>) -> bool
    decreases a,
{
    &&& a.len() == b.len()
    &&& a.len() > 0 ==> {
        &&& same_forest(a.drop_last(), b.drop_last())
        &&& a.last().title@ == b.last().title@
        &&& a.last().page == b.last().page
        &&& same_forest(a.last().children@, b.last().children@)
    }
}

proof fn lemma_depths(nodes: Seq<Node>, depth: nat)
    ensures
        forall|i: int|
            0 <= i < preorder(nodes, depth).len() ==> (#[trigger] preorder(nodes, depth)[i]).depth
                >= depth,
    decreases nodes,
{
    if nodes.len() > 0 {
        let front = preorder(nodes.drop_last(), depth);
        let inner = preorder(nodes.last().children@, depth + 1);
        let line = preorder(nodes, depth);
        lemma_depths(nodes.drop_last(), depth);
        lemma_depths(nodes.last().children@, depth + 1);
        assert forall|i: int| 0 <= i < line.len() implies (#[trigger] line[i]).depth >= depth by {
            if i < front.len() {
                assert(line[i] == front[i]);
            } else if i > front.len() {
                assert(line[i] == inner[i - front.len() - 1]);
            }
        }
    }
}

/// The headings in order, with their depths, determine how they are nested.
pub proof fn lemma_one_forest(a: Seq<Node>, b: Seq<Node>, depth: nat)
    requires
        preorder(a, depth) == preorder(b, depth),
    ensures
        same_forest(a, b),
    decreases a,
{
    let line = preorder(a, depth);
    if a.len() == 0 {
        if b.len() > 0 {
            assert(preorder(b, depth).len() > 0);
        }
    } else if b.len() == 0 {
        assert(line.len() > 0);
    } else {
        let front = preorder(a.drop_last(), depth);
        let front_b = preorder(b.drop_last(), depth);
        let inner = preorder(a.last().children@, depth + 1);
        let inner_b = preorder(b.last().children@, depth + 1);
        lemma_depths(a.last().children@, depth + 1);
        lemma_depths(b.last().children@, depth + 1);
        let head = Placed { depth, title: a.last().title@, page: a.last().page };
        let head_b = Placed { depth, title: b.last().title@, page: b.last().page };
        assert(line == front.push(head) + inner);
        assert(line == front_b.push(head_b) + inner_b);
        assert(line[front.len() as int] == head);
        assert(line[front_b.len() as int] == head_b);
        if front.len() < front_b.len() {
            assert(line[front_b.len() as int] == inner[front_b.len() - front.len() - 1]);
        } else if front_b.len() < front.len() {
            assert(line[front.len() as int] == inner_b[front.len() - front_b.len() - 1]);
        }
        assert(front =~= line.take(front.len() as int));
        assert(front_b =~= line.take(front.len() as int));
        assert(inner =~= line.skip(front.len() as int + 1));
        assert(inner_b =~= line.skip(front.len() as int + 1));
        lemma_one_forest(a.drop_last(), b.drop_last(), depth);
        lemma_one_forest(a.last().children@, b.last().children@, depth + 1);
    }
}

proof fn lemma_forest_at(a: Seq<Node>, b: Seq<Node>, i: int)
    requires
        same_forest(a, b),
        0 <= i < a.len(),
    ensures
        a[i].title@ == b[i].title@,
        a[i].page == b[i].page,
        same_forest(a[i].children@, b[i].children@),
    decreases a,
{
    if i < a.len() - 1 {
        lemma_forest_at(a.drop_last(), b.drop_last(), i);
    }
}

proof fn lemma_forest_count(a: Seq<Node>, b: Seq<Node>)
    requires
        same_forest(a, b),
    ensures
        node_count(a) == node_count(b),
    decreases a,
{
    if a.len() > 0 {
        lemma_forest_count(a.drop_last(), b.drop_last());
        lemma_forest_count(a.last().children@, b.last().children@);
    }
}

proof fn lemma_forest_beneath(a: Seq<Node>, b: Seq<Node>, k: int)
    requires
        same_forest(a, b),
        k <= a.len(),
    ensures
        beneath(a, k) == beneath(b, k),
    decreases k,
{
    if k > 0 {
        lemma_forest_beneath(a, b, k - 1);
        lemma_forest_at(a, b, k - 1);
        lemma_forest_count(a[k - 1].children@, b[k - 1].children@);
    }
}

proof fn lemma_forest_objects(
    a: Seq<Node>,
    b: Seq<Node>,
    k: int,
    parent: (u32, u16),
    base: int,
    pages: Seq<(u32, u16)>,
)
    requires
        same_forest(a, b),
    ensures
        level_objects(a, k, parent, base, pages) == level_objects(b, k, parent, base, pages),
    decreases a, k,
{
    if 0 < k <= a.len() {
        lemma_forest_objects(a, b, k - 1, parent, base, pages);
        lemma_forest_at(a, b, k - 1);
        lemma_forest_beneath(a, b, k - 1);
        lemma_forest_count(a[k - 1].children@, b[k - 1].children@);
        let inner = a[k - 1].children@;
        let inner_b = b[k - 1].children@;
        lemma_forest_objects(
            inner,
            inner_b,
            inner.len() as int,
            numbered_id(base + k - 1),
            child_base(a, base, k - 1),
            pages,
        );
        assert(bookmark(a, k - 1, parent, base, pages) == bookmark(b, k - 1, parent, base, pages));
    }
}

/// Headings that are nested alike are written alike.
pub proof fn lemma_same_tree(
    a: Seq<Node>,
    b: Seq<Node>,
    objects: Map<(u32, u16), Item>,
    top: int,
    pages: Seq<(u32, u16)>,
)
    requires
        same_forest(a, b),
    ensures
        with_tree(objects, a, top, pages) == with_tree(objects, b, top, pages),
{
    lemma_forest_objects(a, b, a.len() as int, numbered_id(top + 1), top + 2, pages);
    lemma_forest_count(a, b);
}

// ---------------------------------------------------------------------------
// Saving
// ---------------------------------------------------------------------------

/// Whether a rewrite changed a file's size more than bookmarks can.
pub open spec fn bloats(before: u64, after: u64, max_growth: u32) -> bool {
    before > 0 && (after > metadata::ceiling(before, max_growth) || 2 * after < before)
}

/// Refuse a rewrite that bloats a file, or loses half of it.
pub fn guard_size(before: u64, after: u64, max_growth: u32) -> (r: Result<(), Skip>)
    ensures
        r == (if bloats(before, after, max_growth) {
            Err::<(), Skip>(Skip::WouldBloat { before, after })
        } else {
            Ok::<(), Skip>(())
        }),
        r is Err <==> before > 0 && (2 * after < before || (after > before + 1_048_576 && after
            > before + float::whole_part(
            float::product(float::of_whole(before as nat), max_growth),
        ))),
{
    if before > 0 && (after as u128 > ceiling_of(before, max_growth) || (after as u128) * 2
        < before as u128) {
        return Err(Skip::WouldBloat { before, after });
    }
    Ok(())
}

/// What stands in the way of giving a loaded document a bookmark tree. One that
/// it has already does not, if it is to be rebuilt.
pub open spec fn obstacle(doc: Document, force: bool) -> Option<Skip> {
    if pdf::encrypted(doc) {
        Some(Skip::Encrypted)
    } else if !force && holds_outline(pdf::objects_of(doc), pdf::trailer_of(doc)) {
        Some(Skip::AlreadyIndexed)
    } else {
        None
    }
}

pub fn may_index(doc: &Document, force: bool) -> (r: Result<(), Skip>)
    ensures
        r == (match obstacle(*doc, force) {
            Some(skip) => Err::<(), Skip>(skip),
            None => Ok::<(), Skip>(()),
        }),
        pdf::encrypted(*doc) ==> r == Err::<(), Skip>(Skip::Encrypted),
        !pdf::encrypted(*doc) && holds_outline(pdf::objects_of(*doc), pdf::trailer_of(*doc)) ==> if force {
            r is Ok
        } else {
            r == Err::<(), Skip>(Skip::AlreadyIndexed)
        },
        !pdf::encrypted(*doc) && !holds_outline(pdf::objects_of(*doc), pdf::trailer_of(*doc)) ==> r is Ok,
{
    if is_encrypted(doc) {
        return Err(Skip::Encrypted);
    }
    if !force && has_outline(doc) {
        return Err(Skip::AlreadyIndexed);
    }
    Ok(())
}

/// Write entries as the bookmark tree of a loaded document, and return the
/// number of bookmarks written.
pub fn write(doc: &mut Document, entries: &[Entry], force: bool) -> (r: Result<usize, Skip>)
    ensures
        match obstacle(*old(doc), force) {
            Some(skip) => r == Err::<usize, Skip>(skip) && *final(doc) == *old(doc),
            None => writes_index(*old(doc), *final(doc), entry_views(entries@), r),
        },
        r is Ok ==> forall|a: int|
            0 <= a < entries@.len() && 1 <= (#[trigger] entries@[a]).page <= pdf::pages_of(
                *old(doc),
            ).len() ==> exists|id: (u32, u16)| #[trigger]
                pdf::objects_of(*final(doc)).contains_key(id) && leads_to(
                    pdf::objects_of(*final(doc))[id],
                    entries@[a].title@,
                    pdf::pages_of(*old(doc))[entries@[a].page - 1],
                ),
{
    if let Err(skip) = may_index(doc, force) {
        return Err(skip);
    }
    apply_to_doc(doc, entries)
}

} // verus!
