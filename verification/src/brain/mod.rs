//! The pluggable "understanding" layer.
//!
//! Every backend does the same jobs: describe a document, design a taxonomy
//! for the corpus, and file a document into it. The heuristic backend does it
//! with rules; a model backend does it with prompts and grammars.

pub mod engine;
pub mod heuristic;
pub mod llama;
pub mod prompt;

use crate::config::TaxonomyConfig;
use crate::text;
use crate::text::{chars_of, own};
use crate::types;
use crate::types::{Digest, DigestView, Probe, ProbeView, Taxonomy};
use vstd::prelude::*;
use vstd::string::StrSliceExecFns;

verus! {

/// A filing decision for one document.
pub struct Filing {
    pub folder: String,
    pub confidence: u32,
    pub reason: String,
}

pub struct FilingView {
    pub folder: Seq<char>,
    pub confidence: u32,
    pub reason: Seq<char>,
}

impl View for Filing {
    type V = FilingView;

    open spec fn view(&self) -> FilingView {
        FilingView { folder: self.folder@, confidence: self.confidence, reason: self.reason@ }
    }
}

/// What a backend extracts from a single document, before path/hash are attached.
pub struct DigestFields {
    pub title: String,
    pub game_system: String,
    pub doc_type: String,
    pub setting: String,
    pub level_range: String,
    pub publisher: String,
    pub topics: Vec<String>,
    pub summary: String,
    pub confidence: u32,
}

pub struct DigestFieldsView {
    pub title: Seq<char>,
    pub game_system: Seq<char>,
    pub doc_type: Seq<char>,
    pub setting: Seq<char>,
    pub level_range: Seq<char>,
    pub publisher: Seq<char>,
    pub topics: Seq<Seq<char>>,
    pub summary: Seq<char>,
    pub confidence: u32,
}

impl View for DigestFields {
    type V = DigestFieldsView;

    open spec fn view(&self) -> DigestFieldsView {
        DigestFieldsView {
            title: self.title@,
            game_system: self.game_system@,
            doc_type: self.doc_type@,
            setting: self.setting@,
            level_range: self.level_range@,
            publisher: self.publisher@,
            topics: text::texts(self.topics@),
            summary: self.summary@,
            confidence: self.confidence,
        }
    }
}

/// One heading a backend chose: its line number and its level.
#[derive(Clone, Copy)]
pub struct Selection {
    pub i: usize,
    pub l: usize,
}

/// What a field holds when nobody could tell.
pub fn unknown() -> (r: String)
    ensures
        r@ == "unknown"@,
{
    own("unknown")
}

/// What a backend extracted, or why it could not.
pub open spec fn fields_reply(r: Result<DigestFields, String>) -> Result<
    DigestFieldsView,
    Seq<char>,
> {
    match r {
        Ok(fields) => Ok(fields@),
        Err(why) => Err(why@),
    }
}

/// The folder a backend chose, or why it could not.
pub open spec fn filing_reply(r: Result<Filing, String>) -> Result<FilingView, Seq<char>> {
    match r {
        Ok(filing) => Ok(filing@),
        Err(why) => Err(why@),
    }
}

/// Numbered heading lines with their pages, as text and numbers.
pub open spec fn line_views(lines: Seq<(usize, String, usize)>) -> Seq<(usize, Seq<char>, usize)> {
    Seq::new(lines.len(), |i: int| (lines[i].0, lines[i].1@, lines[i].2))
}

/// A backend. A failure is the text that explains it.
///
/// What a backend answers is its own affair. It may say with a relation for each
/// job how a question, its state before and its state after go with an answer.
/// Nothing is asked of these relations, and one that says nothing of itself may
/// answer anything: they let a contract tell which question an answer belongs to.
pub trait Brain: Sized {
    /// Whether this is the backend's identifier.
    open spec fn is_called(&self, name: Seq<char>) -> bool {
        true
    }

    /// Whether it may describe a document so.
    open spec fn describes(
        before: Self,
        probe: ProbeView,
        after: Self,
        r: Result<DigestFieldsView, Seq<char>>,
    ) -> bool {
        true
    }

    /// Whether it may design this tree for a collection.
    open spec fn designs(
        before: Self,
        corpus: Seq<DigestView>,
        cfg: TaxonomyConfig,
        after: Self,
        r: Result<Taxonomy, String>,
    ) -> bool {
        true
    }

    /// Whether it may file a document so.
    open spec fn files(
        before: Self,
        digest: DigestView,
        taxonomy: Taxonomy,
        after: Self,
        r: Result<FilingView, Seq<char>>,
    ) -> bool {
        true
    }

    /// Whether it may judge heading lines so.
    open spec fn refines(
        before: Self,
        lines: Seq<(usize, Seq<char>, usize)>,
        max_level: usize,
        after: Self,
        r: Result<Option<Vec<(usize, usize)>>, String>,
    ) -> bool {
        true
    }

    /// Backend identifier, recorded on every digest for provenance.
    fn name(&self) -> (r: String)
        ensures
            self.is_called(r@),
    ;

    fn digest(&mut self, probe: &Probe) -> (r: Result<DigestFields, String>)
        ensures
            Self::describes(*old(self), probe@, *final(self), fields_reply(r)),
    ;

    fn design_taxonomy(&mut self, corpus: &Vec<Digest>, cfg: &TaxonomyConfig) -> (r: Result<
        Taxonomy,
        String,
    >)
        ensures
            Self::designs(*old(self), types::digest_views(corpus@), *cfg, *final(self), r),
    ;

    fn file(&mut self, digest: &Digest, taxonomy: &Taxonomy) -> (r: Result<Filing, String>)
        ensures
            Self::files(*old(self), digest@, *taxonomy, *final(self), filing_reply(r)),
    ;

    /// Choose among numbered heading lines, or `None` to leave them as they are.
    fn refine_headings(
        &mut self,
        lines: &Vec<(usize, String, usize)>,
        max_level: usize,
    ) -> (r: Result<Option<Vec<(usize, usize)>>, String>)
        ensures
            Self::refines(*old(self), line_views(lines@), max_level, *final(self), r),
    ;
}

// ---------------------------------------------------------------------------
// Finding a JSON value in a reply
// ---------------------------------------------------------------------------

/// Where a position stands with respect to JSON strings.
#[derive(Clone, Copy, PartialEq, Eq, Structural)]
pub enum Quoting {
    Outside,
    Inside,
    Escaped,
}

/// How one character changes that.
pub open spec fn after_char(q: Quoting, c: char) -> Quoting {
    match q {
        Quoting::Outside => if c == '"' {
            Quoting::Inside
        } else {
            Quoting::Outside
        },
        Quoting::Inside => if c == '\\' {
            Quoting::Escaped
        } else if c == '"' {
            Quoting::Outside
        } else {
            Quoting::Inside
        },
        Quoting::Escaped => Quoting::Inside,
    }
}

/// Where position `i` stands, reading from `from`.
pub open spec fn quoting(s: Seq<char>, from: int, i: int) -> Quoting
    decreases i - from,
{
    if i <= from {
        Quoting::Outside
    } else {
        after_char(quoting(s, from, i - 1), s[i - 1])
    }
}

/// Opening brackets less closing ones before position `i`, reading from
/// `from`, strings left aside.
pub open spec fn nesting(s: Seq<char>, from: int, i: int, open: char, close: char) -> int
    decreases i - from,
{
    if i <= from {
        0
    } else {
        let before = nesting(s, from, i - 1, open, close);
        if quoting(s, from, i - 1) != Quoting::Outside {
            before
        } else if s[i - 1] == open {
            before + 1
        } else if s[i - 1] == close {
            before - 1
        } else {
            before
        }
    }
}

pub open spec fn opens_value(c: char) -> bool {
    c == '{' || c == '['
}

pub open spec fn closer(open: char) -> char {
    if open == '{' {
        '}'
    } else {
        ']'
    }
}

/// A value starts at the first opening bracket.
pub open spec fn is_value_start(s: Seq<char>, start: int) -> bool {
    &&& 0 <= start < s.len()
    &&& opens_value(s[start])
    &&& forall|j: int| 0 <= j < start ==> !opens_value(#[trigger] s[j])
}

/// The brackets that open at `start` are balanced again before `end`, and at no
/// earlier place.
pub open spec fn is_value_end(s: Seq<char>, start: int, end: int) -> bool {
    let open = s[start];
    &&& start < end <= s.len()
    &&& nesting(s, start, end, open, closer(open)) == 0
    &&& forall|j: int|
        start < j < end ==> #[trigger] nesting(s, start, j, open, closer(open)) != 0
}

/// Extract the first balanced JSON value from a model response.
///
/// Grammar-constrained output should already be clean, but a backend running
/// without grammar support can still wrap it in prose or fences.
pub fn extract_json(text: &str) -> (r: Option<&str>)
    ensures
        match r {
            Some(json) => exists|start: int, end: int|
                #![trigger text@.subrange(start, end)]
                is_value_start(text@, start) && is_value_end(text@, start, end) && json@
                    == text@.subrange(start, end),
            None => forall|start: int, end: int|
                is_value_start(text@, start) ==> !#[trigger] is_value_end(text@, start, end),
        },
{
    let s = chars_of(text);
    let mut start: usize = 0;
    while start < s.len() && s[start] != '{' && s[start] != '['
        invariant
            s@ == text@,
            start <= s@.len(),
            forall|j: int| 0 <= j < start ==> !opens_value(#[trigger] s@[j]),
        decreases s@.len() - start,
    {
        start = start + 1;
    }
    if start == s.len() {
        return None;
    }
    let open = s[start];
    let close = if open == '{' {
        '}'
    } else {
        ']'
    };
    let mut depth: usize = 0;
    let mut state = Quoting::Outside;
    let mut i: usize = start;
    while i < s.len()
        invariant
            s@ == text@,
            start <= i <= s@.len(),
            start < s@.len(),
            s@.len() <= usize::MAX,
            is_value_start(s@, start as int),
            open == s@[start as int],
            close == closer(open),
            state == quoting(s@, start as int, i as int),
            depth == nesting(s@, start as int, i as int, open, close),
            depth <= i - start,
            i > start ==> depth > 0,
            i == start ==> depth == 0 && state == Quoting::Outside,
            forall|j: int|
                start < j <= i ==> #[trigger] nesting(s@, start as int, j, open, close) != 0,
        decreases s@.len() - i,
    {
        let c = s[i];
        let ghost here = i as int;
        assert(quoting(s@, start as int, here + 1) == after_char(state, c));
        match state {
            Quoting::Outside => {
                if c == '"' {
                    state = Quoting::Inside;
                } else if c == open {
                    depth = depth + 1;
                } else if c == close {
                    depth = depth - 1;
                    if depth == 0 {
                        assert(nesting(s@, start as int, here + 1, open, close) == 0);
                        assert(is_value_end(text@, start as int, here + 1));
                        let json = text.substring_char(start, i + 1);
                        assert(json@ == text@.subrange(start as int, here + 1));
                        return Some(json);
                    }
                }
            },
            Quoting::Inside => {
                if c == '\\' {
                    state = Quoting::Escaped;
                } else if c == '"' {
                    state = Quoting::Outside;
                }
            },
            Quoting::Escaped => {
                state = Quoting::Inside;
            },
        }
        i = i + 1;
    }
    proof {
        assert forall|a: int, b: int| is_value_start(text@, a) implies !#[trigger] is_value_end(
            text@,
            a,
            b,
        ) by {
            if a < start {
                assert(!opens_value(text@[a]));
            } else if a > start {
                assert(opens_value(text@[start as int]));
            }
            if is_value_end(text@, a, b) {
                assert(nesting(text@, a, b, open, close) == 0);
            }
        }
    }
    None
}

/// Reading a string leaves the nesting as it is, whatever brackets the string holds.
proof fn lemma_in_string(s: Seq<char>, from: int, a: int, n: int, open: char, close: char)
    requires
        from < a <= n <= s.len(),
        0 <= from,
        quoting(s, from, a) == Quoting::Inside,
        forall|i: int| a <= i < n ==> #[trigger] s[i] != '"' && s[i] != '\\',
    ensures
        quoting(s, from, n) == Quoting::Inside,
        nesting(s, from, n, open, close) == nesting(s, from, a, open, close),
    decreases n - a,
{
    if n > a {
        lemma_in_string(s, from, a, n - 1, open, close);
        assert(s[n - 1] != '"' && s[n - 1] != '\\');
    }
}

/// Reading what holds neither brackets nor quotes leaves the nesting as it is.
proof fn lemma_in_plain(s: Seq<char>, from: int, a: int, n: int, open: char, close: char)
    requires
        from < a <= n <= s.len(),
        0 <= from,
        quoting(s, from, a) == Quoting::Outside,
        forall|i: int|
            a <= i < n ==> #[trigger] s[i] != '"' && s[i] != open && s[i] != close,
    ensures
        quoting(s, from, n) == Quoting::Outside,
        nesting(s, from, n, open, close) == nesting(s, from, a, open, close),
    decreases n - a,
{
    if n > a {
        lemma_in_plain(s, from, a, n - 1, open, close);
        assert(s[n - 1] != '"' && s[n - 1] != open && s[n - 1] != close);
    }
}

/// An object that stands among prose is found whole, and no bracket inside a string
/// ends it: `before` holds no bracket that opens a value, `key` none at all and no
/// quote, and `value` anything but a quote or an escape.
pub proof fn brackets_in_strings_do_not_count(
    before: Seq<char>,
    key: Seq<char>,
    value: Seq<char>,
    after: Seq<char>,
)
    requires
        forall|i: int|
            0 <= i < before.len() ==> #[trigger] before[i] != '{' && before[i] != '[',
        forall|i: int|
            0 <= i < key.len() ==> #[trigger] key[i] != '"' && key[i] != '{' && key[i] != '}',
        forall|i: int| 0 <= i < value.len() ==> #[trigger] value[i] != '"' && value[i] != '\\',
    ensures
        ({
            let json = seq!['{'] + key + seq!['"'] + value + seq!['"', '}'];
            let s = before + json + after;
            &&& is_value_start(s, before.len() as int)
            &&& is_value_end(s, before.len() as int, (before.len() + json.len()) as int)
        }),
{
    let json = seq!['{'] + key + seq!['"'] + value + seq!['"', '}'];
    let s = before + json + after;
    let p = before.len() as int;
    let q = p + 1 + key.len();
    let r = q + 1 + value.len();
    let end = p + json.len();
    assert(end == r + 2);
    assert(s[p] == '{');
    assert(s[q] == '"');
    assert(s[r] == '"');
    assert(s[r + 1] == '}');
    assert forall|j: int| 0 <= j < p implies !opens_value(#[trigger] s[j]) by {
        assert(s[j] == before[j]);
    }
    assert forall|i: int| p + 1 <= i < q implies #[trigger] s[i] != '"' && s[i] != '{' && s[i]
        != '}' by {
        assert(s[i] == key[i - p - 1]);
    }
    assert forall|i: int| q + 1 <= i < r implies #[trigger] s[i] != '"' && s[i] != '\\' by {
        assert(s[i] == value[i - q - 1]);
    }
    assert(quoting(s, p, p) == Quoting::Outside);
    assert(quoting(s, p, p + 1) == Quoting::Outside);
    assert(nesting(s, p, p, '{', '}') == 0);
    assert(nesting(s, p, p + 1, '{', '}') == 1);
    lemma_in_plain(s, p, p + 1, q, '{', '}');
    assert(quoting(s, p, q + 1) == Quoting::Inside);
    assert(nesting(s, p, q + 1, '{', '}') == 1);
    lemma_in_string(s, p, q + 1, r, '{', '}');
    assert(quoting(s, p, r + 1) == Quoting::Outside);
    assert(nesting(s, p, r + 1, '{', '}') == 1);
    assert(nesting(s, p, end, '{', '}') == 0);
    assert forall|j: int| p < j < end implies #[trigger] nesting(s, p, j, '{', '}') != 0 by {
        if j <= q {
            lemma_in_plain(s, p, p + 1, j, '{', '}');
        } else if j <= r {
            lemma_in_string(s, p, q + 1, j, '{', '}');
        }
    }
}

} // verus!
