//! What can be told of a PDF from its metadata and its opening text.
//!
//! The text itself comes from elsewhere; here it is tidied, and the output of
//! the tools that read it is understood.

use lopdf::{Dictionary, Document};
use crate::config::ExtractConfig;
use crate::metadata;
use crate::naming;
use crate::number;
use crate::number::parse_count;
use crate::paths;
use crate::paths::{join_paths, name_of};
use crate::pdf;
use crate::pdf::{Item, as_str, get_entry, get_pages, referred_dictionary};
use crate::scan;
use crate::scan::blake3_hex;
use crate::text;
use crate::text::{Class, chars_of, collapse, control, copy_range, position, same, split_chars, text_of, trim_chars, white};
use crate::types::{DigestView, Probe, ProbeView};
use vstd::prelude::*;

verus! {

// ---------------------------------------------------------------------------
// Text
// ---------------------------------------------------------------------------

/// Control characters survive bad extraction and are dropped; white space is
/// not, whatever else it is.
pub open spec fn is_kept(c: char) -> bool {
    text::is_white(c) || !text::is_control(c)
}

pub open spec fn kept_chars(s: Seq<char>) -> Seq<char>
    decreases s.len(),
{
    if s.len() == 0 {
        seq![]
    } else {
        let before = kept_chars(s.drop_last());
        if is_kept(s.last()) {
            before.push(s.last())
        } else {
            before
        }
    }
}

/// A text cut to a number of characters, without a blank left dangling by the
/// cut.
pub open spec fn cut(s: Seq<char>, max_chars: usize) -> Seq<char> {
    if s.len() <= max_chars {
        s
    } else if max_chars > 0 && s[max_chars - 1] == ' ' {
        s.take(max_chars - 1)
    } else {
        s.take(max_chars as int)
    }
}

/// White space collapsed, control characters dropped, and cut.
pub open spec fn condensed(s: Seq<char>, max_chars: usize) -> Seq<char> {
    cut(text::collapsed(kept_chars(s)), max_chars)
}

/// Collapse white space and truncate on a character boundary.
pub fn condense(text: &str, max_chars: usize) -> (r: String)
    ensures
        r@ == condensed(text@, max_chars),
        r@.len() <= max_chars,
{
    let s = chars_of(text);
    let mut kept: Vec<char> = Vec::new();
    let mut i: usize = 0;
    assert(s@.take(0) =~= Seq::<char>::empty());
    while i < s.len()
        invariant
            s@ == text@,
            i <= s@.len(),
            kept@ == kept_chars(s@.take(i as int)),
        decreases s@.len() - i,
    {
        assert(s@.take(i + 1).drop_last() =~= s@.take(i as int));
        let c = s[i];
        if white(c) || !control(c) {
            kept.push(c);
        }
        i = i + 1;
    }
    assert(s@.take(i as int) =~= s@);
    let full = collapse(kept.as_slice());
    if full.len() <= max_chars {
        return text_of(full.as_slice());
    }
    let end: usize = if max_chars > 0 && full[max_chars - 1] == ' ' {
        max_chars - 1
    } else {
        max_chars
    };
    let part = copy_range(full.as_slice(), 0, end);
    assert(part@ =~= full@.take(end as int));
    text_of(part.as_slice())
}

/// Whether white space stands in a text only as single blanks between other
/// characters.
pub open spec fn is_tidy(s: Seq<char>) -> bool {
    forall|i: int|
        0 <= i < s.len() && text::is_white(#[trigger] s[i]) ==> s[i] == ' ' && 0 < i < s.len() - 1
            && !text::is_white(s[i - 1]) && !text::is_white(s[i + 1])
}

proof fn lemma_joined_tidy(parts: Seq<Seq<char>>)
    requires
        forall|k: int| 0 <= k < parts.len() ==> (#[trigger] parts[k]).len() > 0,
        forall|k: int, j: int|
            0 <= k < parts.len() && 0 <= j < parts[k].len() ==> !text::is_white(
                #[trigger] parts[k][j],
            ),
    ensures
        is_tidy(text::joined(parts, seq![' '])),
        parts.len() > 0 ==> text::joined(parts, seq![' ']).len() > 0,
    decreases parts.len(),
{
    if parts.len() > 1 {
        let front = parts.drop_last();
        assert forall|k: int, j: int|
            0 <= k < front.len() && 0 <= j < front[k].len() implies !text::is_white(
            #[trigger] front[k][j],
        ) by {
            assert(front[k][j] == parts[k][j]);
        }
        lemma_joined_tidy(front);
        let head = text::joined(front, seq![' ']);
        let all = text::joined(parts, seq![' ']);
        let last = parts.last();
        let n = head.len() as int;
        assert(all =~= head + seq![' '] + last);
        assert(last == parts[parts.len() - 1]);
        assert(!text::is_white(head[n - 1]));
        assert forall|i: int| 0 <= i < all.len() && text::is_white(#[trigger] all[i]) implies all[i]
            == ' ' && 0 < i < all.len() - 1 && !text::is_white(all[i - 1]) && !text::is_white(
            all[i + 1],
        ) by {
            if i < n {
                assert(all[i] == head[i]);
                assert(text::is_white(head[i]));
                assert(all[i - 1] == head[i - 1] && all[i + 1] == head[i + 1]);
            } else if i == n {
                assert(all[i - 1] == head[n - 1]);
                assert(all[i + 1] == last[0]);
                assert(!text::is_white(parts[parts.len() - 1][0]));
            } else {
                assert(all[i] == parts[parts.len() - 1][i - n - 1]);
            }
        }
    } else if parts.len() == 1 {
        let all = text::joined(parts, seq![' ']);
        assert(all =~= parts[0]);
        assert forall|i: int| 0 <= i < all.len() && text::is_white(#[trigger] all[i]) implies all[i]
            == ' ' && 0 < i < all.len() - 1 && !text::is_white(all[i - 1]) && !text::is_white(
            all[i + 1],
        ) by {
            assert(all[i] == parts[0][i]);
        }
    }
}

proof fn lemma_kept(s: Seq<char>, c: char)
    requires
        kept_chars(s).contains(c),
    ensures
        is_kept(c),
    decreases s.len(),
{
    if s.len() > 0 {
        let before = kept_chars(s.drop_last());
        let i = choose|i: int| 0 <= i < kept_chars(s).len() && kept_chars(s)[i] == c;
        if i < before.len() {
            assert(before[i] == c);
            lemma_kept(s.drop_last(), c);
        }
    }
}

/// A condensed text is no longer than was asked for, holds no control character,
/// and no white space but single blanks between other characters.
pub proof fn condensed_texts_are_tidy(s: Seq<char>, max_chars: usize)
    ensures
        condensed(s, max_chars).len() <= max_chars,
        is_tidy(condensed(s, max_chars)),
        forall|i: int|
            0 <= i < condensed(s, max_chars).len() ==> !text::is_control(
                #[trigger] condensed(s, max_chars)[i],
            ),
{
    let kept = kept_chars(s);
    let full = text::collapsed(kept);
    let r = condensed(s, max_chars);
    text::lemma_words(kept);
    lemma_joined_tidy(text::words(kept));
    text::lemma_collapsed_chars(kept);
    assert forall|i: int| 0 <= i < r.len() implies !text::is_control(#[trigger] r[i]) by {
        assert(r[i] == full[i]);
        if full[i] != ' ' {
            lemma_kept(s, full[i]);
        }
    }
    assert forall|i: int| 0 <= i < r.len() && text::is_white(#[trigger] r[i]) implies r[i] == ' '
        && 0 < i < r.len() - 1 && !text::is_white(r[i - 1]) && !text::is_white(r[i + 1]) by {
        assert(r[i] == full[i]);
        assert(r[i - 1] == full[i - 1]);
        if i == r.len() - 1 && r.len() < full.len() {
            if r.len() == max_chars - 1 {
                assert(full[max_chars - 1] == ' ');
                assert(text::is_white(full[max_chars - 1]));
            }
        } else {
            assert(r[i + 1] == full[i + 1]);
        }
    }
}

/// A text condensed to fewer characters begins the same text condensed to more.
pub proof fn shorter_cuts_are_prefixes(s: Seq<char>, few: usize, many: usize)
    requires
        few <= many,
    ensures
        condensed(s, few).is_prefix_of(condensed(s, many)),
{
    let full = text::collapsed(kept_chars(s));
    if few == many - 1 && full.len() > many && full[many - 1] == ' ' {
        assert(condensed(s, many) =~= full.take(few as int));
    }
    assert(condensed(s, few) =~= condensed(s, many).take(condensed(s, few).len() as int));
}

/// A text that is cut loses nothing but what does not fit, and a blank at the cut.
pub proof fn cuts_keep_what_fits(s: Seq<char>, few: usize, many: usize)
    requires
        few < condensed(s, many).len(),
        few > 0,
    ensures
        condensed(s, few).len() == few || condensed(s, few).len() == few - 1,
        condensed(s, few).len() == few - 1 ==> condensed(s, many)[few - 1] == ' ',
        condensed(s, few) == condensed(s, many).take(condensed(s, few).len() as int),
{
    let full = text::collapsed(kept_chars(s));
    assert(condensed(s, few) =~= condensed(s, many).take(condensed(s, few).len() as int));
}

/// Where the characters of a text stand that are not white space.
pub open spec fn telling_places(s: Seq<char>) -> Set<int> {
    Set::new(|i: int| 0 <= i < s.len() && !text::is_white(s[i]))
}

proof fn lemma_telling_places(s: Seq<char>)
    ensures
        telling_places(s).finite(),
        telling_places(s).len() == meaningful(s),
    decreases s.len(),
{
    if s.len() == 0 {
        assert(telling_places(s) =~= Set::empty());
    } else {
        let front = s.drop_last();
        lemma_telling_places(front);
        if text::is_white(s.last()) {
            assert(telling_places(s) =~= telling_places(front));
        } else {
            assert(telling_places(s) =~= telling_places(front).insert(s.len() - 1));
        }
    }
}

/// The characters that carry meaning: those that are not white space.
pub open spec fn meaningful(s: Seq<char>) -> nat
    decreases s.len(),
{
    if s.len() == 0 {
        0
    } else {
        meaningful(s.drop_last()) + (if text::is_white(s.last()) {
            0nat
        } else {
            1nat
        })
    }
}

/// Count the characters that carry meaning.
pub fn count_meaningful(text: &str) -> (r: usize)
    ensures
        r == meaningful(text@),
{
    let s = chars_of(text);
    let mut n: usize = 0;
    let mut i: usize = 0;
    assert(s@.take(0) =~= Seq::<char>::empty());
    while i < s.len()
        invariant
            s@ == text@,
            i <= s@.len(),
            n <= i,
            n == meaningful(s@.take(i as int)),
        decreases s@.len() - i,
    {
        assert(s@.take(i + 1).drop_last() =~= s@.take(i as int));
        if !white(s[i]) {
            n = n + 1;
        }
        i = i + 1;
    }
    assert(s@.take(i as int) =~= s@);
    n
}

// ---------------------------------------------------------------------------
// Metadata
// ---------------------------------------------------------------------------

/// What a PDF says of itself.
pub struct PdfInfo {
    pub title: Option<String>,
    pub author: Option<String>,
    pub subject: Option<String>,
    pub creator: Option<String>,
    pub pages: Option<usize>,
}

pub struct PdfInfoView {
    pub title: Option<Seq<char>>,
    pub author: Option<Seq<char>>,
    pub subject: Option<Seq<char>>,
    pub creator: Option<Seq<char>>,
    pub pages: Option<usize>,
}

impl View for PdfInfo {
    type V = PdfInfoView;

    open spec fn view(&self) -> PdfInfoView {
        PdfInfoView {
            title: text::opt_text(self.title),
            author: text::opt_text(self.author),
            subject: text::opt_text(self.subject),
            creator: text::opt_text(self.creator),
            pages: self.pages,
        }
    }
}

pub open spec fn no_info() -> PdfInfoView {
    PdfInfoView { title: None, author: None, subject: None, creator: None, pages: None }
}

/// A line of `pdfinfo` output: a key, a colon and a value, each trimmed.
pub open spec fn keyed(line: Seq<char>) -> Option<(Seq<char>, Seq<char>)> {
    match text::found(line, ":"@, 0) {
        Some(at) => Some((text::trim(line.take(at)), text::trim(line.skip(at + 1)))),
        None => None,
    }
}

pub open spec fn counted(value: Seq<char>) -> Option<usize> {
    match number::read_count(value) {
        Some(n) => Some(n as usize),
        None => None,
    }
}

/// What is known after one more line. A line without a value says nothing.
pub open spec fn with_line(info: PdfInfoView, line: Seq<char>) -> PdfInfoView {
    match keyed(line) {
        Some((key, value)) => if value.len() == 0 {
            info
        } else if key == "Title"@ {
            PdfInfoView { title: Some(value), ..info }
        } else if key == "Author"@ {
            PdfInfoView { author: Some(value), ..info }
        } else if key == "Subject"@ {
            PdfInfoView { subject: Some(value), ..info }
        } else if key == "Creator"@ {
            PdfInfoView { creator: Some(value), ..info }
        } else if key == "Pages"@ {
            PdfInfoView { pages: counted(value), ..info }
        } else {
            info
        },
        None => info,
    }
}

pub open spec fn from_lines(lines: Seq<Seq<char>>) -> PdfInfoView
    decreases lines.len(),
{
    if lines.len() == 0 {
        no_info()
    } else {
        with_line(from_lines(lines.drop_last()), lines.last())
    }
}

fn take_line(info: &mut PdfInfo, line: &[char])
    ensures
        final(info)@ == with_line(old(info)@, line@),
{
    let colon = chars_of(":");
    proof {
        reveal_strlit(":");
    }
    let total: usize = line.len();
    let at: usize = match position(line, colon.as_slice(), 0) {
        Some(at) => at,
        None => {
            return;
        },
    };
    assert(at + 1 <= total);
    let left = copy_range(line, 0, at);
    assert(left@ =~= line@.take(at as int));
    let right = copy_range(line, at + 1, total);
    assert(right@ =~= line@.skip(at + 1));
    let key = text_of(trim_chars(left.as_slice(), Class::White).as_slice());
    let value = trim_chars(right.as_slice(), Class::White);
    if value.len() == 0 {
        return;
    }
    let said = text_of(value.as_slice());
    if same(key.as_str(), "Title") {
        info.title = Some(said);
    } else if same(key.as_str(), "Author") {
        info.author = Some(said);
    } else if same(key.as_str(), "Subject") {
        info.subject = Some(said);
    } else if same(key.as_str(), "Creator") {
        info.creator = Some(said);
    } else if same(key.as_str(), "Pages") {
        info.pages = parse_count(value.as_slice());
    }
}

/// Whether a line gives a key a value.
pub open spec fn gives(line: Seq<char>, key: Seq<char>, value: Seq<char>) -> bool {
    keyed(line) == Some((key, value)) && value.len() > 0
}

/// Whether no line from a place on gives a key a value.
pub open spec fn is_last_word(lines: Seq<Seq<char>>, from: int, key: Seq<char>) -> bool {
    forall|j: int, w: Seq<char>| from <= j < lines.len() ==> !(#[trigger] gives(lines[j], key, w))
}

proof fn lemma_info_keys()
    ensures
        "Title"@ != "Author"@,
        "Title"@ != "Subject"@,
        "Title"@ != "Creator"@,
        "Title"@ != "Pages"@,
        "Author"@ != "Subject"@,
        "Author"@ != "Creator"@,
        "Author"@ != "Pages"@,
        "Subject"@ != "Creator"@,
        "Subject"@ != "Pages"@,
        "Creator"@ != "Pages"@,
{
    reveal_strlit("Title");
    reveal_strlit("Author");
    reveal_strlit("Subject");
    reveal_strlit("Creator");
    reveal_strlit("Pages");
    assert("Title"@[0] == 'T' && "Author"@[0] == 'A' && "Subject"@[0] == 'S');
    assert("Creator"@[0] == 'C' && "Pages"@[0] == 'P');
}

/// Of the lines that give a key a value, the last one counts: for the title, the
/// author, the subject, the creator and the number of pages.
pub proof fn the_last_line_of_a_key_counts(
    lines: Seq<Seq<char>>,
    i: int,
    key: Seq<char>,
    value: Seq<char>,
)
    requires
        0 <= i < lines.len(),
        gives(lines[i], key, value),
        is_last_word(lines, i + 1, key),
    ensures
        key == "Title"@ ==> from_lines(lines).title == Some(value),
        key == "Author"@ ==> from_lines(lines).author == Some(value),
        key == "Subject"@ ==> from_lines(lines).subject == Some(value),
        key == "Creator"@ ==> from_lines(lines).creator == Some(value),
        key == "Pages"@ ==> from_lines(lines).pages == counted(value),
    decreases lines.len(),
{
    lemma_info_keys();
    if i < lines.len() - 1 {
        let front = lines.drop_last();
        let last = lines.last();
        assert forall|j: int, w: Seq<char>| i + 1 <= j < front.len() implies !(#[trigger] gives(
            front[j],
            key,
            w,
        )) by {
            assert(!gives(lines[j], key, w));
        }
        the_last_line_of_a_key_counts(front, i, key, value);
        if let Some((k, w)) = keyed(last) {
            assert(!gives(lines[lines.len() - 1], key, w));
        }
    }
}

/// Understand the output of `pdfinfo`.
pub fn read_info(output: &str) -> (r: PdfInfo)
    ensures
        r@ == from_lines(text::split(output@, '\n')),
{
    let s = chars_of(output);
    let lines = split_chars(s.as_slice(), '\n');
    let ghost all = text::char_lists(lines@);
    let mut info = PdfInfo {
        title: None,
        author: None,
        subject: None,
        creator: None,
        pages: None,
    };
    let mut i: usize = 0;
    assert(all.take(0) =~= Seq::<Seq<char>>::empty());
    while i < lines.len()
        invariant
            all == text::char_lists(lines@),
            i <= lines@.len(),
            info@ == from_lines(all.take(i as int)),
        decreases lines@.len() - i,
    {
        assert(all.take(i + 1).drop_last() =~= all.take(i as int));
        assert(all.take(i + 1).last() == lines@[i as int]@);
        take_line(&mut info, lines[i].as_slice());
        i = i + 1;
    }
    assert(all.take(i as int) =~= all);
    info
}

/// Bytes read as text, with a mark in place of whatever is no text.
pub uninterp spec fn lossy_text(bytes: Seq<u8>) -> Seq<char>;

/// `String::from_utf8_lossy` of `std`: bytes that are UTF-8 give the text that
/// they encode. Nothing is said of where the marks stand for other bytes.
#[verifier::external_body]
fn read_lossy(bytes: &Vec<u8>) -> (r: String)
    ensures
        r@ == lossy_text(bytes@),
        vstd::utf8::valid_utf8(bytes@) ==> r@ == vstd::utf8::decode_utf8(bytes@),
{
    String::from_utf8_lossy(bytes).into_owned()
}

/// The text that a dictionary holds under a key, if it holds a string.
pub open spec fn field_text(entries: Map<Seq<char>, Item>, key: Seq<char>) -> Option<Seq<char>> {
    match pdf::held(entries, key) {
        Some(Item::Text(bytes)) => Some(lossy_text(bytes)),
        _ => None,
    }
}

fn text_field(d: &Dictionary, key: &str) -> (r: Option<String>)
    ensures
        text::opt_text(r) == field_text(pdf::entries_of(*d), key@),
{
    match get_entry(d, key) {
        Some(o) => match as_str(o) {
            Some(bytes) => Some(read_lossy(&bytes)),
            None => None,
        },
        None => None,
    }
}

/// What a loaded document says of itself.
pub open spec fn document_info(doc: Document) -> PdfInfoView {
    let pages = Some(pdf::pages_of(doc).len() as usize);
    match pdf::referred(pdf::objects_of(doc), pdf::trailer_of(doc), "Info"@) {
        Some(m) => PdfInfoView {
            title: field_text(m, "Title"@),
            author: field_text(m, "Author"@),
            subject: field_text(m, "Subject"@),
            creator: field_text(m, "Creator"@),
            pages,
        },
        None => PdfInfoView { pages, ..no_info() },
    }
}

/// What a document was stamped with can be read out of it again: its title and its
/// author.
pub proof fn what_is_stamped_can_be_read(before: Document, after: Document, d: DigestView)
    requires
        metadata::is_stamped(before, after, d, true),
        pdf::max_id_of(before) < u32::MAX,
    ensures
        !naming::says_nothing(d.title) ==> document_info(after).title == Some(
            lossy_text(vstd::utf8::encode_utf8(d.title)),
        ),
        !naming::says_nothing(d.publisher) ==> document_info(after).author == Some(
            lossy_text(vstd::utf8::encode_utf8(d.publisher)),
        ),
        text::trim(d.summary).len() > 0 ==> document_info(after).subject == Some(
            lossy_text(vstd::utf8::encode_utf8(d.summary)),
        ),
{
    metadata::what_is_known_is_written(before, after, d, true);
}

/// Metadata-only fallback when poppler is not installed.
pub fn read_info_lopdf(doc: &Document) -> (r: PdfInfo)
    ensures
        r@ == document_info(*doc),
{
    let pages = Some(get_pages(doc).len());
    match referred_dictionary(doc, "Info") {
        Some(d) => PdfInfo {
            title: text_field(d, "Title"),
            author: text_field(d, "Author"),
            subject: text_field(d, "Subject"),
            creator: text_field(d, "Creator"),
            pages,
        },
        None => PdfInfo { title: None, author: None, subject: None, creator: None, pages },
    }
}

/// What is known of a document, from its path, its metadata and its raw text.
pub open spec fn probed(
    path: Seq<char>,
    info: PdfInfoView,
    raw: Seq<char>,
    max_chars: usize,
    scanned_threshold: usize,
) -> ProbeView {
    let text = condensed(raw, max_chars);
    ProbeView {
        file_name: match paths::file_name(path) {
            Some(name) => name,
            None => seq![],
        },
        pdf_title: info.title,
        pdf_author: info.author,
        pdf_subject: info.subject,
        pdf_creator: info.creator,
        page_count: info.pages,
        text,
        scanned: meaningful(raw) < scanned_threshold,
    }
}

/// Put together what is known of a document. It counts as a scan if its text,
/// before any of it is cut off, has too few characters that carry meaning:
/// counting the blanks between words would let a page with two lines of
/// copyright boilerplate pass.
pub fn probe(path: &str, info: PdfInfo, raw: &str, cfg: &ExtractConfig) -> (r: Probe)
    ensures
        r@ == probed(path@, info@, raw@, cfg.max_chars, cfg.scanned_threshold),
        r.scanned <==> telling_places(raw@).len() < cfg.scanned_threshold,
        r@.pdf_title == info@.title,
        r@.pdf_author == info@.author,
        r@.pdf_subject == info@.subject,
        r@.pdf_creator == info@.creator,
        r@.page_count == info@.pages,
{
    proof {
        lemma_telling_places(raw@);
    }
    let text = condense(raw, cfg.max_chars);
    let scanned = count_meaningful(raw) < cfg.scanned_threshold;
    let file_name = match name_of(path) {
        Some(name) => name,
        None => String::new(),
    };
    assert(file_name@ =~= match paths::file_name(path@) {
        Some(name) => name,
        None => seq![],
    });
    Probe {
        file_name,
        pdf_title: info.title,
        pdf_author: info.author,
        pdf_subject: info.subject,
        pdf_creator: info.creator,
        page_count: info.pages,
        text,
        scanned,
    }
}

// ---------------------------------------------------------------------------
// Renders
// ---------------------------------------------------------------------------

/// The name of a render: the start of the hash of the path it was made from, so
/// a second run overwrites rather than piles up.
pub open spec fn render_name(path: Seq<char>) -> Seq<char> {
    scan::blake3_text(vstd::utf8::encode_utf8(path)).take(16)
}

/// Where the render of a document's first page goes, without its extension.
pub fn render_prefix(path: &str, out_dir: &str) -> (r: String)
    ensures
        r@ == paths::join(out_dir@, render_name(path@)),
{
    let hex = chars_of(blake3_hex(path.as_bytes()).as_str());
    let stem = copy_range(hex.as_slice(), 0, 16);
    assert(stem@ =~= render_name(path@));
    join_paths(out_dir, text_of(stem.as_slice()).as_str())
}

} // verus!
