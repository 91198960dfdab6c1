//! Stamping what the model worked out back into the PDF itself.
//!
//! A tidy folder tree lives only in this tool's head: copy a file elsewhere and
//! the knowledge is gone. Writing the title, author and subject into the PDF's
//! own Info dictionary makes it travel with the document — every reader, every
//! file manager and every future run of this tool can see it.
//!
//! This rewrites the file, so it is only ever safe on a private copy. See
//! [`may_write`].

use lopdf::{Dictionary, Document};
use crate::float;
use crate::float::{from_whole, multiply, to_whole};
use crate::naming;
use crate::naming::is_unknown;
use crate::number;
use crate::number::decimal;
use crate::pdf;
use crate::pdf::{Item, add_object, as_str, clone_dictionary, dictionary, get_entry, max_id, new_dictionary, reference, referred_dictionary, set_entry, set_trailer, string_literal};
use crate::text;
use crate::text::{join_texts, own, same, trim_text};
use crate::types::{Digest, DigestView, LinkMode};
use vstd::prelude::*;
use vstd::string::StringExecFns;

verus! {

pub const NOT_THROUGH_A_HARD_LINK: &'static str =
    "--write-metadata cannot be used with --mode hardlink.\n\
A hard link is the same file as the original, so stamping it would rewrite the \
source PDFs in place. Re-plan with --mode copy, or --mode move if the originals \
are meant to become the library.";

pub const NOT_THROUGH_A_SYMLINK: &'static str =
    "--write-metadata cannot be used with --mode symlink.\n\
A symlink points at the original, so stamping it would rewrite the source PDF. \
Re-plan with --mode copy, or --mode move if the originals are meant to become \
the library.";

/// Whether stamping metadata is allowed in this link mode.
///
/// Never through a link. A hard link is the same inode as the original and a
/// symlink points straight at it, so stamping either rewrites the source PDF in
/// place — silently editing a library the user asked us only to read.
///
/// `copy` and `move` both yield a file that is the user's to change: a copy is
/// private to the library, and a move has taken the original out of the source
/// tree on purpose.
pub fn may_write(mode: LinkMode) -> (r: Result<(), String>)
    ensures
        match mode {
            LinkMode::Copy | LinkMode::Move => r is Ok,
            LinkMode::Hardlink => r matches Err(why) && why@ == NOT_THROUGH_A_HARD_LINK@,
            LinkMode::Symlink => r matches Err(why) && why@ == NOT_THROUGH_A_SYMLINK@,
        },
{
    match mode {
        LinkMode::Copy | LinkMode::Move => Ok(()),
        LinkMode::Hardlink => Err(own(NOT_THROUGH_A_HARD_LINK)),
        LinkMode::Symlink => Err(own(NOT_THROUGH_A_SYMLINK)),
    }
}

// ---------------------------------------------------------------------------
// What to write
// ---------------------------------------------------------------------------

/// The items of a list that say something.
pub open spec fn telling(list: Seq<Seq<char>>) -> Seq<Seq<char>>
    decreases list.len(),
{
    if list.len() == 0 {
        seq![]
    } else {
        let before = telling(list.drop_last());
        if naming::says_nothing(list.last()) {
            before
        } else {
            before.push(list.last())
        }
    }
}

/// A list without items that equal the one before them.
pub open spec fn without_adjacent(list: Seq<Seq<char>>) -> Seq<Seq<char>>
    decreases list.len(),
{
    if list.len() == 0 {
        seq![]
    } else {
        let before = without_adjacent(list.drop_last());
        if before.len() > 0 && before.last() == list.last() {
            before
        } else {
            before.push(list.last())
        }
    }
}

/// Keywords carry the facts a search would want but no standard field holds:
/// system, type, setting and level range, alongside the model's own topics.
pub open spec fn keywords(d: DigestView) -> Seq<Seq<char>> {
    without_adjacent(
        telling(seq![d.game_system, d.doc_type, d.setting, d.level_range] + d.topics),
    )
}

pub open spec fn field_if(wanted: bool, key: Seq<char>, value: Seq<char>) -> Seq<
    (Seq<char>, Seq<char>),
> {
    if wanted {
        seq![(key, value)]
    } else {
        seq![]
    }
}

/// What gets written into the PDF's Info dictionary.
pub open spec fn fields_of(d: DigestView) -> Seq<(Seq<char>, Seq<char>)> {
    field_if(!naming::says_nothing(d.title), "Title"@, d.title) + field_if(
        !naming::says_nothing(d.publisher),
        "Author"@,
        d.publisher,
    ) + field_if(text::trim(d.summary).len() > 0, "Subject"@, d.summary) + field_if(
        keywords(d).len() > 0,
        "Keywords"@,
        text::joined(keywords(d), ", "@),
    )
}

pub open spec fn field_texts(v: Seq<(&'static str, String)>) -> Seq<(Seq<char>, Seq<char>)> {
    Seq::new(v.len(), |i: int| (v[i].0@, v[i].1@))
}

/// Add a keyword, unless it says nothing or repeats the one before it.
fn add_keyword(out: &mut Vec<String>, word: &String, Ghost(list): Ghost<Seq<Seq<char>>>)
    requires
        text::texts(old(out)@) == without_adjacent(telling(list)),
    ensures
        text::texts(final(out)@) == without_adjacent(telling(list.push(word@))),
{
    let ghost before = telling(list);
    assert(list.push(word@).drop_last() =~= list);
    if is_unknown(word.as_str()) {
        return;
    }
    assert(before.push(word@).drop_last() =~= before);
    let n: usize = out.len();
    if n > 0 {
        assert(text::texts(out@).last() == out@[n - 1]@);
    }
    if n > 0 && same(out[n - 1].as_str(), word.as_str()) {
        return;
    }
    let ghost start = out@;
    out.push(word.clone());
    assert(text::texts(out@) =~= text::texts(start).push(word@));
}

fn keywords_of(digest: &Digest) -> (r: Vec<String>)
    ensures
        text::texts(r@) == keywords(digest@),
{
    let mut out: Vec<String> = Vec::new();
    let ghost none = Seq::<Seq<char>>::empty();
    let ghost a = none.push(digest.game_system@);
    let ghost b = a.push(digest.doc_type@);
    let ghost c = b.push(digest.setting@);
    let ghost facts = c.push(digest.level_range@);
    assert(text::texts(out@) =~= without_adjacent(telling(none)));
    add_keyword(&mut out, &digest.game_system, Ghost(none));
    add_keyword(&mut out, &digest.doc_type, Ghost(a));
    add_keyword(&mut out, &digest.setting, Ghost(b));
    add_keyword(&mut out, &digest.level_range, Ghost(c));
    let ghost topics = text::texts(digest.topics@);
    assert(facts + topics.take(0) =~= facts);
    let mut i: usize = 0;
    while i < digest.topics.len()
        invariant
            i <= digest.topics@.len(),
            topics == text::texts(digest.topics@),
            text::texts(out@) == without_adjacent(telling(facts + topics.take(i as int))),
        decreases digest.topics@.len() - i,
    {
        add_keyword(&mut out, &digest.topics[i], Ghost(facts + topics.take(i as int)));
        assert((facts + topics.take(i as int)).push(topics[i as int]) =~= facts + topics.take(
            i + 1,
        ));
        i = i + 1;
    }
    assert(facts + topics.take(i as int) =~= seq![
        digest.game_system@,
        digest.doc_type@,
        digest.setting@,
        digest.level_range@,
    ] + topics);
    out
}

/// What gets written into the PDF's Info dictionary.
pub fn entries(digest: &Digest) -> (r: Vec<(&'static str, String)>)
    ensures
        field_texts(r@) == fields_of(digest@),
{
    let mut out: Vec<(&'static str, String)> = Vec::new();
    let ghost d = digest@;
    let ghost f1 = field_if(!naming::says_nothing(d.title), "Title"@, d.title);
    let ghost f2 = field_if(!naming::says_nothing(d.publisher), "Author"@, d.publisher);
    let ghost f3 = field_if(text::trim(d.summary).len() > 0, "Subject"@, d.summary);
    if !is_unknown(digest.title.as_str()) {
        out.push(("Title", digest.title.clone()));
    }
    assert(field_texts(out@) =~= f1);
    if !is_unknown(digest.publisher.as_str()) {
        out.push(("Author", digest.publisher.clone()));
    }
    assert(field_texts(out@) =~= f1 + f2);
    if !trim_text(digest.summary.as_str()).as_str().is_empty() {
        out.push(("Subject", digest.summary.clone()));
    }
    assert(field_texts(out@) =~= f1 + f2 + f3);
    let words = keywords_of(digest);
    assert(text::texts(words@).len() == words@.len());
    if words.len() > 0 {
        out.push(("Keywords", join_texts(&words, ", ")));
    }
    assert(field_texts(out@) =~= fields_of(d));
    out
}

// ---------------------------------------------------------------------------
// Writing it
// ---------------------------------------------------------------------------

/// Whether a field already holds something.
pub open spec fn occupied(info: Map<Seq<char>, Item>, key: Seq<char>) -> bool {
    pdf::held(info, key) matches Some(Item::Text(bytes)) && bytes.len() > 0
}

/// The Info dictionary after some fields are offered to it, and the names of
/// those that it took. An occupied field is left as it is, unless it may be
/// overwritten.
pub open spec fn stamped(
    info: Map<Seq<char>, Item>,
    fields: Seq<(Seq<char>, Seq<char>)>,
    overwrite: bool,
) -> (Map<Seq<char>, Item>, Seq<Seq<char>>)
    decreases fields.len(),
{
    if fields.len() == 0 {
        (info, seq![])
    } else {
        let (before, written) = stamped(info, fields.drop_last(), overwrite);
        let (key, value) = fields.last();
        if occupied(before, key) && !overwrite {
            (before, written)
        } else {
            (before.insert(key, Item::Text(vstd::utf8::encode_utf8(value))), written.push(key))
        }
    }
}

/// What an Info dictionary holds once some of its fields have been written: also
/// who did this, so a later run can tell a stamped file from an untouched one
/// without guessing.
pub open spec fn signed(info: Map<Seq<char>, Item>) -> Map<Seq<char>, Item> {
    info.insert("Producer"@, Item::Text(vstd::utf8::encode_utf8("sorting-hat"@)))
}

/// The Info dictionary that a document has, or an empty one.
pub open spec fn info_of(doc: Document) -> Map<Seq<char>, Item> {
    match pdf::referred(pdf::objects_of(doc), pdf::trailer_of(doc), "Info"@) {
        Some(m) => m,
        None => pdf::no_entries(),
    }
}

/// A document has become another by stamping: it has an Info dictionary of its
/// own with the fields written, or nothing has changed if there were none.
pub open spec fn is_stamped(
    before: Document,
    after: Document,
    d: DigestView,
    overwrite: bool,
) -> bool {
    let (info, written) = stamped(info_of(before), fields_of(d), overwrite);
    let id = ((pdf::max_id_of(before) + 1) as u32, 0u16);
    if written.len() == 0 {
        after == before
    } else {
        &&& pdf::max_id_of(after) == pdf::max_id_of(before) + 1
        &&& pdf::objects_of(after) == pdf::objects_of(before).insert(id, Item::Dictionary(signed(info)))
        &&& pdf::trailer_of(after) == pdf::trailer_of(before).insert("Info"@, Item::Reference(id))
    }
}

fn current_info(doc: &Document) -> (r: Dictionary)
    ensures
        pdf::entries_of(r) == info_of(*doc),
{
    match referred_dictionary(doc, "Info") {
        Some(d) => clone_dictionary(d),
        None => new_dictionary(),
    }
}

pub open spec fn name_texts(v: Seq<&'static str>) -> Seq<Seq<char>> {
    Seq::new(v.len(), |i: int| v[i]@)
}

/// Whether a document has an object number left to give out.
pub fn has_room(doc: &Document) -> (r: bool)
    ensures
        r == (pdf::max_id_of(*doc) < u32::MAX),
{
    max_id(doc) < 0xffff_ffff
}

/// Set the Info dictionary on an already-loaded document, and return the names
/// of the fields written.
///
/// Metadata and a bookmark tree are written in one load and one save. A
/// rewritten file cannot always be read again, so a second pass is not an
/// option, and every change a document needs must happen together.
pub fn apply_to_doc(doc: &mut Document, digest: &Digest, overwrite: bool) -> (r: Vec<&'static str>)
    requires
        pdf::max_id_of(*old(doc)) < u32::MAX,
    ensures
        name_texts(r@) == stamped(info_of(*old(doc)), fields_of(digest@), overwrite).1,
        is_stamped(*old(doc), *final(doc), digest@, overwrite),
{
    let fields = entries(digest);
    let ghost all = fields_of(digest@);
    let ghost start = info_of(*doc);
    let mut info = current_info(doc);
    let mut written: Vec<&'static str> = Vec::new();
    let mut i: usize = 0;
    assert(all.take(0) =~= Seq::<(Seq<char>, Seq<char>)>::empty());
    assert(name_texts(written@) =~= Seq::<Seq<char>>::empty());
    while i < fields.len()
        invariant
            all == field_texts(fields@),
            i <= fields@.len(),
            (pdf::entries_of(info), name_texts(written@)) == stamped(
                start,
                all.take(i as int),
                overwrite,
            ),
        decreases fields@.len() - i,
    {
        let key = fields[i].0;
        let value = &fields[i].1;
        assert(all.take(i + 1).drop_last() =~= all.take(i as int));
        assert(all.take(i + 1).last() == (key@, value@));
        let taken = match get_entry(&info, key) {
            Some(o) => match as_str(o) {
                Some(bytes) => bytes.len() > 0,
                None => false,
            },
            None => false,
        };
        assert(taken == occupied(pdf::entries_of(info), key@));
        if !(taken && !overwrite) {
            set_entry(&mut info, key, string_literal(value.as_str()));
            let ghost before = written@;
            written.push(key);
            assert(name_texts(written@) =~= name_texts(before).push(key@));
        }
        i = i + 1;
    }
    assert(all.take(i as int) =~= all);
    if written.len() == 0 {
        return written;
    }
    set_entry(&mut info, "Producer", string_literal("sorting-hat"));
    let id = add_object(doc, dictionary(info));
    set_trailer(doc, "Info", reference(id));
    written
}

/// A document about which nothing is known is left as it is.
pub proof fn nothing_known_means_nothing_written(
    before: Document,
    after: Document,
    d: DigestView,
    overwrite: bool,
)
    requires
        is_stamped(before, after, d, overwrite),
        naming::says_nothing(d.title),
        naming::says_nothing(d.publisher),
        text::trim(d.summary).len() == 0,
        naming::says_nothing(d.game_system),
        naming::says_nothing(d.doc_type),
        naming::says_nothing(d.setting),
        naming::says_nothing(d.level_range),
        forall|i: int| 0 <= i < d.topics.len() ==> naming::says_nothing(#[trigger] d.topics[i]),
    ensures
        fields_of(d).len() == 0,
        after == before,
{
    let list = seq![d.game_system, d.doc_type, d.setting, d.level_range] + d.topics;
    assert forall|i: int| 0 <= i < list.len() implies naming::says_nothing(#[trigger] list[i]) by {
        if i >= 4 {
            assert(list[i] == d.topics[i - 4]);
        }
    }
    lemma_nothing_telling(list);
    assert(fields_of(d) =~= Seq::<(Seq<char>, Seq<char>)>::empty());
}

proof fn lemma_nothing_telling(list: Seq<Seq<char>>)
    requires
        forall|i: int| 0 <= i < list.len() ==> naming::says_nothing(#[trigger] list[i]),
    ensures
        telling(list) == Seq::<Seq<char>>::empty(),
    decreases list.len(),
{
    if list.len() > 0 {
        let part = list.drop_last();
        assert forall|i: int| 0 <= i < part.len() implies naming::says_nothing(#[trigger] part[i]) by {
            assert(part[i] == list[i]);
        }
        lemma_nothing_telling(part);
        assert(naming::says_nothing(list[list.len() - 1]));
    }
}

/// What a PDF already says of itself is kept, unless it may be overwritten.
pub proof fn occupied_fields_are_kept(
    info: Map<Seq<char>, Item>,
    fields: Seq<(Seq<char>, Seq<char>)>,
    key: Seq<char>,
)
    requires
        occupied(info, key),
    ensures
        stamped(info, fields, false).0.contains_key(key),
        stamped(info, fields, false).0[key] == info[key],
        !stamped(info, fields, false).1.contains(key),
    decreases fields.len(),
{
    if fields.len() > 0 {
        occupied_fields_are_kept(info, fields.drop_last(), key);
        let (before, written) = stamped(info, fields.drop_last(), false);
        let (k, value) = fields.last();
        if k != key && written.push(k).contains(key) {
            let j = choose|j: int| 0 <= j < written.push(k).len() && written.push(k)[j] == key;
            assert(written[j] == key);
        }
    }
}

/// What is written of one field: its value, unless the field was occupied and may
/// not be overwritten.
pub open spec fn is_written(
    before: Map<Seq<char>, Item>,
    after: Map<Seq<char>, Item>,
    key: Seq<char>,
    value: Seq<char>,
    overwrite: bool,
) -> bool {
    if (pdf::held(before, key) matches Some(Item::Text(bytes)) && bytes.len() > 0) && !overwrite {
        pdf::held(after, key) == pdf::held(before, key)
    } else {
        pdf::held(after, key) == Some(Item::Text(vstd::utf8::encode_utf8(value)))
    }
}

/// A field that is offered once is written, unless it is occupied.
proof fn lemma_offered(
    info: Map<Seq<char>, Item>,
    fields: Seq<(Seq<char>, Seq<char>)>,
    overwrite: bool,
    key: Seq<char>,
)
    requires
        forall|i: int, j: int|
            0 <= i < j < fields.len() ==> (#[trigger] fields[i]).0 != (#[trigger] fields[j]).0,
    ensures
        ({
            let (after, written) = stamped(info, fields, overwrite);
            &&& forall|i: int|
                0 <= i < fields.len() && (#[trigger] fields[i]).0 == key ==> is_written(
                    info,
                    after,
                    key,
                    fields[i].1,
                    overwrite,
                )
            &&& (forall|i: int| 0 <= i < fields.len() ==> (#[trigger] fields[i]).0 != key)
                ==> pdf::held(after, key) == pdf::held(info, key)
            &&& written.len() == 0 ==> after == info
        }),
    decreases fields.len(),
{
    if fields.len() > 0 {
        let front = fields.drop_last();
        assert forall|i: int, j: int| 0 <= i < j < front.len() implies (#[trigger] front[i]).0 != (
        #[trigger] front[j]).0 by {
            assert(fields[i].0 != fields[j].0);
        }
        lemma_offered(info, front, overwrite, key);
        let (after, written) = stamped(info, fields, overwrite);
        let (mid, some) = stamped(info, front, overwrite);
        if fields.last().0 == key {
            assert forall|i: int| 0 <= i < front.len() implies (#[trigger] front[i]).0 != key by {
                assert(fields[i].0 != fields[fields.len() - 1].0);
            }
            assert(pdf::held(mid, key) == pdf::held(info, key));
        } else {
            assert(pdf::held(after, key) == pdf::held(mid, key));
        }
        assert forall|i: int|
            0 <= i < fields.len() && (#[trigger] fields[i]).0 == key implies is_written(
            info,
            after,
            key,
            fields[i].1,
            overwrite,
        ) by {
            if i < front.len() {
                assert(fields[i].0 != fields[fields.len() - 1].0);
                assert(front[i] == fields[i]);
            }
        }
        if forall|i: int| 0 <= i < fields.len() ==> (#[trigger] fields[i]).0 != key {
            assert(fields[fields.len() - 1].0 != key);
            assert forall|i: int| 0 <= i < front.len() implies (#[trigger] front[i]).0 != key by {
                assert(fields[i].0 != key);
            }
        }
    }
}

proof fn lemma_field_names()
    ensures
        "Title"@ != "Author"@,
        "Title"@ != "Subject"@,
        "Title"@ != "Keywords"@,
        "Title"@ != "Producer"@,
        "Author"@ != "Subject"@,
        "Author"@ != "Keywords"@,
        "Author"@ != "Producer"@,
        "Subject"@ != "Keywords"@,
        "Subject"@ != "Producer"@,
        "Keywords"@ != "Producer"@,
{
    reveal_strlit("Title");
    reveal_strlit("Author");
    reveal_strlit("Subject");
    reveal_strlit("Keywords");
    reveal_strlit("Producer");
    assert("Title"@[0] == 'T' && "Author"@[0] == 'A' && "Subject"@[0] == 'S');
    assert("Keywords"@[0] == 'K' && "Producer"@[0] == 'P');
}

/// What is known of a document stands in it afterwards: the title, the publisher as
/// its author, the summary as its subject. What it said of itself is kept unless it
/// may be overwritten, and where nothing is known it says what it said. A document
/// that anything was written into tells who did it.
pub proof fn what_is_known_is_written(
    before: Document,
    after: Document,
    d: DigestView,
    overwrite: bool,
)
    requires
        is_stamped(before, after, d, overwrite),
        pdf::max_id_of(before) < u32::MAX,
    ensures
        !naming::says_nothing(d.title) ==> is_written(
            info_of(before),
            info_of(after),
            "Title"@,
            d.title,
            overwrite,
        ),
        naming::says_nothing(d.title) ==> pdf::held(info_of(after), "Title"@) == pdf::held(
            info_of(before),
            "Title"@,
        ),
        !naming::says_nothing(d.publisher) ==> is_written(
            info_of(before),
            info_of(after),
            "Author"@,
            d.publisher,
            overwrite,
        ),
        naming::says_nothing(d.publisher) ==> pdf::held(info_of(after), "Author"@) == pdf::held(
            info_of(before),
            "Author"@,
        ),
        text::trim(d.summary).len() > 0 ==> is_written(
            info_of(before),
            info_of(after),
            "Subject"@,
            d.summary,
            overwrite,
        ),
        text::trim(d.summary).len() == 0 ==> pdf::held(info_of(after), "Subject"@) == pdf::held(
            info_of(before),
            "Subject"@,
        ),
        keywords(d).len() > 0 ==> is_written(
            info_of(before),
            info_of(after),
            "Keywords"@,
            text::joined(keywords(d), ", "@),
            overwrite,
        ),
        after == before || pdf::held(info_of(after), "Producer"@) == Some(
            Item::Text(vstd::utf8::encode_utf8("sorting-hat"@)),
        ),
{
    let info = info_of(before);
    let fields = fields_of(d);
    lemma_field_names();
    let a = field_if(!naming::says_nothing(d.title), "Title"@, d.title);
    let b = field_if(!naming::says_nothing(d.publisher), "Author"@, d.publisher);
    let c = field_if(text::trim(d.summary).len() > 0, "Subject"@, d.summary);
    let e = field_if(keywords(d).len() > 0, "Keywords"@, text::joined(keywords(d), ", "@));
    assert(fields == a + b + c + e);
    assert forall|i: int, j: int| 0 <= i < j < fields.len() implies (#[trigger] fields[i]).0 != (
    #[trigger] fields[j]).0 by {}
    lemma_offered(info, fields, overwrite, "Title"@);
    lemma_offered(info, fields, overwrite, "Author"@);
    lemma_offered(info, fields, overwrite, "Subject"@);
    lemma_offered(info, fields, overwrite, "Keywords"@);
    let (now, written) = stamped(info, fields, overwrite);
    if a.len() > 0 {
        assert(fields[0] == ("Title"@, d.title));
    }
    if b.len() > 0 {
        assert(fields[a.len() as int] == ("Author"@, d.publisher));
    }
    if c.len() > 0 {
        assert(fields[(a.len() + b.len()) as int] == ("Subject"@, d.summary));
    }
    if e.len() > 0 {
        assert(fields[(a.len() + b.len() + c.len()) as int] == e[0]);
    }
    if written.len() > 0 {
        let id = ((pdf::max_id_of(before) + 1) as u32, 0u16);
        let objects = pdf::objects_of(after);
        assert(objects[id] == Item::Dictionary(signed(now)));
        assert(pdf::followed(objects, id, 128) == Some((id, objects[id])));
        assert(info_of(after) == signed(now));
        assert(pdf::held(info_of(after), "Title"@) == pdf::held(now, "Title"@));
        assert(pdf::held(info_of(after), "Author"@) == pdf::held(now, "Author"@));
        assert(pdf::held(info_of(after), "Subject"@) == pdf::held(now, "Subject"@));
        assert(pdf::held(info_of(after), "Keywords"@) == pdf::held(now, "Keywords"@));
    }
}

proof fn lemma_telling(list: Seq<Seq<char>>, x: Seq<char>)
    ensures
        telling(list).contains(x) <==> list.contains(x) && !naming::says_nothing(x),
    decreases list.len(),
{
    if list.len() > 0 {
        let front = list.drop_last();
        lemma_telling(front, x);
        lemma_either(front, list.last(), x);
        assert(front.push(list.last()) =~= list);
        lemma_either(telling(front), list.last(), x);
    }
}

proof fn lemma_apart(list: Seq<Seq<char>>, x: Seq<char>)
    ensures
        without_adjacent(list).contains(x) <==> list.contains(x),
        list.len() > 0 ==> without_adjacent(list).len() > 0 && without_adjacent(list).last()
            == list.last(),
    decreases list.len(),
{
    if list.len() > 0 {
        let front = list.drop_last();
        let before = without_adjacent(front);
        lemma_apart(front, x);
        lemma_either(front, list.last(), x);
        assert(front.push(list.last()) =~= list);
        lemma_either(before, list.last(), x);
        if before.len() > 0 && before.last() == list.last() {
            assert(before.contains(before[before.len() - 1]));
        }
    }
}

proof fn lemma_either(list: Seq<Seq<char>>, y: Seq<char>, x: Seq<char>)
    ensures
        list.push(y).contains(x) <==> list.contains(x) || x == y,
{
    let all = list.push(y);
    assert(all[list.len() as int] == y);
    if list.contains(x) {
        let i = choose|i: int| 0 <= i < list.len() && list[i] == x;
        assert(all[i] == x);
    }
    if all.contains(x) {
        let i = choose|i: int| 0 <= i < all.len() && all[i] == x;
        if i < list.len() {
            assert(list[i] == x);
        }
    }
}

/// The keywords of a document are what is known of its system, its type, its
/// setting and its levels, and its topics; nothing that says nothing is among them.
pub proof fn keywords_are_what_is_known(d: DigestView, x: Seq<char>)
    ensures
        keywords(d).contains(x) <==> !naming::says_nothing(x) && (x == d.game_system || x
            == d.doc_type || x == d.setting || x == d.level_range || d.topics.contains(x)),
{
    let four = seq![d.game_system, d.doc_type, d.setting, d.level_range];
    let list = four + d.topics;
    lemma_telling(list, x);
    lemma_apart(telling(list), x);
    assert(list[0] == d.game_system && list[1] == d.doc_type && list[2] == d.setting && list[3]
        == d.level_range);
    if d.topics.contains(x) {
        let i = choose|i: int| 0 <= i < d.topics.len() && d.topics[i] == x;
        assert(list[i + 4] == x);
    }
    if list.contains(x) {
        let i = choose|i: int| 0 <= i < list.len() && list[i] == x;
        if i >= 4 {
            assert(d.topics[i - 4] == x);
        }
    }
}

// ---------------------------------------------------------------------------
// Trusting a rewrite
// ---------------------------------------------------------------------------

/// A megabyte of slack, so small files are not judged by ratio alone.
pub const SLACK: u64 = 1_048_576;

/// The largest size that a rewritten file may have. Growth is a share of the
/// file's size.
pub open spec fn ceiling(before: u64, max_growth: u32) -> int {
    let share = float::whole_part(float::product(float::of_whole(before as nat), max_growth));
    if share > SLACK {
        before + share
    } else {
        before + SLACK
    }
}

pub(crate) fn ceiling_of(before: u64, max_growth: u32) -> (r: u128)
    ensures
        r == ceiling(before, max_growth),
{
    let share: u64 = to_whole(multiply(from_whole(before), max_growth));
    if share > SLACK {
        before as u128 + share as u128
    } else {
        before as u128 + SLACK as u128
    }
}

/// Why a rewritten file is not to be trusted.
pub open spec fn distrust(before: u64, after: u64, max_growth: u32) -> Option<Seq<char>> {
    let sizes = number::digits(before as nat) + " to "@ + number::digits(after as nat);
    if before == 0 {
        None
    } else if 2 * after < before {
        Some("rewriting shrank the PDF from "@ + sizes + " bytes; discarding the result"@)
    } else if after > ceiling(before, max_growth) {
        Some(
            "rewriting grew the PDF from "@ + sizes
                + " bytes; discarding the result rather than bloating the library"@,
        )
    } else {
        None
    }
}

fn sizes_text(before: u64, after: u64) -> (r: String)
    ensures
        r@ == number::digits(before as nat) + " to "@ + number::digits(after as nat),
{
    let mut out = decimal(before);
    out.append(" to ");
    out.append(decimal(after).as_str());
    out
}

/// Whether a rewritten PDF's size is close enough to the original to trust.
///
/// Metadata is a few hundred bytes, so a small change either way is expected;
/// anything dramatic means the rewrite did something other than what we asked.
pub fn plausible(before: u64, after: u64, max_growth: u32) -> (r: Result<(), String>)
    ensures
        match distrust(before, after, max_growth) {
            None => r is Ok,
            Some(text) => r matches Err(why) && why@ == text,
        },
        r is Err <==> before > 0 && (2 * after < before || (after > before + 1_048_576 && after
            > before + float::whole_part(
            float::product(float::of_whole(before as nat), max_growth),
        ))),
{
    if before == 0 {
        return Ok(());
    }
    if (after as u128) * 2 < before as u128 {
        let mut why = own("rewriting shrank the PDF from ");
        why.append(sizes_text(before, after).as_str());
        why.append(" bytes; discarding the result");
        return Err(why);
    }
    if after as u128 > ceiling_of(before, max_growth) {
        let mut why = own("rewriting grew the PDF from ");
        why.append(sizes_text(before, after).as_str());
        why.append(" bytes; discarding the result rather than bloating the library");
        return Err(why);
    }
    Ok(())
}

} // verus!
