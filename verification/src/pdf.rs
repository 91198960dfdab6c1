//! PDF documents, as far as this library reads and changes them.
//!
//! The objects themselves are those of the `lopdf` crate. What they hold is
//! stated through a few names: the objects of a document and its trailer, the
//! entries of a dictionary, and the value of an object.

use lopdf::{Dictionary, Document, Object};
use vstd::prelude::*;

verus! {

#[verifier::external_type_specification]
#[verifier::external_body]
pub struct ExDocument(lopdf::Document);

#[verifier::external_type_specification]
#[verifier::external_body]
pub struct ExDictionary(lopdf::Dictionary);

#[verifier::external_type_specification]
#[verifier::external_body]
pub struct ExObject(lopdf::Object);

/// The value of an object. Keys are the text that their bytes encode; an entry
/// whose key is no text is left aside.
#[verifier::ext_equal]
pub enum Item {
    Null,
    Integer(int),
    Name(Seq<u8>),
    Text(Seq<u8>),
    Reference((u32, u16)),
    Array(Seq<Item>),
    Dictionary(Map<Seq<char>, Item>),
    Other,
}

/// What a dictionary holds under the keys that are text.
pub uninterp spec fn entries_of(d: Dictionary) -> Map<Seq<char>, Item>;

/// What an object is.
pub uninterp spec fn item_of(o: Object) -> Item;

/// The objects of a document, by their numbers.
pub uninterp spec fn objects_of(d: Document) -> Map<(u32, u16), Item>;

/// The trailer of a document.
pub uninterp spec fn trailer_of(d: Document) -> Map<Seq<char>, Item>;

/// The highest object number a document has given out.
pub uninterp spec fn max_id_of(d: Document) -> u32;

/// The pages of a document with these objects and this trailer, in order.
pub uninterp spec fn pages_in(
    objects: Map<(u32, u16), Item>,
    trailer: Map<Seq<char>, Item>,
) -> Seq<(u32, u16)>;

/// The pages of a document, in order.
pub open spec fn pages_of(d: Document) -> Seq<(u32, u16)> {
    pages_in(objects_of(d), trailer_of(d))
}

pub open spec fn no_entries() -> Map<Seq<char>, Item> {
    Map::empty()
}

/// `Dictionary::new` of `lopdf`: an empty dictionary.
#[verifier::external_body]
pub(crate) fn new_dictionary() -> (r: Dictionary)
    ensures
        entries_of(r) == no_entries(),
{
    Dictionary::new()
}

/// `Dictionary::set` of `lopdf`: puts a value under a key, in place of what was
/// there.
#[verifier::external_body]
pub(crate) fn set_entry(d: &mut Dictionary, key: &str, value: Object)
    ensures
        entries_of(*final(d)) == entries_of(*old(d)).insert(key@, item_of(value)),
{
    d.set(key, value)
}

/// `Dictionary::has` of `lopdf`: whether there is a value under a key.
#[verifier::external_body]
pub(crate) fn has_entry(d: &Dictionary, key: &str) -> (r: bool)
    ensures
        r == entries_of(*d).contains_key(key@),
{
    d.has(key.as_bytes())
}

pub open spec fn item_at(r: Option<&Object>) -> Option<Item> {
    match r {
        Some(o) => Some(item_of(*o)),
        None => None,
    }
}

/// What a map holds under a key, if anything.
pub open spec fn held(m: Map<Seq<char>, Item>, key: Seq<char>) -> Option<Item> {
    if m.contains_key(key) {
        Some(m[key])
    } else {
        None
    }
}

/// `Dictionary::get` of `lopdf`: the value under a key, if there is one.
#[verifier::external_body]
pub(crate) fn get_entry<'a>(d: &'a Dictionary, key: &str) -> (r: Option<&'a Object>)
    ensures
        item_at(r) == held(entries_of(*d), key@),
{
    d.get(key.as_bytes()).ok()
}

/// `Dictionary::clone` of `lopdf`: a dictionary that holds the same.
#[verifier::external_body]
pub(crate) fn clone_dictionary(d: &Dictionary) -> (r: Dictionary)
    ensures
        entries_of(r) == entries_of(*d),
{
    d.clone()
}

/// `Object::Null` of `lopdf`.
#[verifier::external_body]
pub(crate) fn null() -> (r: Object)
    ensures
        item_of(r) == Item::Null,
{
    Object::Null
}

/// `Object::Integer` of `lopdf`.
#[verifier::external_body]
pub(crate) fn integer(n: i64) -> (r: Object)
    ensures
        item_of(r) == Item::Integer(n as int),
{
    Object::Integer(n)
}

/// `Object::Name` of `lopdf`, on the bytes of a text.
#[verifier::external_body]
pub(crate) fn name(text: &str) -> (r: Object)
    ensures
        item_of(r) == Item::Name(vstd::utf8::encode_utf8(text@)),
{
    Object::Name(text.as_bytes().to_vec())
}

/// `Object::string_literal` of `lopdf`, on the bytes of a text.
#[verifier::external_body]
pub(crate) fn string_literal(text: &str) -> (r: Object)
    ensures
        item_of(r) == Item::Text(vstd::utf8::encode_utf8(text@)),
{
    Object::string_literal(text)
}

/// `Object::Reference` of `lopdf`.
#[verifier::external_body]
pub(crate) fn reference(id: (u32, u16)) -> (r: Object)
    ensures
        item_of(r) == Item::Reference(id),
{
    Object::Reference(id)
}

pub open spec fn items_of(v: Seq<Object>) -> Seq<Item> {
    Seq::new(v.len(), |i: int| item_of(v[i]))
}

/// `Object::Array` of `lopdf`.
#[verifier::external_body]
pub(crate) fn array(items: Vec<Object>) -> (r: Object)
    ensures
        item_of(r) == Item::Array(items_of(items@)),
{
    Object::Array(items)
}

/// `Object::Dictionary` of `lopdf`.
#[verifier::external_body]
pub(crate) fn dictionary(d: Dictionary) -> (r: Object)
    ensures
        item_of(r) == Item::Dictionary(entries_of(d)),
{
    Object::Dictionary(d)
}

/// `Object::as_reference` of `lopdf`: the object number, if this is a reference.
#[verifier::external_body]
pub(crate) fn as_reference(o: &Object) -> (r: Option<(u32, u16)>)
    ensures
        match item_of(*o) {
            Item::Reference(id) => r == Some(id),
            _ => r is None,
        },
{
    o.as_reference().ok()
}

/// `Object::as_str` of `lopdf`: the bytes of a string, if this is one.
#[verifier::external_body]
pub(crate) fn as_str(o: &Object) -> (r: Option<Vec<u8>>)
    ensures
        match item_of(*o) {
            Item::Text(bytes) => r matches Some(v) && v@ == bytes,
            _ => r is None,
        },
{
    o.as_str().ok().map(|s| s.to_vec())
}

/// `Object::as_dict` of `lopdf`: the dictionary, if this is one.
#[verifier::external_body]
pub(crate) fn as_dict(o: &Object) -> (r: Option<&Dictionary>)
    ensures
        match item_of(*o) {
            Item::Dictionary(m) => r matches Some(d) && entries_of(*d) == m,
            _ => r is None,
        },
{
    o.as_dict().ok()
}

/// What an item stands for once references are followed, up to a limit, and the
/// number of the last object on the way.
pub open spec fn followed(
    objects: Map<(u32, u16), Item>,
    id: (u32, u16),
    limit: nat,
) -> Option<((u32, u16), Item)>
    decreases limit,
{
    if !objects.contains_key(id) {
        None
    } else {
        match objects[id] {
            Item::Reference(next) => if limit == 0 {
                None
            } else {
                followed(objects, next, (limit - 1) as nat)
            },
            item => Some((id, item)),
        }
    }
}

/// The object with a number, references followed.
pub open spec fn resolved(objects: Map<(u32, u16), Item>, id: (u32, u16)) -> Option<
    ((u32, u16), Item),
> {
    followed(objects, id, 128)
}

/// `Document::get_object` of `lopdf`: the object with a number, with references
/// followed; nothing if a number is missing or there are too many on the way.
#[verifier::external_body]
pub(crate) fn get_object(doc: &Document, id: (u32, u16)) -> (r: Option<&Object>)
    ensures
        item_at(r) == (match resolved(objects_of(*doc), id) {
            Some((_, item)) => Some(item),
            None => None,
        }),
{
    doc.get_object(id).ok()
}

/// `Dictionary::get` of `lopdf` on the trailer of a document.
#[verifier::external_body]
pub(crate) fn get_trailer<'a>(doc: &'a Document, key: &str) -> (r: Option<&'a Object>)
    ensures
        item_at(r) == held(trailer_of(*doc), key@),
{
    doc.trailer.get(key.as_bytes()).ok()
}

/// `Dictionary::get` of `lopdf` on the trailer of a document for its `Root`, and
/// `Object::as_reference` on what it gives; an error as its `to_string`. Nothing
/// is said of the words of the error.
#[verifier::external_body]
pub(crate) fn root_id(doc: &Document) -> (r: Result<(u32, u16), String>)
    ensures
        match held(trailer_of(*doc), "Root"@) {
            Some(Item::Reference(id)) => r == Ok::<(u32, u16), String>(id),
            _ => r is Err,
        },
{
    doc.trailer.get(b"Root").and_then(|o| o.as_reference()).map_err(|e| e.to_string())
}

/// `Dictionary::set` of `lopdf` on the trailer of a document.
#[verifier::external_body]
pub(crate) fn set_trailer(doc: &mut Document, key: &str, value: Object)
    ensures
        trailer_of(*final(doc)) == trailer_of(*old(doc)).insert(key@, item_of(value)),
        objects_of(*final(doc)) == objects_of(*old(doc)),
        max_id_of(*final(doc)) == max_id_of(*old(doc)),
{
    doc.trailer.set(key, value)
}

/// The field `max_id` of `lopdf::Document`.
#[verifier::external_body]
pub(crate) fn max_id(doc: &Document) -> (r: u32)
    ensures
        r == max_id_of(*doc),
{
    doc.max_id
}

/// `Document::page_iter` of `lopdf`, walked to its end: the object numbers of the
/// pages, in order of page number. They are found by following the objects from
/// the trailer on, so these decide which they are. Nothing is said of how. The
/// pages are taken one by one: how many a document claims to have is not asked.
#[verifier::external_body]
pub(crate) fn get_pages(doc: &Document) -> (r: Vec<(u32, u16)>)
    ensures
        r@ == pages_in(objects_of(*doc), trailer_of(*doc)),
{
    let mut pages = Vec::new();
    for id in doc.page_iter() {
        pages.push(id);
    }
    pages
}

/// `Document::new_object_id` of `lopdf`: gives out the next object number.
#[verifier::external_body]
pub(crate) fn new_object_id(doc: &mut Document) -> (r: (u32, u16))
    requires
        max_id_of(*old(doc)) < u32::MAX,
    ensures
        r == ((max_id_of(*old(doc)) + 1) as u32, 0u16),
        max_id_of(*final(doc)) == max_id_of(*old(doc)) + 1,
        objects_of(*final(doc)) == objects_of(*old(doc)),
        trailer_of(*final(doc)) == trailer_of(*old(doc)),
{
    doc.new_object_id()
}

/// `Document::add_object` of `lopdf`: puts an object under the next number.
#[verifier::external_body]
pub(crate) fn add_object(doc: &mut Document, object: Object) -> (r: (u32, u16))
    requires
        max_id_of(*old(doc)) < u32::MAX,
    ensures
        r == ((max_id_of(*old(doc)) + 1) as u32, 0u16),
        max_id_of(*final(doc)) == max_id_of(*old(doc)) + 1,
        objects_of(*final(doc)) == objects_of(*old(doc)).insert(r, item_of(object)),
        trailer_of(*final(doc)) == trailer_of(*old(doc)),
{
    doc.add_object(object)
}

/// `BTreeMap::insert` of `std` on the objects of a `lopdf::Document`: puts an
/// object under a number, in place of what was there.
#[verifier::external_body]
pub(crate) fn insert_object(doc: &mut Document, id: (u32, u16), object: Object)
    ensures
        objects_of(*final(doc)) == objects_of(*old(doc)).insert(id, item_of(object)),
        max_id_of(*final(doc)) == max_id_of(*old(doc)),
        trailer_of(*final(doc)) == trailer_of(*old(doc)),
{
    doc.objects.insert(id, object);
}

/// The objects after a value is put under a key of the dictionary that a number
/// stands for. If it stands for no dictionary, nothing changes.
pub open spec fn with_entry(
    objects: Map<(u32, u16), Item>,
    id: (u32, u16),
    key: Seq<char>,
    value: Item,
) -> Map<(u32, u16), Item> {
    match resolved(objects, id) {
        Some((at, Item::Dictionary(m))) => objects.insert(at, Item::Dictionary(m.insert(key, value))),
        _ => objects,
    }
}

/// `Document::get_object_mut` of `lopdf`, and `Dictionary::set` on what it
/// gives if that is a dictionary.
#[verifier::external_body]
pub(crate) fn set_in_object(doc: &mut Document, id: (u32, u16), key: &str, value: Object)
    ensures
        objects_of(*final(doc)) == with_entry(objects_of(*old(doc)), id, key@, item_of(value)),
        max_id_of(*final(doc)) == max_id_of(*old(doc)),
        trailer_of(*final(doc)) == trailer_of(*old(doc)),
{
    if let Ok(Object::Dictionary(d)) = doc.get_object_mut(id) {
        d.set(key, value);
    }
}

// ---------------------------------------------------------------------------
// What follows from these
// ---------------------------------------------------------------------------

/// The dictionary that a trailer entry refers to.
pub open spec fn referred(
    objects: Map<(u32, u16), Item>,
    trailer: Map<Seq<char>, Item>,
    key: Seq<char>,
) -> Option<Map<Seq<char>, Item>> {
    match held(trailer, key) {
        Some(Item::Reference(id)) => match resolved(objects, id) {
            Some((_, Item::Dictionary(m))) => Some(m),
            _ => None,
        },
        _ => None,
    }
}

pub open spec fn entries_at(r: Option<&Dictionary>) -> Option<Map<Seq<char>, Item>> {
    match r {
        Some(d) => Some(entries_of(*d)),
        None => None,
    }
}

/// `Document::catalog` of `lopdf`: the dictionary that the trailer's `Root`
/// refers to.
#[verifier::external_body]
pub(crate) fn catalog(doc: &Document) -> (r: Option<&Dictionary>)
    ensures
        entries_at(r) == referred(objects_of(*doc), trailer_of(*doc), "Root"@),
{
    doc.catalog().ok()
}

/// The dictionary that a trailer entry refers to.
pub(crate) fn referred_dictionary<'a>(doc: &'a Document, key: &str) -> (r: Option<&'a Dictionary>)
    ensures
        entries_at(r) == referred(objects_of(*doc), trailer_of(*doc), key@),
{
    match get_trailer(doc, key) {
        Some(o) => match as_reference(o) {
            Some(id) => match get_object(doc, id) {
                Some(target) => as_dict(target),
                None => None,
            },
            None => None,
        },
        None => None,
    }
}

/// Whether a document is encrypted: its trailer refers to an encryption
/// dictionary.
pub open spec fn encrypted(d: Document) -> bool {
    referred(objects_of(d), trailer_of(d), "Encrypt"@) is Some
}

/// `Document::is_encrypted` of `lopdf`: whether the trailer refers to an
/// encryption dictionary.
#[verifier::external_body]
pub(crate) fn is_encrypted(doc: &Document) -> (r: bool)
    ensures
        r == encrypted(*doc),
{
    doc.is_encrypted()
}

} // verus!
