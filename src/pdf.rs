//! The parts of a `lopdf` document that assembly reads and writes.
//!
//! A document is opaque here; what the logic needs of it is named by the spec
//! functions below, each a function of the document's contents.

use vstd::prelude::*;
use lopdf::{Dictionary, Document, Object};

verus! {

/// An object identifier: object number and generation.
pub type ObjectId = (u32, u16);

/// `lopdf::Document`, held as an opaque value.
#[verifier::external_type_specification]
#[verifier::external_body]
pub struct ExDocument(lopdf::Document);

/// `lopdf::Dictionary`, held as an opaque value.
#[verifier::external_type_specification]
#[verifier::external_body]
pub struct ExDictionary(lopdf::Dictionary);

/// A dictionary entry's value, as far as assembly reads or writes it.
///
/// An `Object::Name` whose bytes are UTF-8 is `Name` of its text; an
/// `Object::Integer` is `Integer`; an `Object::Reference` is `Reference`; an
/// `Object::Array` made of references alone is `References`, in order;
/// anything else is `Other`. A key is its text where its bytes are UTF-8;
/// other keys are left out.
pub enum Entry {
    Name(Seq<char>),
    Integer(int),
    Reference(ObjectId),
    References(Seq<ObjectId>),
    Other,
}

/// The keys of the document's object table (`Document::objects`).
pub uninterp spec fn object_ids(d: lopdf::Document) -> Set<ObjectId>;

/// For each key of the object table whose object is an `Object::Dictionary`,
/// that dictionary's entries (see `Entry`).
pub uninterp spec fn dictionaries(d: lopdf::Document) -> Map<ObjectId, Map<Seq<char>, Entry>>;

/// The entries of `Document::trailer` (see `Entry`).
pub uninterp spec fn trailer(d: lopdf::Document) -> Map<Seq<char>, Entry>;

/// The entries of a dictionary (see `Entry`).
pub uninterp spec fn entries(d: lopdf::Dictionary) -> Map<Seq<char>, Entry>;

/// The page identifiers that `Document::get_pages` yields, in page order.
pub uninterp spec fn page_ids(d: lopdf::Document) -> Seq<ObjectId>;

/// The field `Document::max_id`.
pub uninterp spec fn max_id_of(d: lopdf::Document) -> u32;

/// The document that `Document::renumber_objects_with(start)` makes of `d`.
pub uninterp spec fn renumbered(d: lopdf::Document, start: u32) -> lopdf::Document;

/// A dictionary without entries.
pub open spec fn no_entries() -> Map<Seq<char>, Entry> {
    Map::empty()
}

/// An object table without dictionaries.
pub open spec fn no_dictionaries() -> Map<ObjectId, Map<Seq<char>, Entry>> {
    Map::empty()
}

/// The identifiers of the dictionaries of the object table.
pub open spec fn dictionary_ids(d: Document) -> Set<ObjectId> {
    dictionaries(d).dom()
}

/// Relies on `Document::with_version`: a document with an empty object table.
#[verifier::external_body]
pub(crate) fn new_document(version: &str) -> (r: Document)
    ensures
        object_ids(r) == Set::<ObjectId>::empty(),
        dictionaries(r) == no_dictionaries(),
        max_id_of(r) == 0,
{
    Document::with_version(version)
}

/// Relies on `Document::get_pages`: the page identifiers in page order.
#[verifier::external_body]
pub(crate) fn page_list(d: &Document) -> (r: Vec<ObjectId>)
    ensures
        r@ == page_ids(*d),
{
    d.get_pages().into_values().collect()
}

/// Relies on `BTreeMap::len` of `Document::objects`: the number of objects.
#[verifier::external_body]
pub(crate) fn object_count(d: &Document) -> (r: usize)
    ensures
        r == object_ids(*d).len(),
{
    d.objects.len()
}

/// Reads the field `Document::max_id`.
#[verifier::external_body]
pub(crate) fn max_id(d: &Document) -> (r: u32)
    ensures
        r == max_id_of(*d),
{
    d.max_id
}

/// Writes the field `Document::max_id`; nothing else changes.
#[verifier::external_body]
pub(crate) fn set_max_id(d: &mut Document, v: u32)
    ensures
        max_id_of(*final(d)) == v,
        object_ids(*final(d)) == object_ids(*old(d)),
        dictionaries(*final(d)) == dictionaries(*old(d)),
{
    d.max_id = v;
}

/// `Document::renumber_objects_with(start)` gives the objects consecutive
/// numbers from `start` on (generations kept), rewrites the references to
/// them, and sets `max_id` to the last number given. Page objects may trade
/// numbers first, and an object can be lost in that exchange, never gained.
/// Its counters are a `u32` per object and an `i32` per page.
pub assume_specification[ lopdf::Document::renumber_objects_with ](doc: &mut Document, starting_id: u32)
    requires
        1 <= starting_id,
        starting_id + object_ids(*old(doc)).len() <= u32::MAX,
        page_ids(*old(doc)).len() < i32::MAX,
    ensures
        *final(doc) == renumbered(*old(doc), starting_id),
        object_ids(*final(doc)).len() <= object_ids(*old(doc)).len(),
        max_id_of(*final(doc)) + 1 == starting_id + object_ids(*final(doc)).len(),
        forall|id: (u32, u16)| #[trigger] object_ids(*final(doc)).contains(id) ==> starting_id <= id.0 <= max_id_of(*final(doc)),
        dictionaries(*final(doc)).dom().subset_of(object_ids(*final(doc))),
;

/// Relies on `BTreeMap::extend` of `Document::objects`: the objects of `src`
/// join those of `dst`, replacing any under the same identifier.
#[verifier::external_body]
pub(crate) fn absorb_objects(dst: &mut Document, src: Document)
    ensures
        object_ids(*final(dst)) == object_ids(*old(dst)).union(object_ids(src)),
        dictionaries(*final(dst)) == dictionaries(*old(dst)).remove_keys(object_ids(src)).union_prefer_right(
            dictionaries(src),
        ),
        max_id_of(*final(dst)) == max_id_of(*old(dst)),
{
    dst.objects.extend(src.objects);
}

/// `Document::new_object_id` raises `max_id` by one and returns it with
/// generation zero; the object table and trailer are untouched.
pub assume_specification[ lopdf::Document::new_object_id ](doc: &mut Document) -> (r: (u32, u16))
    requires
        max_id_of(*old(doc)) < u32::MAX,
    ensures
        max_id_of(*final(doc)) == max_id_of(*old(doc)) + 1,
        r == (max_id_of(*final(doc)), 0u16),
        object_ids(*final(doc)) == object_ids(*old(doc)),
        dictionaries(*final(doc)) == dictionaries(*old(doc)),
        trailer(*final(doc)) == trailer(*old(doc)),
;

/// Why an entry could not be set on an object.
#[derive(Clone, Copy, Debug, PartialEq, Eq, Structural)]
pub enum PageFault {
    /// No object has the identifier.
    Missing,
    /// The object is not a dictionary.
    NotDictionary,
}

/// Relies on `BTreeMap::get_mut` of `Document::objects`, `Object::as_dict_mut`
/// (which fails on anything but a dictionary) and `Dictionary::set`: sets
/// entry `key` of object `id` to a reference to `value`.
#[verifier::external_body]
pub(crate) fn set_object_reference(doc: &mut Document, id: ObjectId, key: &str, value: ObjectId) -> (r: Result<(), PageFault>)
    ensures
        r == Err::<(), PageFault>(PageFault::Missing) <==> !object_ids(*old(doc)).contains(id),
        r == Err::<(), PageFault>(PageFault::NotDictionary) <==> object_ids(*old(doc)).contains(id)
            && !dictionaries(*old(doc)).contains_key(id),
        object_ids(*final(doc)) == object_ids(*old(doc)),
        max_id_of(*final(doc)) == max_id_of(*old(doc)),
        r is Err ==> dictionaries(*final(doc)) == dictionaries(*old(doc)),
        r is Ok ==> dictionaries(*final(doc)) == dictionaries(*old(doc)).insert(
            id,
            dictionaries(*old(doc))[id].insert(key@, Entry::Reference(value)),
        ),
{
    match doc.objects.get_mut(&id) {
        None => Err(PageFault::Missing),
        Some(obj) => match obj.as_dict_mut() {
            Ok(dict) => {
                dict.set(key, Object::Reference(value));
                Ok(())
            },
            Err(_) => Err(PageFault::NotDictionary),
        },
    }
}

/// Relies on `Dictionary::new`: a dictionary without entries.
#[verifier::external_body]
pub(crate) fn new_dictionary() -> (r: Dictionary)
    ensures
        entries(r) == no_entries(),
{
    Dictionary::new()
}

/// Relies on `Dictionary::set`: entry `key` becomes the name `name`.
#[verifier::external_body]
pub(crate) fn set_name_entry(d: &mut Dictionary, key: &str, name: &str)
    ensures
        entries(*final(d)) == entries(*old(d)).insert(key@, Entry::Name(name@)),
{
    d.set(key, Object::Name(name.as_bytes().to_vec()));
}

/// Relies on `Dictionary::set`: entry `key` becomes a reference to `id`.
#[verifier::external_body]
pub(crate) fn set_reference_entry(d: &mut Dictionary, key: &str, id: ObjectId)
    ensures
        entries(*final(d)) == entries(*old(d)).insert(key@, Entry::Reference(id)),
{
    d.set(key, Object::Reference(id));
}

/// Relies on `Dictionary::set`: entry `key` becomes an array of references
/// to `ids`, in order.
#[verifier::external_body]
pub(crate) fn set_references_entry(d: &mut Dictionary, key: &str, ids: &Vec<ObjectId>)
    ensures
        entries(*final(d)) == entries(*old(d)).insert(key@, Entry::References(ids@)),
{
    d.set(key, Object::Array(ids.iter().map(|&k| Object::Reference(k)).collect()));
}

/// Relies on `Dictionary::set`: entry `key` becomes the integer `n`.
#[verifier::external_body]
pub(crate) fn set_integer_entry(d: &mut Dictionary, key: &str, n: i64)
    ensures
        entries(*final(d)) == entries(*old(d)).insert(key@, Entry::Integer(n as int)),
{
    d.set(key, Object::Integer(n));
}

/// Relies on `BTreeMap::insert` of `Document::objects`: stores `dict` under
/// `id`, replacing any object there.
#[verifier::external_body]
pub(crate) fn insert_dictionary(doc: &mut Document, id: ObjectId, dict: Dictionary)
    ensures
        object_ids(*final(doc)) == object_ids(*old(doc)).insert(id),
        dictionaries(*final(doc)) == dictionaries(*old(doc)).insert(id, entries(dict)),
        max_id_of(*final(doc)) == max_id_of(*old(doc)),
        trailer(*final(doc)) == trailer(*old(doc)),
{
    doc.objects.insert(id, Object::Dictionary(dict));
}

/// Assigns `Document::trailer`; the object table is untouched.
#[verifier::external_body]
pub(crate) fn set_trailer(doc: &mut Document, dict: Dictionary)
    ensures
        trailer(*final(doc)) == entries(dict),
        object_ids(*final(doc)) == object_ids(*old(doc)),
        dictionaries(*final(doc)) == dictionaries(*old(doc)),
        max_id_of(*final(doc)) == max_id_of(*old(doc)),
{
    doc.trailer = dict;
}

/// `Document::compress` compresses stream contents (and sets their
/// `Filter` and `Length`); dictionaries and the trailer are untouched.
pub assume_specification[ lopdf::Document::compress ](doc: &mut Document)
    ensures
        object_ids(*final(doc)) == object_ids(*old(doc)),
        dictionaries(*final(doc)) == dictionaries(*old(doc)),
        max_id_of(*final(doc)) == max_id_of(*old(doc)),
        trailer(*final(doc)) == trailer(*old(doc)),
;

} // verus!
