//! Giving a set of pages a fresh page tree, catalog and trailer.

use vstd::prelude::*;
use lopdf::Document;
use crate::pdf::{
    dictionaries, dictionary_ids, insert_dictionary, max_id, max_id_of, new_dictionary, object_ids,
    set_integer_entry, set_name_entry, set_object_reference, set_reference_entry, set_references_entry,
    set_trailer, trailer, Entry, ObjectId, PageFault,
};

verus! {

/// The structure synthesized for an output document.
pub struct PageTree {
    /// The single page-tree node.
    pub pages_id: ObjectId,
    /// The catalog, referenced by the trailer.
    pub catalog_id: ObjectId,
    /// The pages, in output order.
    pub kids: Vec<ObjectId>,
}

/// Why the page tree could not be built.
#[derive(Clone, Copy, Debug, PartialEq, Eq)]
pub enum AssemblyError {
    /// Object numbers (or page counters) would overflow.
    TooLarge,
    /// A selected page has no object.
    MissingPage(ObjectId),
    /// A selected page's object is not a dictionary.
    NotDictionary(ObjectId),
}

/// The entries of a page-tree node listing `kids`.
pub open spec fn node_entries(kids: Seq<ObjectId>) -> Map<Seq<char>, Entry> {
    Map::<Seq<char>, Entry>::empty().insert("Type"@, Entry::Name("Pages"@)).insert(
        "Kids"@,
        Entry::References(kids),
    ).insert("Count"@, Entry::Integer(kids.len() as int))
}

/// The entries of a catalog whose page tree is `pages`.
pub open spec fn catalog_entries(pages: ObjectId) -> Map<Seq<char>, Entry> {
    Map::<Seq<char>, Entry>::empty().insert("Type"@, Entry::Name("Catalog"@)).insert(
        "Pages"@,
        Entry::Reference(pages),
    )
}

/// The entries of a trailer that names only the catalog `root`.
pub open spec fn trailer_entries(root: ObjectId) -> Map<Seq<char>, Entry> {
    Map::<Seq<char>, Entry>::empty().insert("Root"@, Entry::Reference(root))
}

/// `d` is a document whose trailer names only the catalog of `t`, whose
/// catalog names the page-tree node of `t`, whose node lists exactly the
/// pages of `t` in order with their count, and each of whose pages has that
/// node as parent.
pub open spec fn is_assembled(d: Document, t: PageTree) -> bool {
    let dicts = dictionaries(d);
    &&& trailer(d) == trailer_entries(t.catalog_id)
    &&& dicts.contains_key(t.catalog_id)
    &&& dicts[t.catalog_id] == catalog_entries(t.pages_id)
    &&& dicts.contains_key(t.pages_id)
    &&& dicts[t.pages_id] == node_entries(t.kids@)
    &&& forall|i: int|
        0 <= i < t.kids@.len() ==> dicts.contains_key(#[trigger] t.kids@[i]) && dicts[t.kids@[i]].contains_key(
            "Parent"@,
        ) && dicts[t.kids@[i]]["Parent"@] == Entry::Reference(t.pages_id)
}

/// No object of `d` has a number above `m`.
pub open spec fn numbers_below(d: Document, m: u32) -> bool {
    forall|id: ObjectId| #[trigger] object_ids(d).contains(id) ==> id.0 <= m
}

/// Every page of `kept` is a dictionary of `d`.
pub open spec fn all_dictionaries(d: Document, kept: Seq<ObjectId>) -> bool {
    forall|i: int| 0 <= i < kept.len() ==> object_ids(d).contains(#[trigger] kept[i]) && dictionary_ids(d).contains(kept[i])
}

/// Attaches `kept` to a new page-tree node, adds a catalog for it, replaces
/// the trailer by one naming only that catalog, and compresses streams.
///
/// Fails, leaving no usable document, where a kept page has no object or its
/// object is not a dictionary, or where object numbers run out.
pub fn finish_tree(doc: &mut Document, kept: Vec<ObjectId>) -> (r: Result<PageTree, AssemblyError>)
    requires
        numbers_below(*old(doc), max_id_of(*old(doc))),
    ensures
        r matches Ok(t) ==> {
            &&& is_assembled(*final(doc), t)
            &&& t.kids@ == kept@
            &&& all_dictionaries(*old(doc), kept@)
            &&& t.pages_id != t.catalog_id
            &&& !object_ids(*old(doc)).contains(t.pages_id)
            &&& !object_ids(*old(doc)).contains(t.catalog_id)
            &&& object_ids(*final(doc)) == object_ids(*old(doc)).insert(t.pages_id).insert(t.catalog_id)
        },
        r matches Err(AssemblyError::TooLarge) ==> max_id_of(*old(doc)) >= u32::MAX - 1 || kept@.len() > i64::MAX,
        r matches Err(AssemblyError::MissingPage(k)) ==> kept@.contains(k) && !object_ids(*old(doc)).contains(k),
        r matches Err(AssemblyError::NotDictionary(k)) ==> kept@.contains(k) && object_ids(*old(doc)).contains(k)
            && !dictionary_ids(*old(doc)).contains(k),
        max_id_of(*old(doc)) < u32::MAX - 1 && kept@.len() <= i64::MAX && all_dictionaries(*old(doc), kept@) ==> r is Ok,
{
    let ghost ids0 = object_ids(*doc);
    let ghost dicts0 = dictionaries(*doc);
    let m = max_id(doc);
    if m >= u32::MAX - 1 || kept.len() as u64 > 0x7fff_ffff_ffff_ffff {
        return Err(AssemblyError::TooLarge);
    }
    let pages_id = doc.new_object_id();
    assert(!ids0.contains(pages_id));
    let mut i: usize = 0;
    while i < kept.len()
        invariant
            i <= kept.len(),
            m < u32::MAX - 1,
            object_ids(*doc) == ids0,
            dictionaries(*doc).dom() == dicts0.dom(),
            ids0 == object_ids(*old(doc)),
            dicts0 == dictionaries(*old(doc)),
            max_id_of(*doc) == m + 1,
            pages_id.0 == m + 1,
            forall|id: ObjectId| #[trigger] ids0.contains(id) ==> id.0 <= m,
            forall|j: int|
                0 <= j < i ==> ids0.contains(#[trigger] kept@[j]) && dicts0.contains_key(kept@[j])
                    && dictionaries(*doc)[kept@[j]].contains_key("Parent"@)
                    && dictionaries(*doc)[kept@[j]]["Parent"@] == Entry::Reference(pages_id),
        decreases kept.len() - i,
    {
        let k = kept[i];
        let res = set_object_reference(doc, k, "Parent", pages_id);
        match res {
            Ok(()) => {},
            Err(PageFault::Missing) => {
                assert(res == Err::<(), PageFault>(PageFault::Missing));
                assert(kept@[i as int] == k);
                assert(kept@.contains(k));
                return Err(AssemblyError::MissingPage(k));
            },
            Err(PageFault::NotDictionary) => {
                assert(res == Err::<(), PageFault>(PageFault::NotDictionary));
                assert(kept@[i as int] == k);
                assert(kept@.contains(k));
                return Err(AssemblyError::NotDictionary(k));
            },
        }
        i += 1;
    }
    let mut node = new_dictionary();
    set_name_entry(&mut node, "Type", "Pages");
    set_references_entry(&mut node, "Kids", &kept);
    set_integer_entry(&mut node, "Count", kept.len() as i64);
    insert_dictionary(doc, pages_id, node);
    let catalog_id = doc.new_object_id();
    let mut catalog = new_dictionary();
    set_name_entry(&mut catalog, "Type", "Catalog");
    set_reference_entry(&mut catalog, "Pages", pages_id);
    insert_dictionary(doc, catalog_id, catalog);
    let mut root = new_dictionary();
    set_reference_entry(&mut root, "Root", catalog_id);
    set_trailer(doc, root);
    doc.compress();
    let t = PageTree { pages_id, catalog_id, kids: kept };
    assert forall|j: int| 0 <= j < t.kids@.len() implies dictionaries(*doc).contains_key(#[trigger] t.kids@[j])
        && dictionaries(*doc)[t.kids@[j]].contains_key("Parent"@)
        && dictionaries(*doc)[t.kids@[j]]["Parent"@] == Entry::Reference(t.pages_id) by {
        assert(ids0.contains(t.kids@[j]));
    }
    assert(dictionaries(*doc)[pages_id] =~= node_entries(t.kids@));
    Ok(t)
}

} // verus!
