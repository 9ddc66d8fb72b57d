//! Merging an ordered list of documents, each optionally page-filtered, into one.

use vstd::prelude::*;
use lopdf::Document;
use crate::pdf::{
    absorb_objects, dictionaries, dictionary_ids, max_id, max_id_of, new_document, object_count, object_ids,
    page_ids, page_list, renumbered, set_max_id, ObjectId,
};
use crate::progress::ProgressSink;
use crate::spec::{expand_to_indexes, parse_spec, parse_spec_model, selects, PageRange, SpecError};
use crate::tree::{all_dictionaries, finish_tree, is_assembled, numbers_below, AssemblyError, PageTree};

verus! {

/// One input of a merge: a loaded document and the name it is reported under.
pub struct Source {
    pub name: String,
    pub document: Document,
}

/// Why a merge did not produce a document.
pub enum MergeError {
    /// The output exists and overwriting was not allowed.
    OutputExists,
    /// There is nothing to merge.
    NoInput,
    /// The page selection text does not parse.
    Spec(SpecError),
    /// The merged document could not be put together.
    Assembly(AssemblyError),
}

/// A merged document with its synthesized page tree.
pub struct Merged {
    pub document: Document,
    pub tree: PageTree,
}

/// The number that source `i` is renumbered from: 1 for the first, then one
/// past the last number given to the source before.
pub open spec fn start_of(sources: Seq<Source>, i: int) -> nat
    decreases i,
{
    if i <= 0 {
        1
    } else {
        start_of(sources, i - 1) + object_ids(renumbered(sources[i - 1].document, start_of(sources, i - 1) as u32)).len()
    }
}

/// Source `i` as renumbered for the merge.
pub open spec fn renumbered_source(sources: Seq<Source>, i: int) -> Document {
    renumbered(sources[i].document, start_of(sources, i) as u32)
}

/// The page identifiers of each renumbered source, in page order.
pub open spec fn source_page_lists(sources: Seq<Source>) -> Seq<Seq<ObjectId>> {
    Seq::new(sources.len(), |i: int| page_ids(renumbered_source(sources, i)))
}

/// The object identifiers of each renumbered source.
pub open spec fn source_object_sets(sources: Seq<Source>) -> Seq<Set<ObjectId>> {
    Seq::new(sources.len(), |i: int| object_ids(renumbered_source(sources, i)))
}

/// Every page that source `i` contributes is a dictionary of it.
pub open spec fn source_pages_present(sources: Seq<Source>, ranges: Option<Seq<PageRange>>, i: int) -> bool {
    all_dictionaries(
        renumbered_source(sources, i),
        kept_pages(page_ids(renumbered_source(sources, i)), ranges, page_ids(sources[i].document).len()),
    )
}

/// All identifiers of a sequence of identifier sets.
pub open spec fn union_all(sets: Seq<Set<ObjectId>>) -> Set<ObjectId>
    decreases sets.len(),
{
    if sets.len() == 0 {
        Set::empty()
    } else {
        union_all(sets.drop_last()).union(sets.last())
    }
}

/// Every identifier of a later set has a higher number than every identifier
/// of an earlier one.
pub open spec fn ascending_sets(sets: Seq<Set<ObjectId>>) -> bool {
    forall|i: int, j: int, a: ObjectId, b: ObjectId|
        0 <= i < j < sets.len() && #[trigger] sets[i].contains(a) && #[trigger] sets[j].contains(b) ==> a.0 < b.0
}

proof fn lemma_union_all_contains(sets: Seq<Set<ObjectId>>, i: int, a: ObjectId)
    requires
        0 <= i < sets.len(),
        sets[i].contains(a),
    ensures
        union_all(sets).contains(a),
    decreases sets.len(),
{
    if i < sets.len() - 1 {
        lemma_union_all_contains(sets.drop_last(), i, a);
    }
}

/// The ranges that a selection text denotes, where it parses.
pub open spec fn ranges_of(pages_spec: Option<Seq<char>>) -> Option<Seq<PageRange>> {
    match pages_spec {
        Some(t) => match parse_spec_model(t) {
            Ok(rs) => Some(rs),
            Err(_) => None,
        },
        None => None,
    }
}

/// Whether zero-based page `i` of a document of `total` pages is kept.
pub open spec fn keeps(ranges: Option<Seq<PageRange>>, total: nat, i: nat) -> bool {
    match ranges {
        Some(rs) => selects(rs, total, i),
        None => true,
    }
}

/// The pages kept, in their order: those whose position is selected.
pub open spec fn kept_pages(pages: Seq<ObjectId>, ranges: Option<Seq<PageRange>>, total: nat) -> Seq<ObjectId>
    decreases pages.len(),
{
    if pages.len() == 0 {
        Seq::empty()
    } else {
        let rest = kept_pages(pages.drop_last(), ranges, total);
        if keeps(ranges, total, (pages.len() - 1) as nat) {
            rest.push(pages.last())
        } else {
            rest
        }
    }
}

/// The pages of a merge: the kept pages of each source, source after source.
/// `totals[i]` is the page count that selection is measured against.
pub open spec fn merged_pages(source_pages: Seq<Seq<ObjectId>>, totals: Seq<nat>, ranges: Option<Seq<PageRange>>) -> Seq<ObjectId>
    decreases source_pages.len(),
{
    if source_pages.len() == 0 {
        Seq::empty()
    } else {
        let n = source_pages.len() - 1;
        merged_pages(source_pages.drop_last(), totals, ranges) + kept_pages(source_pages.last(), ranges, totals[n])
    }
}

/// The number of objects of all sources together.
pub open spec fn total_objects(sources: Seq<Source>) -> nat
    decreases sources.len(),
{
    if sources.len() == 0 {
        0
    } else {
        total_objects(sources.drop_last()) + object_ids(sources.last().document).len()
    }
}

/// Some source has too many pages for renumbering, or all of them together
/// too many objects for 32-bit object numbers.
pub open spec fn too_large(sources: Seq<Source>) -> bool {
    ||| exists|i: int| 0 <= i < sources.len() && page_ids((#[trigger] sources[i]).document).len() >= 0x7fff_ffff
    ||| total_objects(sources) + 2 > u32::MAX
}

proof fn lemma_total_objects_prefix(s: Seq<Source>, k: int)
    requires
        0 <= k <= s.len(),
    ensures
        total_objects(s.subrange(0, k)) <= total_objects(s),
    decreases s.len() - k,
{
    if k < s.len() {
        assert(s.subrange(0, k + 1).drop_last() =~= s.subrange(0, k));
        lemma_total_objects_prefix(s, k + 1);
    } else {
        assert(s.subrange(0, k) =~= s);
    }
}

/// The selection text, if any, as characters.
pub open spec fn spec_text_of(pages_spec: Option<&str>) -> Option<Seq<char>> {
    match pages_spec {
        Some(t) => Some(t@),
        None => None,
    }
}

/// The page count of each source as loaded.
pub open spec fn page_totals(sources: Seq<Source>) -> Seq<nat> {
    sources.map_values(|s: Source| page_ids(s.document).len())
}

/// The checks made before any file is touched: an existing output is refused
/// unless overwriting is allowed, then an empty input list.
pub fn check_merge_request(file_count: usize, output_exists: bool, force: bool) -> (r: Result<(), MergeError>)
    ensures
        output_exists && !force ==> r matches Err(MergeError::OutputExists),
        !(output_exists && !force) && file_count == 0 ==> r matches Err(MergeError::NoInput),
        !(output_exists && !force) && file_count > 0 ==> r is Ok,
{
    if output_exists && !force {
        Err(MergeError::OutputExists)
    } else if file_count == 0 {
        Err(MergeError::NoInput)
    } else {
        Ok(())
    }
}

fn contains_index(v: &Vec<usize>, i: usize) -> (b: bool)
    ensures
        b == v@.contains(i),
{
    let mut k: usize = 0;
    while k < v.len()
        invariant
            k <= v.len(),
            forall|j: int| 0 <= j < k ==> v@[j] != i,
        decreases v.len() - k,
    {
        if v[k] == i {
            assert(v@[k as int] == i);
            return true;
        }
        k += 1;
    }
    false
}

/// Appends to `kept` the pages whose position `indexes` holds (all of them
/// where there is no selection).
fn keep_selected(kept: &mut Vec<ObjectId>, pages: &Vec<ObjectId>, indexes: &Option<Vec<usize>>, ghost_ranges: Ghost<Option<Seq<PageRange>>>, total: usize)
    requires
        match ghost_ranges@ {
            None => indexes is None,
            Some(rs) => indexes matches Some(v) && forall|i: usize| v@.contains(i) <==> selects(rs, total as nat, i as nat),
        },
    ensures
        final(kept)@ == old(kept)@ + kept_pages(pages@, ghost_ranges@, total as nat),
{
    let mut j: usize = 0;
    assert(old(kept)@ + kept_pages(pages@.subrange(0, 0), ghost_ranges@, total as nat) =~= old(kept)@);
    while j < pages.len()
        invariant
            j <= pages.len(),
            match ghost_ranges@ {
                None => indexes is None,
                Some(rs) => indexes matches Some(v) && forall|i: usize| v@.contains(i) <==> selects(rs, total as nat, i as nat),
            },
            kept@ == old(kept)@ + kept_pages(pages@.subrange(0, j as int), ghost_ranges@, total as nat),
        decreases pages.len() - j,
    {
        let ghost pre = pages@.subrange(0, j as int);
        assert(pages@.subrange(0, j + 1).drop_last() =~= pre);
        let take = match indexes {
            Some(v) => contains_index(v, j),
            None => true,
        };
        if take {
            kept.push(pages[j]);
            assert(kept@ =~= old(kept)@ + kept_pages(pages@.subrange(0, j + 1), ghost_ranges@, total as nat));
        }
        j += 1;
    }
    assert(pages@.subrange(0, pages.len() as int) =~= pages@);
}

/// Merges `sources`, in order, into one new document.
///
/// Each source is renumbered above every object taken so far, so identifiers
/// never collide; its pages are kept where `pages_spec` selects their
/// position, measured against that source's own page count (all of them
/// without a selection), and its whole object table comes along. The kept
/// pages then hang, in order, under one new page-tree node, named by a new
/// catalog that a new trailer names alone.
///
/// `output_exists` says whether the output path is occupied; that and an
/// empty source list are refused before anything else.
pub fn run_with_files<P: ProgressSink>(
    sources: Vec<Source>,
    output_exists: bool,
    pages_spec: Option<&str>,
    force: bool,
    progress: &P,
) -> (r: Result<Merged, MergeError>)
    ensures
        output_exists && !force ==> r matches Err(MergeError::OutputExists),
        !(output_exists && !force) && sources@.len() == 0 ==> r matches Err(MergeError::NoInput),
        !(output_exists && !force) && sources@.len() > 0 ==> match pages_spec {
            Some(t) => match parse_spec_model(t@) {
                Err(e) => r matches Err(MergeError::Spec(x)) && x@ == e,
                Ok(_) => !(r matches Err(MergeError::Spec(_))),
            },
            None => !(r matches Err(MergeError::Spec(_))),
        },
        r matches Err(MergeError::Assembly(AssemblyError::TooLarge)) ==> too_large(sources@) || merged_pages(
            source_page_lists(sources@),
            page_totals(sources@),
            ranges_of(spec_text_of(pages_spec)),
        ).len() > i64::MAX,
        !(output_exists && !force) && sources@.len() > 0 && (pages_spec matches Some(t) ==> parse_spec_model(t@) is Ok)
            && !too_large(sources@) && merged_pages(
            source_page_lists(sources@),
            page_totals(sources@),
            ranges_of(spec_text_of(pages_spec)),
        ).len() <= i64::MAX && (forall|i: int|
            0 <= i < sources@.len() ==> #[trigger] source_pages_present(sources@, ranges_of(spec_text_of(pages_spec)), i))
            ==> r is Ok,
        r matches Ok(m) ==> {
            &&& !(output_exists && !force)
            &&& is_assembled(m.document, m.tree)
            &&& m.tree.kids@ == merged_pages(
                source_page_lists(sources@),
                page_totals(sources@),
                ranges_of(spec_text_of(pages_spec)),
            )
            &&& ascending_sets(source_object_sets(sources@))
            &&& object_ids(m.document) == union_all(source_object_sets(sources@)).insert(m.tree.pages_id).insert(
                m.tree.catalog_id,
            )
            &&& !union_all(source_object_sets(sources@)).contains(m.tree.pages_id)
            &&& !union_all(source_object_sets(sources@)).contains(m.tree.catalog_id)
        },
{
    match check_merge_request(sources.len(), output_exists, force) {
        Ok(()) => {},
        Err(e) => { return Err(e); },
    }
    let ghost spec_text = spec_text_of(pages_spec);
    let ranges: Option<Vec<PageRange>> = match pages_spec {
        Some(t) => match parse_spec(t) {
            Ok(rs) => Some(rs),
            Err(e) => { return Err(MergeError::Spec(e)); },
        },
        None => None,
    };
    let ghost gr = ranges_of(spec_text);
    assert(match gr {
        None => ranges is None,
        Some(rs) => ranges matches Some(v) && v@ == rs,
    });
    progress.set_len(sources.len() as u64);
    let ghost orig = sources@;
    let ghost totals = page_totals(orig);
    let mut rest = sources;
    let mut doc = new_document("1.5");
    let mut kept: Vec<ObjectId> = Vec::new();
    let ghost mut sp: Seq<Seq<ObjectId>> = Seq::empty();
    let ghost mut so: Seq<Set<ObjectId>> = Seq::empty();
    let mut k: usize = 0;
    assert(rest@ =~= orig.subrange(0, orig.len() as int));
    while rest.len() > 0
        invariant
            k + rest@.len() == orig.len(),
            orig == sources@,
            orig.len() > 0,
            orig.len() <= usize::MAX,
            !(output_exists && !force),
            spec_text == spec_text_of(pages_spec),
            spec_text matches Some(t) ==> parse_spec_model(t) is Ok,
            rest@ == orig.subrange(k as int, orig.len() as int),
            totals == page_totals(orig),
            sp.len() == k,
            so.len() == k,
            forall|i: int| 0 <= i < k ==> #[trigger] sp[i] == page_ids(renumbered_source(orig, i)),
            forall|i: int| 0 <= i < k ==> #[trigger] so[i] == object_ids(renumbered_source(orig, i)),
            object_ids(doc) == union_all(so),
            ascending_sets(so),
            match gr {
                None => ranges is None,
                Some(rs) => ranges matches Some(v) && v@ == rs,
            },
            numbers_below(doc, max_id_of(doc)),
            max_id_of(doc) as nat <= total_objects(orig.subrange(0, k as int)),
            max_id_of(doc) as nat + 1 == start_of(orig, k as int),
            kept@ == merged_pages(sp, totals, gr),
            (forall|i: int| 0 <= i < k ==> #[trigger] source_pages_present(orig, gr, i)) ==> all_dictionaries(doc, kept@),
        decreases rest@.len(),
    {
        let src_entry = rest.remove(0);
        assert(src_entry == orig[k as int]);
        let Source { name, document } = src_entry;
        let mut src = document;
        progress.set_message(name.as_str());
        let before = page_list(&src);
        let total = before.len();
        assert(totals[k as int] == total as nat);
        let indexes: Option<Vec<usize>> = match &ranges {
            Some(rs) => Some(expand_to_indexes(rs.as_slice(), total)),
            None => None,
        };
        proof {
            assert(orig.subrange(0, k + 1).drop_last() =~= orig.subrange(0, k as int));
            lemma_total_objects_prefix(orig, k + 1);
        }
        if total >= 0x7fff_ffff {
            assert(page_ids(orig[k as int].document).len() >= 0x7fff_ffff);
            return Err(MergeError::Assembly(AssemblyError::TooLarge));
        }
        let count = object_count(&src);
        let m = max_id(&doc);
        if m >= u32::MAX || count > (u32::MAX - m - 1) as usize {
            return Err(MergeError::Assembly(AssemblyError::TooLarge));
        }
        let ghost ids_before = object_ids(doc);
        let ghost dicts_before = dictionaries(doc);
        let ghost kept_before = kept@;
        src.renumber_objects_with(m + 1);
        assert(src == renumbered_source(orig, k as int));
        let ghost renumbered_ids = object_ids(src);
        let new_max = max_id(&src);
        set_max_id(&mut doc, new_max);
        let pages = page_list(&src);
        keep_selected(&mut kept, &pages, &indexes, Ghost(gr), total);
        let ghost src_dicts = dictionaries(src);
        absorb_objects(&mut doc, src);
        proof {
            let sp2 = sp.push(pages@);
            assert(sp2.drop_last() =~= sp);
            sp = sp2;
            let so2 = so.push(renumbered_ids);
            assert(so2.drop_last() =~= so);
            assert forall|i: int, j: int, a: ObjectId, b: ObjectId|
                0 <= i < j < so2.len() && #[trigger] so2[i].contains(a) && #[trigger] so2[j].contains(b) implies a.0 < b.0 by {
                if j == so.len() {
                    lemma_union_all_contains(so, i, a);
                    assert(ids_before.contains(a));
                } else {
                    assert(so2[i] == so[i] && so2[j] == so[j]);
                }
            }
            so = so2;
            assert(object_ids(doc) =~= union_all(so));
            assert(rest@ =~= orig.subrange(k + 1, orig.len() as int));
            if forall|i: int| 0 <= i < k + 1 ==> #[trigger] source_pages_present(orig, gr, i) {
                assert(source_pages_present(orig, gr, k as int));
                let kp = kept_pages(pages@, gr, total as nat);
                assert forall|j: int| 0 <= j < kept@.len() implies object_ids(doc).contains(#[trigger] kept@[j])
                    && dictionary_ids(doc).contains(kept@[j]) by {
                    if j < kept_before.len() {
                        assert(kept_before[j] == kept@[j]);
                        assert(ids_before.contains(kept@[j]));
                        assert(!renumbered_ids.contains(kept@[j]));
                        assert(!src_dicts.contains_key(kept@[j]));
                        assert(dicts_before.contains_key(kept@[j]));
                    } else {
                        assert(kept@[j] == kp[j - kept_before.len()]);
                    }
                }
            }
        }
        progress.inc(1);
        k += 1;
    }
    proof {
        assert(orig.subrange(0, orig.len() as int) =~= orig);
        assert(sp =~= source_page_lists(orig));
        assert(so =~= source_object_sets(orig));
    }
    match finish_tree(&mut doc, kept) {
        Ok(tree) => Ok(Merged { document: doc, tree }),
        Err(e) => Err(MergeError::Assembly(e)),
    }
}

} // verus!
