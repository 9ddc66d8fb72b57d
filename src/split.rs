//! Splitting one document into several, one output per page group.

use vstd::prelude::*;
use lopdf::Document;
use crate::pdf::{
    absorb_objects, dictionaries, max_id, new_document, object_count, object_ids, page_ids, page_list, renumbered,
    set_max_id, ObjectId,
};
use crate::spec::{parse_spec, parse_spec_model, range_end, PageRange, SpecError};
use crate::tree::{all_dictionaries, finish_tree, is_assembled, AssemblyError, PageTree};

verus! {

/// Why a split did not go ahead.
pub enum SplitError {
    /// The document has no pages.
    NoPages,
    /// Neither one group per page nor explicit ranges were asked for.
    NoPolicy,
    /// The ranges text does not parse.
    Spec(SpecError),
    /// An output document could not be put together.
    Assembly(AssemblyError),
}

/// One output of a split: its 1-based group number and its pages, 1-based
/// and inclusive.
#[derive(Clone, Copy, Debug, PartialEq, Eq, Structural)]
pub struct SplitPart {
    pub index: usize,
    pub start: usize,
    pub end: usize,
}

/// One group per page.
pub open spec fn page_groups(total: nat) -> Seq<PageRange> {
    Seq::new(total, |i: int| PageRange { start: (i + 1) as usize, end: Some((i + 1) as usize) })
}

/// The part that group number `index` gives: its start raised to 1, its end
/// cut at the last page; none where that leaves it empty.
pub open spec fn group_part(g: PageRange, total: nat, index: nat) -> Option<SplitPart> {
    let start: nat = if g.start < 1 { 1 } else { g.start as nat };
    let end = range_end(g, total);
    if end < start {
        None
    } else {
        Some(SplitPart { index: index as usize, start: start as usize, end: end as usize })
    }
}

/// The parts that `groups` give, in group order.
pub open spec fn planned_parts(groups: Seq<PageRange>, total: nat) -> Seq<SplitPart>
    decreases groups.len(),
{
    if groups.len() == 0 {
        Seq::empty()
    } else {
        let rest = planned_parts(groups.drop_last(), total);
        match group_part(groups.last(), total, groups.len()) {
            Some(p) => rest.push(p),
            None => rest,
        }
    }
}

/// The groups a split uses: one per page, else the ranges of the text.
pub open spec fn split_groups(each: bool, ranges: Option<Seq<char>>, total: nat) -> Option<Seq<PageRange>> {
    if each {
        Some(page_groups(total))
    } else {
        match ranges {
            Some(t) => match parse_spec_model(t) {
                Ok(rs) => Some(rs),
                Err(_) => None,
            },
            None => None,
        }
    }
}

proof fn lemma_page_groups_all_kept(total: nat, k: nat)
    requires
        k <= total,
        total <= usize::MAX,
    ensures
        planned_parts(page_groups(total).subrange(0, k as int), total).len() == k,
    decreases k,
{
    if k > 0 {
        let g = page_groups(total).subrange(0, k as int);
        assert(g.drop_last() =~= page_groups(total).subrange(0, k - 1));
        lemma_page_groups_all_kept(total, (k - 1) as nat);
        assert(g.last() == PageRange { start: k as usize, end: Some(k as usize) });
    }
}

/// Splitting by single pages gives one part per page.
pub proof fn lemma_each_page_one_part(total: nat)
    requires
        total <= usize::MAX,
    ensures
        planned_parts(page_groups(total), total).len() == total,
{
    lemma_page_groups_all_kept(total, total);
    assert(page_groups(total).subrange(0, total as int) =~= page_groups(total));
}

/// Decides the outputs of a split of a document of `total_pages` pages.
///
/// With `each`, every page is a group of its own; otherwise `ranges_spec`
/// gives the groups. Groups are numbered from 1 in order; a group left empty
/// once clamped to the document gives no output and no error.
pub fn plan_split(each: bool, ranges_spec: Option<&str>, total_pages: usize) -> (r: Result<Vec<SplitPart>, SplitError>)
    ensures
        total_pages == 0 ==> r matches Err(SplitError::NoPages),
        total_pages > 0 && !each ==> match ranges_spec {
            Some(t) => match parse_spec_model(t@) {
                Err(e) => r matches Err(SplitError::Spec(x)) && x@ == e,
                Ok(_) => r is Ok,
            },
            None => r matches Err(SplitError::NoPolicy),
        },
        total_pages > 0 && each ==> r is Ok,
        r matches Ok(parts) ==> split_groups(
            each,
            match ranges_spec {
                Some(t) => Some(t@),
                None => None,
            },
            total_pages as nat,
        ) matches Some(gs) && parts@ == planned_parts(gs, total_pages as nat),
        each ==> (r matches Ok(parts) ==> parts@.len() == total_pages),
{
    if total_pages == 0 {
        return Err(SplitError::NoPages);
    }
    let groups: Vec<PageRange> = if each {
        let mut gs: Vec<PageRange> = Vec::new();
        let mut p: usize = 0;
        while p < total_pages
            invariant
                p <= total_pages,
                gs@ == page_groups(total_pages as nat).subrange(0, p as int),
            decreases total_pages - p,
        {
            gs.push(PageRange { start: p + 1, end: Some(p + 1) });
            p += 1;
            assert(gs@ =~= page_groups(total_pages as nat).subrange(0, p as int));
        }
        assert(page_groups(total_pages as nat).subrange(0, total_pages as int) =~= page_groups(total_pages as nat));
        gs
    } else {
        match ranges_spec {
            Some(t) => match parse_spec(t) {
                Ok(rs) => rs,
                Err(e) => { return Err(SplitError::Spec(e)); },
            },
            None => { return Err(SplitError::NoPolicy); },
        }
    };
    let mut parts: Vec<SplitPart> = Vec::new();
    let mut i: usize = 0;
    while i < groups.len()
        invariant
            i <= groups.len(),
            parts@ == planned_parts(groups@.subrange(0, i as int), total_pages as nat),
        decreases groups.len() - i,
    {
        let g = groups[i];
        assert(groups@.subrange(0, i + 1).drop_last() =~= groups@.subrange(0, i as int));
        let start = if g.start < 1 { 1 } else { g.start };
        let end = match g.end {
            Some(e) => if e < total_pages { e } else { total_pages },
            None => total_pages,
        };
        if end >= start {
            parts.push(SplitPart { index: i + 1, start, end });
        }
        i += 1;
    }
    assert(groups@.subrange(0, groups.len() as int) =~= groups@);
    proof {
        if each {
            lemma_each_page_one_part(total_pages as nat);
        }
    }
    Ok(parts)
}

/// The number of pages of `doc`.
pub fn page_count(doc: &Document) -> (r: usize)
    ensures
        r == page_ids(*doc).len(),
{
    page_list(doc).len()
}

/// The pages at 1-based positions `start..=end`, in order.
pub open spec fn pages_between(pages: Seq<ObjectId>, start: nat, end: nat) -> Seq<ObjectId>
    decreases pages.len(),
{
    if pages.len() == 0 {
        Seq::empty()
    } else {
        let rest = pages_between(pages.drop_last(), start, end);
        if start <= pages.len() <= end {
            rest.push(pages.last())
        } else {
            rest
        }
    }
}

/// One output document of a split.
pub struct Part {
    pub document: Document,
    pub tree: PageTree,
}

/// The pages of the renumbered copy that part `start..=end` takes.
pub open spec fn part_pages(copy: Document, start: nat, end: nat) -> Seq<ObjectId> {
    pages_between(page_ids(renumbered(copy, 1)), start, end)
}

/// Builds the output for pages `start..=end` (1-based) out of `copy`, a fresh
/// copy of the source: the copy is renumbered from 1, all its objects are
/// kept, and the selected pages get a page tree, catalog and trailer of
/// their own.
pub fn build_part(copy: Document, start: usize, end: usize) -> (r: Result<Part, SplitError>)
    ensures
        r matches Ok(p) ==> {
            &&& is_assembled(p.document, p.tree)
            &&& p.tree.kids@ == part_pages(copy, start as nat, end as nat)
            &&& object_ids(p.document) == object_ids(renumbered(copy, 1)).insert(p.tree.pages_id).insert(
                p.tree.catalog_id,
            )
            &&& !object_ids(renumbered(copy, 1)).contains(p.tree.pages_id)
            &&& !object_ids(renumbered(copy, 1)).contains(p.tree.catalog_id)
        },
        r matches Err(e) ==> e is Assembly,
        r matches Err(SplitError::Assembly(AssemblyError::TooLarge)) ==> page_ids(copy).len() >= 0x7fff_ffff
            || object_ids(copy).len() + 1 >= u32::MAX || part_pages(copy, start as nat, end as nat).len() > i64::MAX,
        page_ids(copy).len() < 0x7fff_ffff && object_ids(copy).len() + 1 < u32::MAX && part_pages(
            copy,
            start as nat,
            end as nat,
        ).len() <= i64::MAX && all_dictionaries(renumbered(copy, 1), part_pages(copy, start as nat, end as nat))
            ==> r is Ok,
{
    let mut src = copy;
    let mut out = new_document("1.5");
    let total = page_count(&src);
    let count = object_count(&src);
    if total >= 0x7fff_ffff || count > (u32::MAX - 1) as usize {
        return Err(SplitError::Assembly(AssemblyError::TooLarge));
    }
    src.renumber_objects_with(1);
    set_max_id(&mut out, max_id(&src));
    let pages = page_list(&src);
    let mut kept: Vec<ObjectId> = Vec::new();
    let mut j: usize = 0;
    while j < pages.len()
        invariant
            j <= pages.len(),
            kept@ == pages_between(pages@.subrange(0, j as int), start as nat, end as nat),
        decreases pages.len() - j,
    {
        assert(pages@.subrange(0, j + 1).drop_last() =~= pages@.subrange(0, j as int));
        if j + 1 >= start && j + 1 <= end {
            kept.push(pages[j]);
        }
        j += 1;
    }
    assert(pages@.subrange(0, pages.len() as int) =~= pages@);
    let ghost renumbered_copy = src;
    absorb_objects(&mut out, src);
    assert(object_ids(out) =~= object_ids(renumbered_copy));
    assert(dictionaries(out) =~= dictionaries(renumbered_copy));
    match finish_tree(&mut out, kept) {
        Ok(tree) => Ok(Part { document: out, tree }),
        Err(e) => Err(SplitError::Assembly(e)),
    }
}

} // verus!
