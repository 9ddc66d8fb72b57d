use lopdf::{Dictionary, Document, Object, ObjectId};
use pdf_ops::merge::{check_merge_request, run_with_files, MergeError, Source};
use pdf_ops::progress::{NullProgress, ProgressSink};
use pdf_ops::split::{build_part, page_count, plan_split, SplitError, SplitPart};
use pdf_ops::spec::SpecError;
use pdf_ops::tree::AssemblyError;
use std::cell::Cell;

fn make_pdf(pages: usize) -> Document {
    let mut doc = Document::with_version("1.5");
    let mut page_ids: Vec<ObjectId> = Vec::new();
    for _ in 0..pages {
        let page_id = doc.new_object_id();
        let mut page = Dictionary::new();
        page.set("Type", "Page");
        page.set("Resources", Dictionary::new());
        page.set("MediaBox", vec![0.into(), 0.into(), 200.into(), 200.into()]);
        doc.objects.insert(page_id, Object::Dictionary(page));
        page_ids.push(page_id);
    }
    let pages_id = doc.new_object_id();
    for &pid in &page_ids {
        let page_dict = doc.objects.get_mut(&pid).unwrap().as_dict_mut().unwrap();
        page_dict.set("Parent", Object::Reference(pages_id));
    }
    let kids: Vec<Object> = page_ids.iter().map(|&id| Object::Reference(id)).collect();
    let mut pages_dict = Dictionary::new();
    pages_dict.set("Type", "Pages");
    pages_dict.set("Kids", Object::Array(kids));
    pages_dict.set("Count", pages as i64);
    doc.objects.insert(pages_id, Object::Dictionary(pages_dict));
    let catalog_id = doc.new_object_id();
    let mut catalog_dict = Dictionary::new();
    catalog_dict.set("Type", "Catalog");
    catalog_dict.set("Pages", Object::Reference(pages_id));
    doc.objects.insert(catalog_id, Object::Dictionary(catalog_dict));
    doc.trailer.set("Root", Object::Reference(catalog_id));
    doc.trailer.set("Info", Object::Reference((999, 0)));
    doc
}

fn source(name: &str, pages: usize) -> Source {
    Source { name: name.to_string(), document: make_pdf(pages) }
}

fn reloaded_page_count(doc: &mut Document) -> usize {
    let mut bytes: Vec<u8> = Vec::new();
    doc.save_to(&mut bytes).unwrap();
    Document::load_mem(&bytes).unwrap().get_pages().len()
}

struct Counting {
    len: Cell<u64>,
    pos: Cell<u64>,
    messages: Cell<u64>,
}

impl ProgressSink for Counting {
    fn set_len(&self, len: u64) {
        self.len.set(len);
    }
    fn inc(&self, n: u64) {
        self.pos.set(self.pos.get() + n);
    }
    fn set_message(&self, _msg: &str) {
        self.messages.set(self.messages.get() + 1);
    }
}

#[test]
fn merge_two_sources_keeps_all_pages_in_order() {
    let progress = Counting { len: Cell::new(0), pos: Cell::new(0), messages: Cell::new(0) };
    let m = run_with_files(vec![source("a.pdf", 2), source("b.pdf", 3)], false, None, false, &progress)
        .ok()
        .unwrap();
    assert_eq!(m.tree.kids.len(), 5);
    let mut sorted = m.tree.kids.clone();
    sorted.sort();
    assert_eq!(sorted, m.tree.kids);
    let pages: Vec<ObjectId> = m.document.get_pages().into_values().collect();
    assert_eq!(pages, m.tree.kids);
    assert_eq!(progress.len.get(), 2);
    assert_eq!(progress.pos.get(), 2);
    assert_eq!(progress.messages.get(), 2);
    let mut doc = m.document;
    assert_eq!(reloaded_page_count(&mut doc), 5);
}

#[test]
fn merge_applies_the_selection_to_each_source() {
    let m = run_with_files(vec![source("a.pdf", 2), source("b.pdf", 3)], false, Some("1-2"), false, &NullProgress)
        .ok()
        .unwrap();
    assert_eq!(m.tree.kids.len(), 4);
    let mut doc = m.document;
    assert_eq!(reloaded_page_count(&mut doc), 4);
}

#[test]
fn merged_trailer_names_only_the_new_catalog() {
    let m = run_with_files(vec![source("a.pdf", 1), source("b.pdf", 1)], false, None, false, &NullProgress)
        .ok()
        .unwrap();
    assert_eq!(m.document.trailer.len(), 1);
    let root = m.document.trailer.get(b"Root").unwrap().as_reference().unwrap();
    assert_eq!(root, m.tree.catalog_id);
    let catalog = m.document.get_dictionary(root).unwrap();
    assert_eq!(catalog.get(b"Pages").unwrap().as_reference().unwrap(), m.tree.pages_id);
    let node = m.document.get_dictionary(m.tree.pages_id).unwrap();
    assert_eq!(node.get(b"Count").unwrap().as_i64().unwrap(), 2);
    for kid in &m.tree.kids {
        let page = m.document.get_dictionary(*kid).unwrap();
        assert_eq!(page.get(b"Parent").unwrap().as_reference().unwrap(), m.tree.pages_id);
    }
}

#[test]
fn merge_identifiers_do_not_collide() {
    let m = run_with_files(vec![source("a.pdf", 3), source("b.pdf", 3)], false, None, false, &NullProgress)
        .ok()
        .unwrap();
    // 2 sources of 3 pages + node + catalog each, plus the new node and catalog
    assert_eq!(m.document.objects.len(), 2 * 5 + 2);
}

#[test]
fn merge_refuses_existing_output_first() {
    let r = run_with_files(vec![], true, Some("x"), false, &NullProgress);
    assert!(matches!(r, Err(MergeError::OutputExists)));
    assert!(matches!(check_merge_request(3, true, false), Err(MergeError::OutputExists)));
    assert!(check_merge_request(3, true, true).is_ok());
    assert!(check_merge_request(1, false, false).is_ok());
}

#[test]
fn merge_refuses_empty_input_and_bad_selection() {
    assert!(matches!(run_with_files(vec![], false, None, false, &NullProgress), Err(MergeError::NoInput)));
    assert!(matches!(check_merge_request(0, false, false), Err(MergeError::NoInput)));
    let r = run_with_files(vec![source("a.pdf", 2)], false, Some("3-1"), false, &NullProgress);
    match r {
        Err(MergeError::Spec(e)) => assert_eq!(e, SpecError::InvalidSegment("3-1".to_string())),
        _ => panic!("expected a selection error"),
    }
}

#[test]
fn merge_with_overwrite_allowed_goes_ahead() {
    let m = run_with_files(vec![source("a.pdf", 2)], true, Some("2"), true, &NullProgress).ok().unwrap();
    assert_eq!(m.tree.kids.len(), 1);
}

/// A document whose only page is reached through an indirect reference, so
/// that the page identifier names a reference rather than a dictionary.
fn indirect_page_pdf() -> Document {
    let mut doc = make_pdf(1);
    let first = doc.get_pages().into_values().next().unwrap();
    let page = doc.objects.remove(&first).unwrap();
    doc.objects.insert((100, 0), page);
    doc.objects.insert(first, Object::Reference((100, 0)));
    doc.max_id = 100;
    doc
}

#[test]
fn merge_reports_a_page_that_is_not_a_dictionary() {
    let r = run_with_files(
        vec![Source { name: "x.pdf".to_string(), document: indirect_page_pdf() }],
        false,
        None,
        false,
        &NullProgress,
    );
    assert!(matches!(r, Err(MergeError::Assembly(AssemblyError::NotDictionary(_)))));
}

#[test]
fn plan_one_part_per_page() {
    let parts = plan_split(true, None, 3).ok().unwrap();
    assert_eq!(
        parts,
        vec![
            SplitPart { index: 1, start: 1, end: 1 },
            SplitPart { index: 2, start: 2, end: 2 },
            SplitPart { index: 3, start: 3, end: 3 },
        ]
    );
}

#[test]
fn plan_by_ranges_gives_one_part_per_range() {
    let parts = plan_split(false, Some("1-2,3-3"), 3).ok().unwrap();
    assert_eq!(parts, vec![SplitPart { index: 1, start: 1, end: 2 }, SplitPart { index: 2, start: 3, end: 3 }]);
}

#[test]
fn plan_skips_groups_outside_the_document() {
    let parts = plan_split(false, Some("5-9,0-1,2-"), 3).ok().unwrap();
    assert_eq!(parts, vec![SplitPart { index: 2, start: 1, end: 1 }, SplitPart { index: 3, start: 2, end: 3 }]);
}

#[test]
fn plan_errors() {
    assert!(matches!(plan_split(true, None, 0), Err(SplitError::NoPages)));
    assert!(matches!(plan_split(false, None, 4), Err(SplitError::NoPolicy)));
    assert!(matches!(plan_split(false, Some("a"), 4), Err(SplitError::Spec(SpecError::InvalidNumber(_)))));
    assert_eq!(plan_split(true, Some("a"), 2).ok().unwrap().len(), 2);
}

#[test]
fn split_parts_hold_their_pages() {
    let doc = make_pdf(3);
    assert_eq!(page_count(&doc), 3);
    let part = build_part(make_pdf(3), 1, 2).ok().unwrap();
    assert_eq!(part.tree.kids.len(), 2);
    let mut d = part.document;
    assert_eq!(reloaded_page_count(&mut d), 2);
    let part = build_part(make_pdf(3), 3, 3).ok().unwrap();
    assert_eq!(part.tree.kids.len(), 1);
    let pages: Vec<ObjectId> = part.document.get_pages().into_values().collect();
    assert_eq!(pages, part.tree.kids);
}

#[test]
fn split_part_with_an_indirect_page_fails() {
    let r = build_part(indirect_page_pdf(), 1, 1);
    assert!(matches!(r, Err(SplitError::Assembly(AssemblyError::NotDictionary(_)))));
}
