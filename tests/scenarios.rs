use lopdf::{Dictionary, Document, Object, ObjectId};
use pdf_ops::merge::{run_with_files, Source};
use pdf_ops::naming::fill_pattern;
use pdf_ops::progress::NullProgress;
use pdf_ops::scan::collect_pdfs;
use pdf_ops::split::{build_part, page_count, plan_split};

fn create_pdf(pages: usize) -> Document {
    let mut doc = Document::with_version("1.5");
    let mut page_ids: Vec<ObjectId> = Vec::new();
    for _ in 0..pages {
        let page_id = doc.new_object_id();
        let mut page = Dictionary::new();
        page.set("Type", "Page");
        page.set("Resources", Dictionary::new());
        page.set("MediaBox", vec![0.into(), 0.into(), 200.into(), 200.into()]);
        doc.objects.insert(page_id, Object::Dictionary(page));
        page_ids.push(page_id);
    }
    let pages_id = doc.new_object_id();
    for &pid in &page_ids {
        let page_dict = doc.objects.get_mut(&pid).unwrap().as_dict_mut().unwrap();
        page_dict.set("Parent", Object::Reference(pages_id));
    }
    let kids: Vec<Object> = page_ids.iter().map(|&id| Object::Reference(id)).collect();
    let mut pages_dict = Dictionary::new();
    pages_dict.set("Type", "Pages");
    pages_dict.set("Kids", Object::Array(kids));
    pages_dict.set("Count", pages as i64);
    doc.objects.insert(pages_id, Object::Dictionary(pages_dict));
    let catalog_id = doc.new_object_id();
    let mut catalog_dict = Dictionary::new();
    catalog_dict.set("Type", "Catalog");
    catalog_dict.set("Pages", Object::Reference(pages_id));
    doc.objects.insert(catalog_id, Object::Dictionary(catalog_dict));
    doc.trailer.set("Root", Object::Reference(catalog_id));
    doc
}

/// The three inputs of the merge scenario, by path.
fn pages_of(path: &str) -> usize {
    match path {
        "in/a.pdf" => 2,
        "in/b.pdf" => 3,
        _ => 4,
    }
}

fn merged_page_count(includes: &[&str], excludes: &[&str], pages: Option<&str>) -> usize {
    let files: Vec<String> = vec!["in/a.pdf".to_string(), "in/b.pdf".to_string(), "in/sub/c.pdf".to_string()];
    let inc: Vec<String> = includes.iter().map(|s| s.to_string()).collect();
    let exc: Vec<String> = excludes.iter().map(|s| s.to_string()).collect();
    let picked = collect_pdfs("in", &inc, &exc, &vec!["out.pdf".to_string()], &files).unwrap();
    let sources: Vec<Source> = picked
        .iter()
        .map(|p| Source { name: p.clone(), document: create_pdf(pages_of(p)) })
        .collect();
    let merged = run_with_files(sources, false, pages, false, &NullProgress).ok().unwrap();
    let mut bytes: Vec<u8> = Vec::new();
    let mut doc = merged.document;
    doc.save_to(&mut bytes).unwrap();
    Document::load_mem(&bytes).unwrap().get_pages().len()
}

#[test]
fn merge_all_and_with_pages_and_filters() {
    // include only b.pdf
    assert_eq!(merged_page_count(&["b.pdf"], &[], None), 3);
    // exclude sub/** => a + b
    assert_eq!(merged_page_count(&[], &["sub/**"], None), 2 + 3);
    // pages 1-2 applied to each of a (2) and b (3)
    assert_eq!(merged_page_count(&[], &["sub/**"], Some("1-2")), 4);
}

fn split_outputs(each: bool, ranges: Option<&str>) -> Vec<String> {
    let total = page_count(&create_pdf(3));
    let parts = plan_split(each, ranges, total).ok().unwrap();
    let mut names = Vec::new();
    for part in parts {
        let built = build_part(create_pdf(3), part.start, part.end).ok().unwrap();
        assert_eq!(built.tree.kids.len(), part.end - part.start + 1);
        names.push(fill_pattern("{base}-{start}-{end}.pdf", "in", part.start, part.end, part.index));
    }
    names
}

#[test]
fn split_defaults_to_each_and_ranges() {
    let each = split_outputs(true, None);
    assert_eq!(each.len(), 3);
    assert_eq!(each, vec!["in-1-1.pdf", "in-2-2.pdf", "in-3-3.pdf"]);
    let ranged = split_outputs(false, Some("1-2,3-3"));
    assert_eq!(ranged.len(), 2);
    assert_eq!(ranged, vec!["in-1-2.pdf", "in-3-3.pdf"]);
}
