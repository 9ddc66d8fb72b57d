use pdf_ops::scan::{
    collect_pdfs, scan_step, CancelHandle, ScanConfig, ScanError, ScanEvent, ScanFilter, ScanStep, WalkEntry,
};

fn strings(v: &[&str]) -> Vec<String> {
    v.iter().map(|s| s.to_string()).collect()
}

fn tree() -> Vec<String> {
    strings(&["in/sub/c.pdf", "in/b.pdf", "in/a.pdf", "in/notes.txt"])
}

#[test]
fn collect_without_globs_takes_every_pdf_sorted() {
    let r = collect_pdfs("in", &vec![], &vec![], &vec![], &tree()).unwrap();
    assert_eq!(r, strings(&["in/a.pdf", "in/b.pdf", "in/sub/c.pdf"]));
}

#[test]
fn inclusion_glob_picks_one_nested_file() {
    let r = collect_pdfs("in", &strings(&["sub/*.pdf"]), &vec![], &vec![], &tree()).unwrap();
    assert_eq!(r, strings(&["in/sub/c.pdf"]));
    let r = collect_pdfs("in", &strings(&["b.pdf"]), &vec![], &vec![], &tree()).unwrap();
    assert_eq!(r, strings(&["in/b.pdf"]));
}

#[test]
fn exclusion_wins_over_inclusion() {
    let r = collect_pdfs("in", &vec![], &strings(&["sub/**"]), &vec![], &tree()).unwrap();
    assert_eq!(r, strings(&["in/a.pdf", "in/b.pdf"]));
    let r = collect_pdfs("in", &strings(&["sub/*.pdf"]), &strings(&["sub/**"]), &vec![], &tree()).unwrap();
    assert_eq!(r, Vec::<String>::new());
}

#[test]
fn no_matching_files_is_empty_not_an_error() {
    let r = collect_pdfs("in", &vec![], &vec![], &vec![], &strings(&["in/x.txt", "in/pdf", "in/.pdf"])).unwrap();
    assert!(r.is_empty());
    let r = collect_pdfs("in", &vec![], &vec![], &vec![], &vec![]).unwrap();
    assert!(r.is_empty());
}

#[test]
fn extension_case_and_extra_exclusions() {
    let files = strings(&["in/Z.PDF", "in/y.Pdf", "in/out.pdf"]);
    let r = collect_pdfs("in", &vec![], &vec![], &strings(&["in/out.pdf"]), &files).unwrap();
    assert_eq!(r, strings(&["in/Z.PDF", "in/y.Pdf"]));
}

#[test]
fn sorting_is_by_path_text() {
    let files = strings(&["r/b/x.pdf", "r/a-b.pdf", "r/a/z.pdf", "r/B.pdf"]);
    let r = collect_pdfs("r", &vec![], &vec![], &vec![], &files).unwrap();
    assert_eq!(r, strings(&["r/B.pdf", "r/a-b.pdf", "r/a/z.pdf", "r/b/x.pdf"]));
}

#[test]
fn malformed_globs_fail_up_front() {
    let r = collect_pdfs("in", &strings(&["ok/*", "a[", "b["]), &vec![], &vec![], &tree());
    assert_eq!(r, Err(ScanError::InvalidInclude("a[".to_string())));
    let r = collect_pdfs("in", &vec![], &strings(&["{x"]), &vec![], &tree());
    assert_eq!(r, Err(ScanError::InvalidExclude("{x".to_string())));
}

#[test]
fn root_with_trailing_slash_and_dot_root() {
    let r = collect_pdfs("in/", &strings(&["a.pdf"]), &vec![], &vec![], &strings(&["in/a.pdf", "in/b.pdf"])).unwrap();
    assert_eq!(r, strings(&["in/a.pdf"]));
    let r = collect_pdfs(".", &strings(&["a.pdf"]), &vec![], &vec![], &strings(&["./a.pdf", "./b.pdf"])).unwrap();
    assert_eq!(r, strings(&["./a.pdf"]));
}

#[test]
fn stream_steps_follow_the_filter() {
    let mut cfg = ScanConfig::default();
    cfg.input_dir = "in".to_string();
    cfg.excludes = strings(&["sub/**"]);
    let filter = ScanFilter::new(&cfg).ok().unwrap();
    let found = Ok(WalkEntry { path: "in/a.pdf".to_string(), is_file: true });
    match scan_step(&filter, false, &found) {
        ScanStep::Emit(ScanEvent::Found(p)) => assert_eq!(p, "in/a.pdf"),
        _ => panic!("expected a found event"),
    }
    let dir = Ok(WalkEntry { path: "in/dir.pdf".to_string(), is_file: false });
    assert!(matches!(scan_step(&filter, false, &dir), ScanStep::Skip));
    let excluded = Ok(WalkEntry { path: "in/sub/c.pdf".to_string(), is_file: true });
    assert!(matches!(scan_step(&filter, false, &excluded), ScanStep::Skip));
    let bad: Result<WalkEntry, String> = Err("denied".to_string());
    match scan_step(&filter, false, &bad) {
        ScanStep::Emit(ScanEvent::Error(m)) => assert_eq!(m, "denied"),
        _ => panic!("expected an error event"),
    }
    assert!(matches!(scan_step(&filter, true, &found), ScanStep::Stop));
}

#[test]
fn cancel_handle_is_shared_between_clones() {
    let h = CancelHandle::new();
    let other = h.clone();
    assert!(!other.is_canceled());
    h.cancel();
    assert!(other.is_canceled());
}

#[test]
fn compiled_filter_selects_and_sorts() {
    let mut cfg = ScanConfig::default();
    cfg.input_dir = "in".to_string();
    cfg.includes = strings(&["*.pdf"]);
    let filter = ScanFilter::new(&cfg).ok().unwrap();
    let r = pdf_ops::scan::select_files(&filter, &tree());
    assert_eq!(r, strings(&["in/a.pdf", "in/b.pdf", "in/sub/c.pdf"]));
    let mut bad = ScanConfig::default();
    bad.excludes = strings(&["[z"]);
    assert!(matches!(ScanFilter::new(&bad), Err(ScanError::InvalidExclude(_))));
}

#[test]
fn very_long_glob_is_an_error_not_a_panic() {
    let long: String = std::iter::repeat("a?").take(300_000).collect();
    let r = collect_pdfs("in", &vec![long], &vec![], &vec![], &tree());
    assert!(matches!(r, Err(ScanError::InvalidInclude(_))));
}
