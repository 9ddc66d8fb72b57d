use pdf_ops::naming::{ensure_unique_path, fill_pattern};

#[test]
fn pattern_placeholders_are_filled() {
    assert_eq!(fill_pattern("{base}-{start}-{end}.pdf", "report", 3, 12, 2), "report-3-12.pdf");
    assert_eq!(fill_pattern("{index}_{base}_{index}.pdf", "x", 1, 1, 7), "7_x_7.pdf");
    assert_eq!(fill_pattern("plain.pdf", "x", 1, 2, 3), "plain.pdf");
    assert_eq!(fill_pattern("{start}{end}", "b", 0, 100, 1), "0100");
}

#[test]
fn base_placeholders_are_filled_before_the_others() {
    assert_eq!(fill_pattern("{base}.pdf", "a{start}", 5, 6, 1), "a5.pdf");
}

#[test]
fn free_path_is_kept() {
    let taken = vec!["other.pdf".to_string()];
    assert_eq!(ensure_unique_path("out/doc.pdf", &taken), "out/doc.pdf");
}

#[test]
fn taken_path_gets_first_free_suffix() {
    let taken = vec!["doc.pdf".to_string(), "doc_1.pdf".to_string(), "doc_2.pdf".to_string()];
    let r = ensure_unique_path("out/doc.pdf", &taken);
    assert_eq!(r, "out/doc_3.pdf");
    assert!(!taken.contains(&"doc_3.pdf".to_string()));
}

#[test]
fn suffix_without_extension_and_dotfiles() {
    let taken = vec!["notes".to_string(), ".hidden".to_string(), "a.b.pdf".to_string()];
    assert_eq!(ensure_unique_path("notes", &taken), "notes_1");
    assert_eq!(ensure_unique_path("/d/.hidden", &taken), "/d/.hidden_1");
    assert_eq!(ensure_unique_path("a.b.pdf", &taken), "a.b_1.pdf");
}

#[test]
fn all_suffixes_taken_uses_the_last_one() {
    let mut taken = vec!["p.pdf".to_string()];
    for i in 1..=10000 {
        taken.push(format!("p_{}.pdf", i));
    }
    assert_eq!(ensure_unique_path("p.pdf", &taken), "p_10000.pdf");
}
