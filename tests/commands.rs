use pdf_ops::cli::{Cli, Commands, MergeArgs, SplitArgs};
use pdf_ops::scan::ScanConfig;

#[test]
fn no_subcommand_means_default_merge() {
    match (Cli { command: None }).default_to_merge() {
        Commands::Merge(a) => {
            assert_eq!(a.input_dir, ".");
            assert_eq!(a.output, "merged.pdf");
            assert!(a.pages.is_none() && a.includes.is_empty() && a.excludes.is_empty() && !a.force);
        }
        _ => panic!("expected a merge"),
    }
}

#[test]
fn named_subcommand_is_kept() {
    let split = SplitArgs {
        input: "in.pdf".to_string(),
        out_dir: "out".to_string(),
        each: false,
        ranges: Some("1-2".to_string()),
        pattern: "{base}-{index}.pdf".to_string(),
        force: true,
    };
    match (Cli { command: Some(Commands::Split(split)) }).default_to_merge() {
        Commands::Split(a) => {
            assert_eq!(a.input, "in.pdf");
            assert_eq!(a.ranges.as_deref(), Some("1-2"));
        }
        _ => panic!("expected a split"),
    }
}

#[test]
fn defaults_of_settings() {
    let m = MergeArgs::default();
    assert_eq!(m.output, "merged.pdf");
    let c = ScanConfig::default();
    assert_eq!(c.input_dir, ".");
    assert!(c.includes.is_empty() && c.excludes.is_empty() && c.extra_exclude_paths.is_empty());
    assert!(c.max_depth.is_none() && !c.follow_links);
}
