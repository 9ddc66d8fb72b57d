//! Choosing candidate documents among the files found under a root directory.
//!
//! The walk itself happens outside the library; here the files it reports are
//! filtered by extension, by an explicit exclusion list and by inclusion /
//! exclude globs matched against the path relative to the root, and sorted.

use vstd::prelude::*;
use std::sync::Arc;
use std::sync::atomic::{AtomicBool, Ordering};
use vstd::seq_lib::{to_multiset_build, to_multiset_insert, to_multiset_len};
use crate::glob::{compile_glob, glob_is_valid, glob_matches, rule_matches, GlobRule};
use crate::naming::{after_last, extension, file_name, is_taken, last_index, names_of};
use crate::text::{chars_of, slice_chars, string_of};

verus! {

/// Where and how to look for documents.
pub struct ScanConfig {
    pub input_dir: String,
    pub includes: Vec<String>,
    pub excludes: Vec<String>,
    pub extra_exclude_paths: Vec<String>,
    pub max_depth: Option<usize>,
    pub follow_links: bool,
}

impl Default for ScanConfig {
    fn default() -> (r: ScanConfig)
        ensures
            r.input_dir@ == "."@,
            r.includes@.len() == 0,
            r.excludes@.len() == 0,
            r.extra_exclude_paths@.len() == 0,
            r.max_depth is None,
            !r.follow_links,
    {
        ScanConfig {
            input_dir: String::from_str("."),
            includes: Vec::new(),
            excludes: Vec::new(),
            extra_exclude_paths: Vec::new(),
            max_depth: None,
            follow_links: false,
        }
    }
}

/// Why a scan could not start.
#[derive(Clone, Debug, PartialEq, Eq)]
pub enum ScanError {
    /// An inclusion glob that does not parse.
    InvalidInclude(String),
    /// An exclusion glob that does not parse.
    InvalidExclude(String),
}

impl ScanError {
    /// A one-line description of the refusal.
    pub fn message(&self) -> (r: String)
        ensures
            r@ == match self {
                ScanError::InvalidInclude(p) => "invalid inclusion glob: "@ + p@,
                ScanError::InvalidExclude(p) => "invalid exclusion glob: "@ + p@,
            },
    {
        match self {
            ScanError::InvalidInclude(p) => {
                let mut m = String::from_str("invalid inclusion glob: ");
                m.append(p.as_str());
                m
            },
            ScanError::InvalidExclude(p) => {
                let mut m = String::from_str("invalid exclusion glob: ");
                m.append(p.as_str());
                m
            },
        }
    }
}

/// Whether the extension of the file name is `pdf`, in any letter case.
pub open spec fn is_pdf_path(p: Seq<char>) -> bool {
    let e = extension(file_name(p));
    &&& e.len() == 3
    &&& (e[0] == 'p' || e[0] == 'P')
    &&& (e[1] == 'd' || e[1] == 'D')
    &&& (e[2] == 'f' || e[2] == 'F')
}

/// `p` relative to `root`, where `root` is a leading run of whole components
/// of `p`; otherwise `p` itself.
pub open spec fn relative_to(root: Seq<char>, p: Seq<char>) -> Seq<char> {
    if 0 < root.len() <= p.len() && p.subrange(0, root.len() as int) == root {
        let rest = p.subrange(root.len() as int, p.len() as int);
        if rest.len() == 0 {
            rest
        } else if rest[0] == '/' {
            rest.drop_first()
        } else if root.last() == '/' {
            rest
        } else {
            p
        }
    } else {
        p
    }
}

pub open spec fn any_glob_matches(patterns: Seq<Seq<char>>, path: Seq<char>) -> bool {
    exists|i: int| 0 <= i < patterns.len() && glob_matches(#[trigger] patterns[i], path)
}

/// Whether the file `p` is a candidate: a `.pdf`, not excluded by path, taken
/// by the includes (all files where there are none) and by no exclude.
pub open spec fn path_selected(
    root: Seq<char>,
    includes: Seq<Seq<char>>,
    excludes: Seq<Seq<char>>,
    extra: Seq<Seq<char>>,
    p: Seq<char>,
) -> bool {
    let rel = relative_to(root, p);
    &&& is_pdf_path(p)
    &&& !extra.contains(p)
    &&& (includes.len() == 0 || any_glob_matches(includes, rel))
    &&& !any_glob_matches(excludes, rel)
}

pub open spec fn all_valid(patterns: Seq<Seq<char>>) -> bool {
    forall|i: int| 0 <= i < patterns.len() ==> glob_is_valid(#[trigger] patterns[i])
}

/// `p` is the first pattern of the list that does not parse.
pub open spec fn first_invalid(patterns: Seq<Seq<char>>, p: Seq<char>) -> bool {
    exists|i: int|
        0 <= i < patterns.len() && patterns[i] == p && !glob_is_valid(p) && all_valid(
            #[trigger] patterns.subrange(0, i),
        )
}

/// A file that an exclusion glob matches is never a candidate, whatever the
/// inclusion globs say.
pub proof fn lemma_exclusion_wins(
    root: Seq<char>,
    includes: Seq<Seq<char>>,
    excludes: Seq<Seq<char>>,
    extra: Seq<Seq<char>>,
    p: Seq<char>,
)
    requires
        any_glob_matches(excludes, relative_to(root, p)),
    ensures
        !path_selected(root, includes, excludes, extra, p),
{
}

/// The verdict on a set of inclusion and exclusion globs.
pub open spec fn globs_verdict<T>(includes: Seq<Seq<char>>, excludes: Seq<Seq<char>>, r: Result<T, ScanError>) -> bool {
    &&& (r is Ok <==> all_valid(includes) && all_valid(excludes))
    &&& (r matches Err(ScanError::InvalidInclude(p)) ==> first_invalid(includes, p@))
    &&& (r matches Err(ScanError::InvalidExclude(p)) ==> all_valid(includes) && first_invalid(excludes, p@))
}

pub open spec fn rule_patterns(rules: Seq<GlobRule>) -> Seq<Seq<char>> {
    rules.map_values(|g: GlobRule| g.pattern())
}

/// Compiled filters of a scan.
pub struct ScanFilter {
    pub root: String,
    pub includes: Vec<GlobRule>,
    pub excludes: Vec<GlobRule>,
    pub extra_exclude_paths: Vec<String>,
}

impl ScanFilter {
    pub open spec fn selects(&self, p: Seq<char>) -> bool {
        path_selected(
            self.root@,
            rule_patterns(self.includes@),
            rule_patterns(self.excludes@),
            names_of(self.extra_exclude_paths@),
            p,
        )
    }

    /// Compiles the globs of `cfg`; the first one that does not parse is reported.
    pub fn new(cfg: &ScanConfig) -> (r: Result<ScanFilter, ScanError>)
        ensures
            globs_verdict(names_of(cfg.includes@), names_of(cfg.excludes@), r),
            r matches Ok(f) ==> {
                &&& f.root@ == cfg.input_dir@
                &&& rule_patterns(f.includes@) == names_of(cfg.includes@)
                &&& rule_patterns(f.excludes@) == names_of(cfg.excludes@)
                &&& names_of(f.extra_exclude_paths@) == names_of(cfg.extra_exclude_paths@)
            },
    {
        let includes = match compile_all(&cfg.includes) {
            Ok(v) => v,
            Err(p) => { return Err(ScanError::InvalidInclude(p)); },
        };
        let excludes = match compile_all(&cfg.excludes) {
            Ok(v) => v,
            Err(p) => { return Err(ScanError::InvalidExclude(p)); },
        };
        let extra = clone_strings(&cfg.extra_exclude_paths);
        Ok(ScanFilter { root: cfg.input_dir.clone(), includes, excludes, extra_exclude_paths: extra })
    }

    /// Whether the file at `path` is a candidate.
    pub fn accepts(&self, path: &str) -> (b: bool)
        ensures
            b == self.selects(path@),
    {
        let v = chars_of(path);
        if !has_pdf_extension(&v) {
            return false;
        }
        let owned = String::from_str(path);
        if is_taken(&self.extra_exclude_paths, &owned) {
            return false;
        }
        let rel_chars = relative_chars(&chars_of(self.root.as_str()), &v);
        let rel = string_of(&rel_chars);
        let inc_ok = self.includes.len() == 0 || any_rule_matches(&self.includes, rel.as_str());
        inc_ok && !any_rule_matches(&self.excludes, rel.as_str())
    }
}

fn clone_strings(v: &Vec<String>) -> (r: Vec<String>)
    ensures
        names_of(r@) == names_of(v@),
{
    let mut r: Vec<String> = Vec::new();
    let mut i: usize = 0;
    while i < v.len()
        invariant
            i <= v.len(),
            r@.len() == i,
            forall|j: int| 0 <= j < i ==> (#[trigger] r@[j])@ == v@[j]@,
        decreases v.len() - i,
    {
        r.push(v[i].clone());
        i += 1;
    }
    assert(names_of(r@) =~= names_of(v@));
    r
}

/// Compiles each pattern, or names the first one that does not parse.
fn compile_all(patterns: &Vec<String>) -> (r: Result<Vec<GlobRule>, String>)
    ensures
        r is Ok <==> all_valid(names_of(patterns@)),
        r matches Ok(v) ==> rule_patterns(v@) == names_of(patterns@),
        r matches Err(p) ==> first_invalid(names_of(patterns@), p@),
{
    let mut out: Vec<GlobRule> = Vec::new();
    let mut i: usize = 0;
    while i < patterns.len()
        invariant
            i <= patterns.len(),
            out@.len() == i,
            forall|j: int| 0 <= j < i ==> (#[trigger] out@[j]).pattern() == patterns@[j]@,
            all_valid(names_of(patterns@).subrange(0, i as int)),
        decreases patterns.len() - i,
    {
        match compile_glob(&patterns[i]) {
            Ok(g) => {
                out.push(g);
                assert forall|j: int| 0 <= j < i + 1 implies glob_is_valid(#[trigger] names_of(patterns@).subrange(0, i + 1)[j]) by {
                    if j < i {
                        assert(names_of(patterns@).subrange(0, i + 1)[j] == names_of(patterns@).subrange(0, i as int)[j]);
                    }
                }
            },
            Err(_) => {
                let p = patterns[i].clone();
                assert(names_of(patterns@)[i as int] == p@);
                return Err(p);
            },
        }
        i += 1;
    }
    assert(names_of(patterns@).subrange(0, patterns.len() as int) =~= names_of(patterns@));
    assert(rule_patterns(out@) =~= names_of(patterns@));
    Ok(out)
}

fn any_rule_matches(rules: &Vec<GlobRule>, path: &str) -> (b: bool)
    ensures
        b == any_glob_matches(rule_patterns(rules@), path@),
{
    let mut i: usize = 0;
    while i < rules.len()
        invariant
            i <= rules.len(),
            forall|j: int| 0 <= j < i ==> !glob_matches(#[trigger] rule_patterns(rules@)[j], path@),
        decreases rules.len() - i,
    {
        if rule_matches(&rules[i], path) {
            assert(rule_patterns(rules@)[i as int] == rules@[i as int].pattern());
            return true;
        }
        assert(rule_patterns(rules@)[i as int] == rules@[i as int].pattern());
        i += 1;
    }
    false
}

fn has_pdf_extension(v: &Vec<char>) -> (b: bool)
    ensures
        b == is_pdf_path(v@),
{
    let k = after_last(v, '/');
    let name = slice_chars(v, k, v.len());
    assert(name@ == file_name(v@));
    let d = after_last(&name, '.');
    if d <= 1 {
        return false;
    }
    let e = slice_chars(&name, d, name.len());
    assert(e@ == extension(name@));
    e.len() == 3 && (e[0] == 'p' || e[0] == 'P') && (e[1] == 'd' || e[1] == 'D') && (e[2] == 'f'
        || e[2] == 'F')
}

fn starts_with(p: &Vec<char>, root: &Vec<char>) -> (b: bool)
    ensures
        b == (root.len() <= p.len() && p@.subrange(0, root.len() as int) == root@),
{
    if root.len() > p.len() {
        return false;
    }
    let mut k: usize = 0;
    while k < root.len()
        invariant
            root.len() <= p.len(),
            k <= root.len(),
            forall|j: int| 0 <= j < k ==> p@[j] == root@[j],
        decreases root.len() - k,
    {
        if p[k] != root[k] {
            assert(p@.subrange(0, root.len() as int)[k as int] != root@[k as int]);
            return false;
        }
        k += 1;
    }
    assert(p@.subrange(0, root.len() as int) =~= root@);
    true
}

fn relative_chars(root: &Vec<char>, p: &Vec<char>) -> (r: Vec<char>)
    ensures
        r@ == relative_to(root@, p@),
{
    if root.len() > 0 && starts_with(p, root) {
        let n = root.len();
        if n == p.len() {
            return slice_chars(p, n, n);
        }
        if p[n] == '/' {
            let r = slice_chars(p, n + 1, p.len());
            assert(r@ =~= p@.subrange(n as int, p.len() as int).drop_first());
            return r;
        }
        if root[n - 1] == '/' {
            return slice_chars(p, n, p.len());
        }
    }
    slice_chars(p, 0, p.len())
}

/// Lexicographic order on characters, the order of `str`'s comparison.
pub open spec fn lex_le(a: Seq<char>, b: Seq<char>) -> bool
    decreases a.len(),
{
    if a.len() == 0 {
        true
    } else if b.len() == 0 {
        false
    } else if a[0] != b[0] {
        a[0] < b[0]
    } else {
        lex_le(a.drop_first(), b.drop_first())
    }
}

pub open spec fn sorted_paths(s: Seq<Seq<char>>) -> bool {
    forall|i: int, j: int| 0 <= i < j < s.len() ==> lex_le(#[trigger] s[i], #[trigger] s[j])
}

proof fn lemma_lex_total(a: Seq<char>, b: Seq<char>)
    ensures
        lex_le(a, b) || lex_le(b, a),
    decreases a.len(),
{
    if a.len() > 0 && b.len() > 0 && a[0] == b[0] {
        lemma_lex_total(a.drop_first(), b.drop_first());
    }
}

proof fn lemma_lex_trans(a: Seq<char>, b: Seq<char>, c: Seq<char>)
    requires
        lex_le(a, b),
        lex_le(b, c),
    ensures
        lex_le(a, c),
    decreases a.len(),
{
    if a.len() > 0 && b.len() > 0 && c.len() > 0 && a[0] == b[0] && b[0] == c[0] {
        lemma_lex_trans(a.drop_first(), b.drop_first(), c.drop_first());
    }
}

proof fn lemma_lex_refl(a: Seq<char>)
    ensures
        lex_le(a, a),
    decreases a.len(),
{
    if a.len() > 0 {
        lemma_lex_refl(a.drop_first());
    }
}

fn lex_le_chars(a: &Vec<char>, b: &Vec<char>) -> (r: bool)
    ensures
        r == lex_le(a@, b@),
{
    let mut i: usize = 0;
    assert(a@.subrange(0, a.len() as int) =~= a@);
    assert(b@.subrange(0, b.len() as int) =~= b@);
    while i < a.len() && i < b.len() && a[i] == b[i]
        invariant
            i <= a.len(),
            i <= b.len(),
            lex_le(a@, b@) == lex_le(a@.subrange(i as int, a.len() as int), b@.subrange(i as int, b.len() as int)),
        decreases a.len() - i,
    {
        assert(a@.subrange(i as int, a.len() as int).drop_first() =~= a@.subrange(i + 1, a.len() as int));
        assert(b@.subrange(i as int, b.len() as int).drop_first() =~= b@.subrange(i + 1, b.len() as int));
        i += 1;
    }
    if i == a.len() {
        true
    } else if i == b.len() {
        false
    } else {
        a[i] < b[i]
    }
}

pub open spec fn views(s: Seq<Vec<char>>) -> Seq<Seq<char>> {
    s.map_values(|v: Vec<char>| v@)
}

/// Puts `e` into the sorted `out`, after every element not above it.
fn insert_sorted(out: &mut Vec<Vec<char>>, e: Vec<char>)
    requires
        sorted_paths(views(old(out)@)),
    ensures
        sorted_paths(views(final(out)@)),
        views(final(out)@).to_multiset() == views(old(out)@).to_multiset().insert(e@),
{
    let mut pos: usize = 0;
    while pos < out.len() && lex_le_chars(&out[pos], &e)
        invariant
            pos <= out.len(),
            out@ == old(out)@,
            forall|j: int| 0 <= j < pos ==> lex_le(#[trigger] views(out@)[j], e@),
        decreases out.len() - pos,
    {
        pos += 1;
    }
    let ghost before = views(out@);
    let ghost e_view = e@;
    out.insert(pos, e);
    proof {
        assert(views(out@) =~= before.insert(pos as int, e_view));
        to_multiset_insert(before, pos as int, e_view);
        if pos < before.len() {
            lemma_lex_total(before[pos as int], e_view);
        }
        let s = views(out@);
        assert forall|i: int, j: int| 0 <= i < j < s.len() implies lex_le(#[trigger] s[i], #[trigger] s[j]) by {
            if j < pos {
                assert(s[i] == before[i] && s[j] == before[j]);
            } else if j == pos {
                assert(s[i] == before[i]);
            } else if i == pos {
                assert(s[j] == before[j - 1]);
                if j - 1 > pos {
                    assert(lex_le(before[pos as int], before[j - 1]));
                } else {
                    lemma_lex_refl(before[pos as int]);
                }
                lemma_lex_trans(e_view, before[pos as int], before[j - 1]);
            } else if i < pos {
                assert(s[i] == before[i] && s[j] == before[j - 1]);
            } else {
                assert(s[i] == before[i - 1] && s[j] == before[j - 1]);
            }
        }
    }
}

/// The candidates among `files`, sorted by path: those that `filter` selects.
pub fn select_files(filter: &ScanFilter, files: &Vec<String>) -> (out: Vec<String>)
    ensures
        sorted_paths(names_of(out@)),
        names_of(out@).to_multiset() == names_of(files@).filter(|p: Seq<char>| filter.selects(p)).to_multiset(),
        (forall|i: int| 0 <= i < files@.len() ==> !filter.selects(#[trigger] files@[i]@)) ==> out@.len() == 0,
{
    let ghost sel = |p: Seq<char>| filter.selects(p);
    let mut acc: Vec<Vec<char>> = Vec::new();
    let mut i: usize = 0;
    proof {
        assert(views(acc@) =~= Seq::<Seq<char>>::empty());
        let e = names_of(files@).subrange(0, 0);
        e.lemma_filter_len(sel);
        assert(e.filter(sel) =~= Seq::<Seq<char>>::empty());
    }
    while i < files.len()
        invariant
            i <= files.len(),
            forall|p: Seq<char>| filter.selects(p) == sel(p),
            sorted_paths(views(acc@)),
            views(acc@).to_multiset() == names_of(files@).subrange(0, i as int).filter(sel).to_multiset(),
        decreases files.len() - i,
    {
        let ghost prefix = names_of(files@).subrange(0, i as int);
        assert(names_of(files@).subrange(0, i + 1) =~= prefix.push(files@[i as int]@));
        proof { prefix.lemma_filter_push(files@[i as int]@, sel); }
        if filter.accepts(files[i].as_str()) {
            let v = chars_of(files[i].as_str());
            proof { to_multiset_build(prefix.filter(sel), v@); }
            insert_sorted(&mut acc, v);
        }
        i += 1;
    }
    assert(names_of(files@).subrange(0, files.len() as int) =~= names_of(files@));
    let mut out: Vec<String> = Vec::new();
    let mut k: usize = 0;
    while k < acc.len()
        invariant
            k <= acc.len(),
            out@.len() == k,
            forall|j: int| 0 <= j < k ==> (#[trigger] out@[j])@ == acc@[j]@,
        decreases acc.len() - k,
    {
        out.push(string_of(&acc[k]));
        k += 1;
    }
    assert(names_of(out@) =~= views(acc@));
    proof {
        let fs = names_of(files@);
        if forall|i: int| 0 <= i < files@.len() ==> !filter.selects(#[trigger] files@[i]@) {
            assert forall|i: int| 0 <= i < fs.len() implies !sel(#[trigger] fs[i]) by {
                assert(fs[i] == files@[i]@);
            }
            fs.lemma_all_neg_filter_empty(sel);
            to_multiset_len(names_of(out@));
            to_multiset_len(fs.filter(sel));
        }
    }
    out
}

/// The candidate documents among `files`, sorted by path.
///
/// `files` are the regular files found under `input_dir`. A candidate has the
/// extension `pdf` (any case), is not one of `extra_exclude_paths`, is matched
/// by some inclusion glob (any file, where there are none) and by no exclusion
/// glob, the globs being matched against the path relative to `input_dir`.
/// A glob that does not parse fails the call before any file is looked at.
pub fn collect_pdfs(
    input_dir: &str,
    includes: &Vec<String>,
    excludes: &Vec<String>,
    extra_exclude_paths: &Vec<String>,
    files: &Vec<String>,
) -> (r: Result<Vec<String>, ScanError>)
    ensures
        globs_verdict(names_of(includes@), names_of(excludes@), r),
        all_valid(names_of(includes@)) && all_valid(names_of(excludes@)) && (forall|i: int|
            0 <= i < files@.len() ==> !path_selected(
                input_dir@,
                names_of(includes@),
                names_of(excludes@),
                names_of(extra_exclude_paths@),
                #[trigger] files@[i]@,
            )) ==> (r matches Ok(out) && out@.len() == 0),
        r matches Ok(out) ==> {
            &&& sorted_paths(names_of(out@))
            &&& names_of(out@).to_multiset() == names_of(files@).filter(
                |p: Seq<char>| path_selected(input_dir@, names_of(includes@), names_of(excludes@), names_of(extra_exclude_paths@), p),
            ).to_multiset()
        },
{
    let cfg = ScanConfig {
        input_dir: String::from_str(input_dir),
        includes: clone_strings(includes),
        excludes: clone_strings(excludes),
        extra_exclude_paths: clone_strings(extra_exclude_paths),
        max_depth: None,
        follow_links: false,
    };
    let filter = match ScanFilter::new(&cfg) {
        Ok(f) => f,
        Err(e) => { return Err(e); },
    };
    let out = select_files(&filter, files);
    let ghost sel = |p: Seq<char>| path_selected(input_dir@, names_of(includes@), names_of(excludes@), names_of(extra_exclude_paths@), p);
    let ghost by_filter = |p: Seq<char>| filter.selects(p);
    assert(by_filter =~= sel);
    proof {
        if forall|i: int| 0 <= i < files@.len() ==> !path_selected(input_dir@, names_of(includes@), names_of(excludes@), names_of(extra_exclude_paths@), #[trigger] files@[i]@) {
            assert forall|i: int| 0 <= i < files@.len() implies !filter.selects(#[trigger] files@[i]@) by {}
        }
    }
    Ok(out)
}

/// What a streaming scan reports.
pub enum ScanEvent {
    /// A candidate document.
    Found(String),
    /// An entry that could not be read; the walk goes on.
    Error(String),
    /// The walk is over (finished or cancelled).
    Done,
}

/// One entry as the directory walk reports it.
pub struct WalkEntry {
    pub path: String,
    pub is_file: bool,
}

/// What the scanning worker does with one entry of the walk.
pub enum ScanStep {
    /// Stop walking: the scan was cancelled.
    Stop,
    /// Nothing to report for this entry.
    Skip,
    /// Send this event and go on.
    Emit(ScanEvent),
}

/// The decision of a streaming scan on one entry: stop once cancelled, report
/// unreadable entries, report candidates, pass over everything else.
pub fn scan_step(filter: &ScanFilter, canceled: bool, entry: &Result<WalkEntry, String>) -> (r: ScanStep)
    ensures
        canceled ==> r is Stop,
        !canceled ==> match entry {
            Err(m) => r matches ScanStep::Emit(ScanEvent::Error(x)) && x@ == m@,
            Ok(e) => if e.is_file && filter.selects(e.path@) {
                r matches ScanStep::Emit(ScanEvent::Found(x)) && x@ == e.path@
            } else {
                r is Skip
            },
        },
{
    if canceled {
        return ScanStep::Stop;
    }
    match entry {
        Err(m) => ScanStep::Emit(ScanEvent::Error(m.clone())),
        Ok(e) => {
            if e.is_file && filter.accepts(e.path.as_str()) {
                ScanStep::Emit(ScanEvent::Found(e.path.clone()))
            } else {
                ScanStep::Skip
            }
        },
    }
}

/// A shared flag that asks a running scan to stop.
#[derive(Clone)]
pub struct CancelHandle(Arc<AtomicBool>);

impl CancelHandle {
    /// A handle that is not cancelled yet.
    pub fn new() -> (r: CancelHandle) {
        CancelHandle(Arc::new(AtomicBool::new(false)))
    }

    /// Asks the scan to stop; it does so at its next entry.
    pub fn cancel(&self) {
        self.0.store(true, Ordering::Relaxed);
    }

    /// Whether the scan was asked to stop. Another thread may set the flag at
    /// any moment, so nothing is promised of the answer.
    pub fn is_canceled(&self) -> (r: bool) {
        self.0.load(Ordering::Relaxed)
    }
}

} // verus!
