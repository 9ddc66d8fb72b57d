//! The page-range language: `"1-3,5,10-"` and the like, 1-based and inclusive.

use vstd::prelude::*;
use crate::text::{
    chars_of, decimal, decimal_chars, parse_usize, parse_usize_spec, push_all, slice_chars, string_of, trim,
    trim_chars,
};

verus! {

/// A run of pages, 1-based and inclusive; `end == None` runs to the last page.
#[derive(Clone, Copy, Debug, PartialEq, Eq, Structural)]
pub struct PageRange {
    pub start: usize,
    pub end: Option<usize>,
}

/// Why a page-range text was refused.
#[derive(Clone, Debug, PartialEq, Eq)]
pub enum SpecError {
    /// A token that is not a decimal page number.
    InvalidNumber(String),
    /// A closed range whose end lies before its start.
    InvalidSegment(String),
}

/// What a refusal says, over character sequences.
pub enum SpecFault {
    InvalidNumber(Seq<char>),
    InvalidSegment(Seq<char>),
}

impl View for SpecError {
    type V = SpecFault;

    open spec fn view(&self) -> SpecFault {
        match self {
            SpecError::InvalidNumber(s) => SpecFault::InvalidNumber(s@),
            SpecError::InvalidSegment(s) => SpecFault::InvalidSegment(s@),
        }
    }
}

impl SpecError {
    /// A one-line description of the refusal.
    pub fn message(&self) -> (r: String)
        ensures
            r@ == match self@ {
                SpecFault::InvalidNumber(t) => "invalid number: "@ + t,
                SpecFault::InvalidSegment(t) => "invalid range segment: "@ + t,
            },
    {
        match self {
            SpecError::InvalidNumber(s) => {
                let mut m = String::from_str("invalid number: ");
                m.append(s.as_str());
                m
            },
            SpecError::InvalidSegment(s) => {
                let mut m = String::from_str("invalid range segment: ");
                m.append(s.as_str());
                m
            },
        }
    }
}

/// The comma-separated pieces of `s`, empty ones included.
pub open spec fn pieces(s: Seq<char>) -> Seq<Seq<char>>
    decreases s.len(),
{
    if s.len() == 0 {
        seq![Seq::empty()]
    } else {
        let p = pieces(s.drop_last());
        if s.last() == ',' {
            p.push(Seq::empty())
        } else {
            p.update(p.len() - 1, p.last().push(s.last()))
        }
    }
}

/// Index of the first `-` in `s`, if any.
pub open spec fn first_dash(s: Seq<char>) -> Option<int> {
    if exists|i: int| 0 <= i < s.len() && s[i] == '-' {
        Some(choose|i: int| 0 <= i < s.len() && s[i] == '-' && forall|j: int| 0 <= j < i ==> s[j] != '-')
    } else {
        None
    }
}

/// The range that one trimmed, non-empty segment denotes.
pub open spec fn segment_range(seg: Seq<char>) -> Result<PageRange, SpecFault> {
    match first_dash(seg) {
        Some(i) => {
            let a = seg.subrange(0, i);
            let b = seg.subrange(i + 1, seg.len() as int);
            let start = if a.len() == 0 { Some(1nat) } else { parse_usize_spec(a) };
            let end = if b.len() == 0 { Some(0nat) } else { parse_usize_spec(b) };
            if start is None {
                Err(SpecFault::InvalidNumber(a))
            } else if end is None {
                Err(SpecFault::InvalidNumber(b))
            } else if b.len() > 0 && end->0 < start->0 {
                Err(SpecFault::InvalidSegment(seg))
            } else {
                Ok(PageRange {
                    start: start->0 as usize,
                    end: if b.len() == 0 { None } else { Some(end->0 as usize) },
                })
            }
        },
        None => match parse_usize_spec(seg) {
            Some(p) => Ok(PageRange { start: p as usize, end: Some(p as usize) }),
            None => Err(SpecFault::InvalidNumber(seg)),
        },
    }
}

/// Parsing a list of pieces: blank ones are skipped, the first bad one decides.
pub open spec fn parse_pieces(ps: Seq<Seq<char>>) -> Result<Seq<PageRange>, SpecFault>
    decreases ps.len(),
{
    if ps.len() == 0 {
        Ok(Seq::empty())
    } else {
        match parse_pieces(ps.drop_last()) {
            Err(e) => Err(e),
            Ok(rs) => {
                let t = trim(ps.last());
                if t.len() == 0 {
                    Ok(rs)
                } else {
                    match segment_range(t) {
                        Err(e) => Err(e),
                        Ok(r) => Ok(rs.push(r)),
                    }
                }
            },
        }
    }
}

/// What a page-range text denotes.
pub open spec fn parse_spec_model(s: Seq<char>) -> Result<Seq<PageRange>, SpecFault> {
    parse_pieces(pieces(s))
}

/// The last page that `r` reaches in a document of `total` pages.
pub open spec fn range_end(r: PageRange, total: nat) -> nat {
    match r.end {
        Some(e) => if (e as nat) < total { e as nat } else { total },
        None => total,
    }
}

/// Whether zero-based page `i` of a document of `total` pages is selected.
pub open spec fn selects(ranges: Seq<PageRange>, total: nat, i: nat) -> bool {
    &&& i < total
    &&& exists|k: int|
        0 <= k < ranges.len() && (#[trigger] ranges[k]).start <= i + 1 && i + 1 <= range_end(
            ranges[k],
            total,
        )
}

pub open spec fn strictly_increasing(s: Seq<usize>) -> bool {
    forall|a: int, b: int| 0 <= a < b < s.len() ==> s[a] < s[b]
}

/// The selected zero-based pages, in ascending order, each once.
pub open spec fn is_expansion(r: Seq<usize>, ranges: Seq<PageRange>, total: nat) -> bool {
    &&& strictly_increasing(r)
    &&& forall|i: usize| r.contains(i) <==> selects(ranges, total, i as nat)
}

proof fn lemma_pieces_comma(s: Seq<char>, i: int)
    requires
        0 <= i < s.len(),
        s[i] == ',',
    ensures
        pieces(s.subrange(0, i + 1)) == pieces(s.subrange(0, i)).push(Seq::empty()),
{
    assert(s.subrange(0, i + 1).drop_last() =~= s.subrange(0, i));
}

proof fn lemma_pieces_other(s: Seq<char>, i: int)
    requires
        0 <= i < s.len(),
        s[i] != ',',
    ensures
        pieces(s.subrange(0, i + 1)) == pieces(s.subrange(0, i)).update(
            pieces(s.subrange(0, i)).len() - 1,
            pieces(s.subrange(0, i)).last().push(s[i]),
        ),
{
    assert(s.subrange(0, i + 1).drop_last() =~= s.subrange(0, i));
}

proof fn lemma_pieces_nonempty(s: Seq<char>)
    ensures
        pieces(s).len() >= 1,
    decreases s.len(),
{
    if s.len() > 0 {
        lemma_pieces_nonempty(s.drop_last());
    }
}

/// Parses one trimmed, non-empty segment.
fn parse_segment(seg: &Vec<char>) -> (r: Result<PageRange, SpecError>)
    requires
        seg.len() > 0,
    ensures
        match segment_range(seg@) {
            Ok(p) => r == Ok::<PageRange, SpecError>(p),
            Err(e) => r is Err && r->Err_0@ == e,
        },
{
    let n = seg.len();
    let mut i: usize = 0;
    while i < n && seg[i] != '-'
        invariant
            i <= n == seg.len(),
            forall|j: int| 0 <= j < i ==> seg@[j] != '-',
        decreases n - i,
    {
        i += 1;
    }
    if i < n {
        proof {
            assert(first_dash(seg@) is Some);
            let k = first_dash(seg@)->0;
            assert(k == i as int) by {
                if k < i as int {
                } else if k > i as int {
                }
            }
        }
        let a = slice_chars(seg, 0, i);
        let b = slice_chars(seg, i + 1, n);
        let start = if a.len() == 0 { Some(1usize) } else { parse_usize(&a) };
        let start = match start {
            Some(v) => v,
            None => { return Err(SpecError::InvalidNumber(string_of(&a))); },
        };
        let end = if b.len() == 0 {
            None
        } else {
            match parse_usize(&b) {
                Some(v) => Some(v),
                None => { return Err(SpecError::InvalidNumber(string_of(&b))); },
            }
        };
        match end {
            Some(e) => {
                if e < start {
                    return Err(SpecError::InvalidSegment(string_of(seg)));
                }
            },
            None => {},
        }
        Ok(PageRange { start, end })
    } else {
        assert(first_dash(seg@) is None);
        match parse_usize(seg) {
            Some(p) => Ok(PageRange { start: p, end: Some(p) }),
            None => Err(SpecError::InvalidNumber(string_of(seg))),
        }
    }
}

/// Reads a page-range text such as `"1-3,5,10-"`.
///
/// Segments are split on commas and trimmed, blank ones skipped. A segment is
/// `N` (the one page N), `A-B`, `A-` (to the last page) or `-B` (from page 1).
/// The ranges come out in the order written.
pub fn parse_spec(spec: &str) -> (r: Result<Vec<PageRange>, SpecError>)
    ensures
        match parse_spec_model(spec@) {
            Ok(rs) => r is Ok && r->Ok_0@ == rs,
            Err(e) => r is Err && r->Err_0@ == e,
        },
{
    let v = chars_of(spec);
    let n = v.len();
    let mut out: Vec<PageRange> = Vec::new();
    let mut cur: Vec<char> = Vec::new();
    let mut i: usize = 0;
    proof { assert(v@.subrange(0, 0) =~= Seq::<char>::empty()); }
    while i < n
        invariant
            i <= n == v.len(),
            v@ == spec@,
            pieces(v@.subrange(0, i as int)).len() >= 1,
            cur@ == pieces(v@.subrange(0, i as int)).last(),
            parse_pieces(pieces(v@.subrange(0, i as int)).drop_last()) == Ok::<Seq<PageRange>, SpecFault>(out@),
        decreases n - i,
    {
        let c = v[i];
        let ghost before = pieces(v@.subrange(0, i as int));
        if c == ',' {
            proof { lemma_pieces_comma(v@, i as int); }
            let ghost after = pieces(v@.subrange(0, i as int + 1));
            assert(after.drop_last() =~= before);
            assert(before.drop_last() =~= after.drop_last().drop_last());
            let t = trim_chars(&cur);
            if t.len() > 0 {
                match parse_segment(&t) {
                    Ok(r) => out.push(r),
                    Err(e) => {
                        proof {
                            assert(parse_pieces(after.drop_last()) is Err);
                            lemma_parse_err_extends(v@, i as int + 1);
                        }
                        return Err(e);
                    },
                }
            }
            cur = Vec::new();
            assert(cur@ =~= after.last());
        } else {
            proof { lemma_pieces_other(v@, i as int); }
            let ghost after = pieces(v@.subrange(0, i as int + 1));
            assert(after.drop_last() =~= before.drop_last());
            cur.push(c);
        }
        i += 1;
    }
    assert(v@.subrange(0, n as int) =~= v@);
    let ghost ps = pieces(v@);
    assert(ps.drop_last().push(ps.last()) =~= ps);
    let t = trim_chars(&cur);
    if t.len() > 0 {
        match parse_segment(&t) {
            Ok(r) => out.push(r),
            Err(e) => { return Err(e); },
        }
    }
    Ok(out)
}

/// Whether zero-based page `i` lies in one of `ranges`.
fn is_selected(ranges: &[PageRange], total: usize, i: usize) -> (b: bool)
    requires
        i < total,
    ensures
        b == selects(ranges@, total as nat, i as nat),
{
    let mut k: usize = 0;
    while k < ranges.len()
        invariant
            i < total,
            k <= ranges@.len(),
            forall|j: int| 0 <= j < k ==> !((#[trigger] ranges@[j]).start <= i + 1 && i + 1 <= range_end(ranges@[j], total as nat)),
        decreases ranges.len() - k,
    {
        let r = ranges[k];
        let end = match r.end {
            Some(e) => if e < total { e } else { total },
            None => total,
        };
        if r.start <= i + 1 && i + 1 <= end {
            assert(ranges@[k as int] == r);
            return true;
        }
        k += 1;
    }
    false
}

/// The zero-based indexes of the pages that `ranges` select in a document of
/// `total_pages` pages, ascending and each once.
///
/// A start below 1 counts as 1, an end past the last page (or an open end) as
/// the last page, and a range left empty by this is skipped.
pub fn expand_to_indexes(ranges: &[PageRange], total_pages: usize) -> (r: Vec<usize>)
    ensures
        is_expansion(r@, ranges@, total_pages as nat),
        total_pages == 0 ==> r@.len() == 0,
{
    let mut out: Vec<usize> = Vec::new();
    let mut i: usize = 0;
    while i < total_pages
        invariant
            i <= total_pages,
            strictly_increasing(out@),
            forall|j: int| 0 <= j < out@.len() ==> out@[j] < i,
            forall|p: usize| out@.contains(p) <==> (p < i && selects(ranges@, total_pages as nat, p as nat)),
        decreases total_pages - i,
    {
        if is_selected(ranges, total_pages, i) {
            let ghost before = out@;
            out.push(i);
            assert forall|p: usize| out@.contains(p) <==> (p < i + 1 && selects(ranges@, total_pages as nat, p as nat)) by {
                if out@.contains(p) && p != i {
                    let j = choose|j: int| 0 <= j < out@.len() && out@[j] == p;
                    assert(j < before.len());
                    assert(before[j] == p);
                    assert(before.contains(p));
                }
                if p < i && selects(ranges@, total_pages as nat, p as nat) {
                    assert(before.contains(p));
                    let j = choose|j: int| 0 <= j < before.len() && before[j] == p;
                    assert(out@[j] == p);
                }
                if p == i {
                    assert(out@[out@.len() - 1] == p);
                }
            }
        } else {
            assert forall|p: usize| out@.contains(p) <==> (p < i + 1 && selects(ranges@, total_pages as nat, p as nat)) by {
                if out@.contains(p) {
                    let j = choose|j: int| 0 <= j < out@.len() && out@[j] == p;
                }
            }
        }
        i += 1;
    }
    assert forall|p: usize| out@.contains(p) <==> selects(ranges@, total_pages as nat, p as nat) by {}
    if out.len() > 0 {
        assert(out@.contains(out@[0]));
    }
    out
}

/// Once the pieces read so far fail, the whole text fails the same way.
proof fn lemma_parse_err_extends(s: Seq<char>, i: int)
    requires
        0 <= i <= s.len(),
        parse_pieces(pieces(s.subrange(0, i)).drop_last()) is Err,
    ensures
        parse_pieces(pieces(s)) == parse_pieces(pieces(s.subrange(0, i)).drop_last()),
{
    lemma_pieces_nonempty(s.subrange(0, i));
    lemma_prefix_pieces(s, i);
    let p = pieces(s);
    let q = pieces(s.subrange(0, i)).drop_last();
    assert(p.subrange(0, q.len() as int) =~= q);
    lemma_parse_err_prefix(p, q.len() as int);
}

/// The complete pieces of a prefix are a prefix of the pieces of the whole.
proof fn lemma_prefix_pieces(s: Seq<char>, i: int)
    requires
        0 <= i <= s.len(),
    ensures
        pieces(s).len() >= pieces(s.subrange(0, i)).len(),
        forall|k: int| 0 <= k < pieces(s.subrange(0, i)).len() - 1 ==> #[trigger] pieces(s)[k] == pieces(s.subrange(0, i))[k],
    decreases s.len() - i,
{
    lemma_pieces_nonempty(s.subrange(0, i));
    if i < s.len() {
        lemma_prefix_pieces(s, i + 1);
        if s[i] == ',' {
            lemma_pieces_comma(s, i);
        } else {
            lemma_pieces_other(s, i);
        }
    } else {
        assert(s.subrange(0, i) =~= s);
    }
}

/// A failing prefix of pieces makes the whole list fail the same way.
proof fn lemma_parse_err_prefix(p: Seq<Seq<char>>, k: int)
    requires
        0 <= k <= p.len(),
        parse_pieces(p.subrange(0, k)) is Err,
    ensures
        parse_pieces(p) == parse_pieces(p.subrange(0, k)),
    decreases p.len() - k,
{
    if k < p.len() {
        assert(p.subrange(0, k + 1).drop_last() =~= p.subrange(0, k));
        lemma_parse_err_prefix(p, k + 1);
    } else {
        assert(p.subrange(0, k) =~= p);
    }
}

/// The text of consecutive groups of `group` pages from page `start` on, in
/// a document of `total` pages: `"1-3,4-6,7-7"` and the like.
pub open spec fn chunk_text(start: nat, total: nat, group: nat) -> Seq<char>
    decreases total + 1 - start,
{
    if group == 0 || start == 0 || start > total {
        Seq::empty()
    } else {
        let end: nat = if start + group - 1 < total { (start + group - 1) as nat } else { total };
        let piece = decimal(start) + seq!['-'] + decimal(end);
        if end < total {
            piece + seq![','] + chunk_text(end + 1, total, group)
        } else {
            piece
        }
    }
}

/// Writes the range text that cuts `total` pages into groups of `group`
/// pages, the last one possibly shorter; empty where either is zero.
pub fn make_ranges_spec(total: usize, group: usize) -> (r: String)
    ensures
        r@ == chunk_text(1, total as nat, group as nat),
{
    let mut out: Vec<char> = Vec::new();
    if total == 0 || group == 0 {
        return string_of(&out);
    }
    let mut start: usize = 1;
    let mut finished = false;
    while !finished
        invariant
            1 <= start <= total,
            group > 0,
            finished ==> out@ == chunk_text(1, total as nat, group as nat),
            !finished ==> out@ + chunk_text(start as nat, total as nat, group as nat) == chunk_text(1, total as nat, group as nat),
        decreases (if finished { 0 } else { total - start + 1 }),
    {
        let end = if group - 1 < total - start { start + group - 1 } else { total };
        let ghost o = out@;
        push_all(&mut out, &decimal_chars(start));
        out.push('-');
        push_all(&mut out, &decimal_chars(end));
        if end < total {
            out.push(',');
        }
        proof {
            let piece = decimal(start as nat) + seq!['-'] + decimal(end as nat);
            if end < total {
                assert(out@ =~= o + piece + seq![',']);
                assert(o + chunk_text(start as nat, total as nat, group as nat) =~= out@ + chunk_text(end as nat + 1, total as nat, group as nat));
            } else {
                assert(out@ =~= o + piece);
                assert(chunk_text(end as nat + 1, total as nat, group as nat) =~= Seq::<char>::empty());
                assert(o + chunk_text(start as nat, total as nat, group as nat) =~= out@ + chunk_text(end as nat + 1, total as nat, group as nat));
            }
        }
        if end < total {
            start = end + 1;
        } else {
            finished = true;
        }
    }
    string_of(&out)
}

} // verus!
