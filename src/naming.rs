//! Output file names for split parts: pattern filling and collision avoidance.

use vstd::prelude::*;
use crate::text::{chars_of, decimal, decimal_chars, digit_char, push_all, slice_chars, string_of};

verus! {

/// `s` with each occurrence of `pat`, leftmost first and never overlapping,
/// replaced by `to` (what `str::replace` does for a non-empty pattern).
pub open spec fn replace_all(s: Seq<char>, pat: Seq<char>, to: Seq<char>) -> Seq<char>
    recommends
        pat.len() > 0,
    decreases s.len(),
{
    if pat.len() == 0 || s.len() < pat.len() {
        s
    } else if s.subrange(0, pat.len() as int) == pat {
        to + replace_all(s.subrange(pat.len() as int, s.len() as int), pat, to)
    } else {
        seq![s[0]] + replace_all(s.drop_first(), pat, to)
    }
}

/// The name that a pattern gives for one part: `{base}`, `{start}`, `{end}`
/// and `{index}` are replaced, in that order.
pub open spec fn filled_pattern(pattern: Seq<char>, base: Seq<char>, start: nat, end: nat, index: nat) -> Seq<char> {
    replace_all(
        replace_all(
            replace_all(replace_all(pattern, "{base}"@, base), "{start}"@, decimal(start)),
            "{end}"@,
            decimal(end),
        ),
        "{index}"@,
        decimal(index),
    )
}

/// Index of the last `c` in `s`, or -1.
pub open spec fn last_index(s: Seq<char>, c: char) -> int
    decreases s.len(),
{
    if s.len() == 0 {
        -1
    } else if s.last() == c {
        s.len() - 1
    } else {
        last_index(s.drop_last(), c)
    }
}

/// Everything up to and including the last `/` of a path.
pub open spec fn dir_prefix(p: Seq<char>) -> Seq<char> {
    p.subrange(0, last_index(p, '/') + 1)
}

/// What follows the last `/` of a path.
pub open spec fn file_name(p: Seq<char>) -> Seq<char> {
    p.subrange(last_index(p, '/') + 1, p.len() as int)
}

/// The name before its extension: a dot at the very start does not count.
pub open spec fn stem(name: Seq<char>) -> Seq<char> {
    let d = last_index(name, '.');
    if d <= 0 { name } else { name.subrange(0, d) }
}

/// The extension of a name, without its dot; empty where there is none.
pub open spec fn extension(name: Seq<char>) -> Seq<char> {
    let d = last_index(name, '.');
    if d <= 0 { Seq::empty() } else { name.subrange(d + 1, name.len() as int) }
}

/// The `i`-th alternative to an existing name: `stem_i.ext`.
pub open spec fn suffixed_name(name: Seq<char>, i: nat) -> Seq<char> {
    let base = stem(name) + seq!['_'] + decimal(i);
    if extension(name).len() > 0 { base + seq!['.'] + extension(name) } else { base }
}

/// How many alternative names are tried before the last one is taken as is.
pub const MAX_SUFFIX: usize = 10000;

pub open spec fn names_of(v: Seq<String>) -> Seq<Seq<char>> {
    v.map_values(|s: String| s@)
}

/// The path that `ensure_unique_path` picks, given which names are taken.
pub open spec fn is_unique_choice(r: Seq<char>, path: Seq<char>, taken: Seq<Seq<char>>) -> bool {
    if !taken.contains(file_name(path)) {
        r == path
    } else {
        exists|i: nat|
            1 <= i <= MAX_SUFFIX && r == dir_prefix(path) + suffixed_name(file_name(path), i)
                && (forall|j: nat| 1 <= j < i ==> taken.contains(#[trigger] suffixed_name(file_name(path), j)))
                && (!taken.contains(suffixed_name(file_name(path), i)) || i == MAX_SUFFIX)
    }
}

/// Whether `v[i..i + pat.len()]` is `pat`.
fn matches_at(v: &Vec<char>, i: usize, pat: &Vec<char>) -> (b: bool)
    requires
        i <= v.len(),
    ensures
        b == (i + pat.len() <= v.len() && v@.subrange(i as int, i + pat.len()) == pat@),
{
    if pat.len() > v.len() - i {
        return false;
    }
    let mut k: usize = 0;
    while k < pat.len()
        invariant
            i + pat.len() <= v.len(),
            k <= pat.len(),
            forall|j: int| 0 <= j < k ==> v@[i + j] == pat@[j],
        decreases pat.len() - k,
    {
        if v[i + k] != pat[k] {
            assert(v@.subrange(i as int, i + pat.len())[k as int] != pat@[k as int]);
            return false;
        }
        k += 1;
    }
    assert(v@.subrange(i as int, i + pat.len()) =~= pat@);
    true
}

proof fn lemma_replace_tail(s: Seq<char>, i: int, pat: Seq<char>, to: Seq<char>)
    requires
        0 <= i < s.len(),
        pat.len() > 0,
    ensures
        ({
            let rest = s.subrange(i, s.len() as int);
            if rest.len() >= pat.len() && s.subrange(i, i + pat.len()) == pat {
                replace_all(rest, pat, to) == to + replace_all(s.subrange(i + pat.len(), s.len() as int), pat, to)
            } else {
                replace_all(rest, pat, to) == seq![s[i]] + replace_all(s.subrange(i + 1, s.len() as int), pat, to)
            }
        }),
{
    let rest = s.subrange(i, s.len() as int);
    if rest.len() >= pat.len() {
        assert(rest.subrange(0, pat.len() as int) =~= s.subrange(i, i + pat.len()));
        assert(rest.subrange(pat.len() as int, rest.len() as int) =~= s.subrange(i + pat.len(), s.len() as int));
    }
    assert(rest.drop_first() =~= s.subrange(i + 1, s.len() as int));
}

/// `v` with every occurrence of `pat` replaced by `to`.
fn replace_chars(v: &Vec<char>, pat: &Vec<char>, to: &Vec<char>) -> (r: Vec<char>)
    requires
        pat.len() > 0,
    ensures
        r@ == replace_all(v@, pat@, to@),
{
    let n = v.len();
    let mut out: Vec<char> = Vec::new();
    let mut i: usize = 0;
    assert(v@.subrange(0, n as int) =~= v@);
    while i < n
        invariant
            i <= n == v.len(),
            pat.len() > 0,
            out@ + replace_all(v@.subrange(i as int, n as int), pat@, to@) == replace_all(v@, pat@, to@),
        decreases n - i,
    {
        proof { lemma_replace_tail(v@, i as int, pat@, to@); }
        if matches_at(v, i, pat) {
            let ghost o = out@;
            let mut k: usize = 0;
            while k < to.len()
                invariant
                    k <= to.len(),
                    out@ == o + to@.subrange(0, k as int),
                decreases to.len() - k,
            {
                out.push(to[k]);
                k += 1;
                assert(out@ =~= o + to@.subrange(0, k as int));
            }
            assert(to@.subrange(0, to.len() as int) =~= to@);
            assert(o + (to@ + replace_all(v@.subrange(i + pat.len(), n as int), pat@, to@)) =~= (o + to@) + replace_all(v@.subrange(i + pat.len(), n as int), pat@, to@));
            i += pat.len();
        } else {
            let ghost o = out@;
            out.push(v[i]);
            assert(o + (seq![v@[i as int]] + replace_all(v@.subrange(i + 1, n as int), pat@, to@)) =~= o.push(v@[i as int]) + replace_all(v@.subrange(i + 1, n as int), pat@, to@));
            i += 1;
        }
    }
    assert(v@.subrange(n as int, n as int).len() == 0);
    assert(out@ + replace_all(v@.subrange(n as int, n as int), pat@, to@) =~= out@);
    out
}

/// The output name for one part: `pattern` with `{base}`, `{start}`, `{end}`
/// and `{index}` replaced, in that order.
pub fn fill_pattern(pattern: &str, base: &str, start: usize, end: usize, index: usize) -> (r: String)
    ensures
        r@ == filled_pattern(pattern@, base@, start as nat, end as nat, index as nat),
{
    proof {
        reveal_strlit("{base}");
        reveal_strlit("{start}");
        reveal_strlit("{end}");
        reveal_strlit("{index}");
    }
    let p = chars_of(pattern);
    let s1 = replace_chars(&p, &chars_of("{base}"), &chars_of(base));
    let s2 = replace_chars(&s1, &chars_of("{start}"), &decimal_chars(start));
    let s3 = replace_chars(&s2, &chars_of("{end}"), &decimal_chars(end));
    let s4 = replace_chars(&s3, &chars_of("{index}"), &decimal_chars(index));
    string_of(&s4)
}

/// `last_index` is the last place of `c`: none after it holds `c`.
proof fn lemma_last_index(s: Seq<char>, c: char)
    ensures
        -1 <= last_index(s, c) < s.len(),
        last_index(s, c) >= 0 ==> s[last_index(s, c)] == c,
        forall|j: int| last_index(s, c) < j < s.len() ==> s[j] != c,
    decreases s.len(),
{
    if s.len() > 0 && s.last() != c {
        lemma_last_index(s.drop_last(), c);
        assert forall|j: int| last_index(s, c) < j < s.len() implies s[j] != c by {
            if j < s.len() - 1 {
                assert(s.drop_last()[j] == s[j]);
            }
        }
    }
}

/// A tail free of `c` leaves the last place of `c` where it was.
proof fn lemma_last_index_append(a: Seq<char>, b: Seq<char>, c: char)
    requires
        forall|j: int| 0 <= j < b.len() ==> b[j] != c,
    ensures
        last_index(a + b, c) == last_index(a, c),
    decreases b.len(),
{
    if b.len() > 0 {
        assert((a + b).drop_last() =~= a + b.drop_last());
        lemma_last_index_append(a, b.drop_last(), c);
    } else {
        assert(a + b =~= a);
    }
}

proof fn lemma_decimal_digits(n: nat)
    ensures
        forall|j: int| 0 <= j < decimal(n).len() ==> '0' <= #[trigger] decimal(n)[j] <= '9',
    decreases n,
{
    lemma_digit_char(n % 10);
    if n >= 10 {
        lemma_decimal_digits(n / 10);
        let p = decimal(n / 10);
        assert(decimal(n) == p.push(digit_char(n % 10)));
        assert forall|j: int| 0 <= j < decimal(n).len() implies '0' <= #[trigger] decimal(n)[j] <= '9' by {
            if j < p.len() {
                assert(decimal(n)[j] == p[j]);
            }
        }
    } else {
        assert(n % 10 == n);
        assert(decimal(n) == seq![digit_char(n)]);
    }
}

proof fn lemma_digit_char(d: nat)
    requires
        d < 10,
    ensures
        '0' <= digit_char(d) <= '9',
{
    assert(digit_char(d) as u32 == d + 48);
}

/// An alternative name, put after the directory part, is the file name of the result.
proof fn lemma_suffixed_file_name(path: Seq<char>, i: nat)
    ensures
        file_name(dir_prefix(path) + suffixed_name(file_name(path), i)) == suffixed_name(file_name(path), i),
        dir_prefix(path) + suffixed_name(file_name(path), i) != path || file_name(path) == suffixed_name(file_name(path), i),
{
    lemma_last_index(path, '/');
    let k = last_index(path, '/');
    let pre = dir_prefix(path);
    let name = file_name(path);
    let alt = suffixed_name(name, i);
    lemma_last_index(name, '.');
    lemma_decimal_digits(i);
    assert forall|j: int| 0 <= j < alt.len() implies alt[j] != '/' by {
        let d = last_index(name, '.');
        let st = stem(name);
        let mid = st + seq!['_'] + decimal(i);
        if j < st.len() {
            assert(st[j] == name[if d <= 0 { j } else { j }]);
            assert(name[j] == path[k + 1 + j]);
        } else if j < mid.len() {
            if j > st.len() {
                assert(mid[j] == decimal(i)[j - st.len() - 1]);
            }
        } else if extension(name).len() > 0 {
            let e = extension(name);
            if j > mid.len() {
                assert(alt[j] == e[j - mid.len() - 1]);
                assert(e[j - mid.len() - 1] == name[d + 1 + (j - mid.len() - 1)]);
                assert(name[d + 1 + (j - mid.len() - 1)] == path[k + 1 + d + 1 + (j - mid.len() - 1)]);
            }
        }
    }
    lemma_last_index_append(pre, alt, '/');
    if k >= 0 {
        assert(pre.drop_last() =~= path.subrange(0, k));
    }
    assert(last_index(pre, '/') == k);
    assert((pre + alt).subrange(k + 1, (pre + alt).len() as int) =~= alt);
    if pre + alt == path {
        assert(alt =~= name);
    }
}

/// One past the last place of `c` in `v` (zero where there is none).
pub(crate) fn after_last(v: &Vec<char>, c: char) -> (r: usize)
    ensures
        r as int == last_index(v@, c) + 1,
        r <= v.len(),
{
    let mut j: usize = v.len();
    assert(v@.subrange(0, j as int) =~= v@);
    while j > 0 && v[j - 1] != c
        invariant
            j <= v.len(),
            last_index(v@, c) == last_index(v@.subrange(0, j as int), c),
        decreases j,
    {
        assert(v@.subrange(0, j as int).drop_last() =~= v@.subrange(0, j - 1));
        j -= 1;
    }
    j
}

/// Whether `name` is among `taken`.
pub(crate) fn is_taken(taken: &Vec<String>, name: &String) -> (b: bool)
    ensures
        b == names_of(taken@).contains(name@),
{
    let mut k: usize = 0;
    while k < taken.len()
        invariant
            k <= taken.len(),
            forall|j: int| 0 <= j < k ==> (#[trigger] taken@[j])@ != name@,
        decreases taken.len() - k,
    {
        if taken[k] == *name {
            assert(names_of(taken@)[k as int] == name@);
            return true;
        }
        k += 1;
    }
    assert forall|j: int| 0 <= j < names_of(taken@).len() implies names_of(taken@)[j] != name@ by {
        assert(taken@[j]@ != name@);
    }
    false
}

/// The `i`-th alternative to a name split into stem and extension.
fn suffixed_chars(st: &Vec<char>, ext: &Vec<char>, i: usize, ghost_name: Ghost<Seq<char>>) -> (r: Vec<char>)
    requires
        st@ == stem(ghost_name@),
        ext@ == extension(ghost_name@),
    ensures
        r@ == suffixed_name(ghost_name@, i as nat),
{
    let mut r: Vec<char> = Vec::new();
    push_all(&mut r, st);
    r.push('_');
    push_all(&mut r, &decimal_chars(i));
    if ext.len() > 0 {
        r.push('.');
        push_all(&mut r, ext);
    }
    assert(r@ =~= suffixed_name(ghost_name@, i as nat));
    r
}

/// Picks an output path that no existing file occupies.
///
/// `taken` lists the names already present in the directory of `path`. Where
/// the file name of `path` is free, `path` itself is the answer. Otherwise
/// `stem_1.ext`, `stem_2.ext`, ... are tried in turn, up to `stem_10000.ext`,
/// which is taken as is should every earlier one be occupied.
pub fn ensure_unique_path(path: &str, taken: &Vec<String>) -> (r: String)
    ensures
        is_unique_choice(r@, path@, names_of(taken@)),
        names_of(taken@).contains(file_name(path@)) && (exists|i: nat|
            1 <= i <= MAX_SUFFIX && !names_of(taken@).contains(#[trigger] suffixed_name(file_name(path@), i)))
            ==> r@ != path@ && !names_of(taken@).contains(file_name(r@)),
{
    let v = chars_of(path);
    let k = after_last(&v, '/');
    proof { lemma_last_index(v@, '/'); }
    let prefix = slice_chars(&v, 0, k);
    let name = slice_chars(&v, k, v.len());
    let name_s = string_of(&name);
    if !is_taken(taken, &name_s) {
        return String::from_str(path);
    }
    let d = after_last(&name, '.');
    proof { lemma_last_index(name@, '.'); }
    let (st, ext) = if d <= 1 {
        (slice_chars(&name, 0, name.len()), Vec::new())
    } else {
        (slice_chars(&name, 0, d - 1), slice_chars(&name, d, name.len()))
    };
    assert(name@.subrange(0, name@.len() as int) =~= name@);
    let ghost gname = name@;
    let mut i: usize = 1;
    while i < MAX_SUFFIX
        invariant
            1 <= i <= MAX_SUFFIX,
            gname == file_name(path@),
            prefix@ == dir_prefix(path@),
            st@ == stem(gname),
            ext@ == extension(gname),
            names_of(taken@).contains(gname),
            forall|j: nat| 1 <= j < i ==> names_of(taken@).contains(#[trigger] suffixed_name(gname, j)),
        decreases MAX_SUFFIX - i,
    {
        let cand = suffixed_chars(&st, &ext, i, Ghost(gname));
        let cand_s = string_of(&cand);
        if !is_taken(taken, &cand_s) {
            let mut out = prefix.clone();
            assert(out@ == prefix@);
            push_all(&mut out, &cand);
            proof {
                lemma_suffixed_file_name(path@, i as nat);
                assert(is_unique_choice(out@, path@, names_of(taken@)));
            }
            return string_of(&out);
        }
        i += 1;
    }
    let cand = suffixed_chars(&st, &ext, MAX_SUFFIX, Ghost(gname));
    let mut out = prefix.clone();
    push_all(&mut out, &cand);
    proof {
        lemma_suffixed_file_name(path@, MAX_SUFFIX as nat);
        assert(is_unique_choice(out@, path@, names_of(taken@)));
        if exists|j: nat| 1 <= j <= MAX_SUFFIX && !names_of(taken@).contains(#[trigger] suffixed_name(file_name(path@), j)) {
            let j = choose|j: nat| 1 <= j <= MAX_SUFFIX && !names_of(taken@).contains(#[trigger] suffixed_name(file_name(path@), j));
            if j < MAX_SUFFIX {
                assert(names_of(taken@).contains(suffixed_name(gname, j)));
            }
        }
    }
    string_of(&out)
}

} // verus!
