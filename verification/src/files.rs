//! Path-string helpers: file names, stems, extensions, and the selection of
//! a unique directory among pattern-match candidates.
//!
//! A path is taken as a plain string; its file name is everything after the
//! last `/`. The stem is the file name without its extension, and the
//! extension is what follows the last `.` of the file name, provided that dot
//! is not the file name's first character.

use vstd::prelude::*;

verus! {

/// Index of the last `/` in `p`, or `-1` if there is none.
pub open spec fn last_slash(p: Seq<char>) -> int
    decreases p.len(),
{
    if p.len() == 0 {
        -1
    } else if p[p.len() - 1] == '/' {
        p.len() - 1
    } else {
        last_slash(p.drop_last())
    }
}

/// The file name of a path: everything after the last `/`.
pub open spec fn file_name_of(p: Seq<char>) -> Seq<char> {
    p.subrange(last_slash(p) + 1, p.len() as int)
}

/// Index of the last `.` in a file name, or `-1` if there is none.
pub open spec fn last_dot(n: Seq<char>) -> int
    decreases n.len(),
{
    if n.len() == 0 {
        -1
    } else if n[n.len() - 1] == '.' {
        n.len() - 1
    } else {
        last_dot(n.drop_last())
    }
}

/// The stem of a file name: the part before the last `.`, unless that dot is
/// absent or is the file name's first character, in which case the whole file
/// name is the stem.
pub open spec fn stem_of_name(n: Seq<char>) -> Seq<char> {
    if last_dot(n) <= 0 {
        n
    } else {
        n.subrange(0, last_dot(n))
    }
}

/// The extension of a file name: the part after the last `.`, or nothing if
/// that dot is absent or is the file name's first character.
pub open spec fn ext_of_name(n: Seq<char>) -> Option<Seq<char>> {
    if last_dot(n) <= 0 {
        None
    } else {
        Some(n.subrange(last_dot(n) + 1, n.len() as int))
    }
}

/// The stem of a path: the stem of its file name.
pub open spec fn stem_of_path(p: Seq<char>) -> Seq<char> {
    stem_of_name(file_name_of(p))
}

/// `e` with every leading `.` removed.
pub open spec fn trim_leading_dots(e: Seq<char>) -> Seq<char>
    decreases e.len(),
{
    if e.len() == 0 {
        e
    } else if e[0] == '.' {
        trim_leading_dots(e.drop_first())
    } else {
        e
    }
}

/// `last_slash` names a position inside `p` holding `/`, and nothing after
/// that position is a `/`.
pub proof fn lemma_last_slash(p: Seq<char>)
    ensures
        -1 <= last_slash(p) < p.len(),
        last_slash(p) >= 0 ==> p[last_slash(p)] == '/',
        forall|i: int| last_slash(p) < i < p.len() ==> p[i] != '/',
    decreases p.len(),
{
    if p.len() == 0 {
    } else if p[p.len() - 1] == '/' {
    } else {
        lemma_last_slash(p.drop_last());
        assert forall|i: int| last_slash(p) < i < p.len() implies p[i] != '/' by {
            if i < p.len() - 1 {
                assert(p.drop_last()[i] == p[i]);
            }
        }
    }
}

/// `last_dot` names a position inside `n` holding `.`, and nothing after that
/// position is a `.`.
pub proof fn lemma_last_dot(n: Seq<char>)
    ensures
        -1 <= last_dot(n) < n.len(),
        last_dot(n) >= 0 ==> n[last_dot(n)] == '.',
        forall|i: int| last_dot(n) < i < n.len() ==> n[i] != '.',
    decreases n.len(),
{
    if n.len() == 0 {
    } else if n[n.len() - 1] == '.' {
    } else {
        lemma_last_dot(n.drop_last());
        assert forall|i: int| last_dot(n) < i < n.len() implies n[i] != '.' by {
            if i < n.len() - 1 {
                assert(n.drop_last()[i] == n[i]);
            }
        }
    }
}

/// Taking one leading dot off `e` does not change the trimmed result.
proof fn lemma_trim_step(e: Seq<char>)
    requires
        e.len() > 0,
        e[0] == '.',
    ensures
        trim_leading_dots(e) == trim_leading_dots(e.drop_first()),
{
}

/// How `filter` acts on a sequence extended by one element.
pub proof fn lemma_filter_push<A>(s: Seq<A>, x: A, pred: spec_fn(A) -> bool)
    ensures
        pred(x) ==> s.push(x).filter(pred) == s.filter(pred).push(x),
        !pred(x) ==> s.push(x).filter(pred) == s.filter(pred),
{
    assert(s.push(x).drop_last() =~= s);
    assert(s.push(x).last() == x);
    reveal_with_fuel(Seq::filter, 2);
}

/// A filter that rejects every element yields the empty sequence.
pub proof fn lemma_filter_none<A>(s: Seq<A>, pred: spec_fn(A) -> bool)
    requires
        forall|i: int| 0 <= i < s.len() ==> !pred(#[trigger] s[i]),
    ensures
        s.filter(pred).len() == 0,
    decreases s.len(),
{
    reveal_with_fuel(Seq::filter, 2);
    if s.len() > 0 {
        let d = s.drop_last();
        assert(forall|i: int| 0 <= i < d.len() ==> #[trigger] d[i] == s[i]);
        lemma_filter_none(d, pred);
        assert(!pred(s.last()));
    }
}

/// A filter that accepts every element yields the sequence itself.
pub proof fn lemma_filter_all<A>(s: Seq<A>, pred: spec_fn(A) -> bool)
    requires
        forall|i: int| 0 <= i < s.len() ==> pred(#[trigger] s[i]),
    ensures
        s.filter(pred) == s,
    decreases s.len(),
{
    reveal_with_fuel(Seq::filter, 2);
    if s.len() > 0 {
        let d = s.drop_last();
        assert(forall|i: int| 0 <= i < d.len() ==> #[trigger] d[i] == s[i]);
        lemma_filter_all(d, pred);
        assert(pred(s.last()));
        assert(s.filter(pred) =~= s);
    }
}

/// Filtering keeps elements pairwise distinct.
pub proof fn lemma_filter_no_dup<A>(s: Seq<A>, pred: spec_fn(A) -> bool)
    requires
        s.no_duplicates(),
    ensures
        s.filter(pred).no_duplicates(),
    decreases s.len(),
{
    reveal_with_fuel(Seq::filter, 2);
    if s.len() > 0 {
        let d = s.drop_last();
        assert(forall|i: int| 0 <= i < d.len() ==> #[trigger] d[i] == s[i]);
        assert(d.no_duplicates());
        lemma_filter_no_dup(d, pred);
        let fd = d.filter(pred);
        let f = s.filter(pred);
        if pred(s.last()) {
            assert(f == fd.push(s.last()));
            assert forall|a: int, b: int| 0 <= a < b < f.len() implies f[a] != f[b] by {
                if b < fd.len() {
                    assert(fd[a] != fd[b]);
                } else {
                    assert(f[b] == s.last());
                    assert(fd.contains(fd[a]));
                    d.lemma_filter_contains_rev(pred, fd[a]);
                    let m = choose|m: int| 0 <= m < d.len() && d[m] == fd[a];
                    assert(s[m] == fd[a]);
                    assert(s[m] != s[s.len() - 1]);
                }
            }
        } else {
            assert(f == fd);
        }
    }
}

/// Position right after the last `/` of `p`: where its file name starts.
fn file_name_start(p: &str) -> (r: usize)
    ensures
        r as int == last_slash(p@) + 1,
{
    let len = p.unicode_len();
    let mut i: usize = 0;
    let mut last: usize = 0;
    let mut has: bool = false;
    while i < len
        invariant
            i <= len,
            len == p@.len(),
            has ==> last < i && p@[last as int] == '/' && (forall|j: int|
                last < j < i ==> p@[j] != '/'),
            (!has) ==> forall|j: int| 0 <= j < i ==> p@[j] != '/',
        decreases len - i,
    {
        if p.get_char(i) == '/' {
            last = i;
            has = true;
        }
        i = i + 1;
    }
    proof {
        lemma_last_slash(p@);
        if has {
            assert(last_slash(p@) == last as int) by {
                if last_slash(p@) < last as int {
                    assert(p@[last as int] == '/');
                } else if last_slash(p@) > last as int {
                    assert(p@[last_slash(p@)] != '/');
                }
            }
        } else {
            assert(last_slash(p@) == -1) by {
                if last_slash(p@) >= 0 {
                    assert(p@[last_slash(p@)] == '/');
                }
            }
        }
    }
    if has {
        last + 1
    } else {
        0
    }
}

/// Position of the last `.` of the file name `n`, if it has one.
fn last_dot_pos(n: &str) -> (r: Option<usize>)
    ensures
        r is Some ==> r->Some_0 as int == last_dot(n@),
        r is None ==> last_dot(n@) == -1,
{
    let len = n.unicode_len();
    let mut i: usize = 0;
    let mut last: usize = 0;
    let mut has: bool = false;
    while i < len
        invariant
            i <= len,
            len == n@.len(),
            has ==> last < i && n@[last as int] == '.' && (forall|j: int|
                last < j < i ==> n@[j] != '.'),
            (!has) ==> forall|j: int| 0 <= j < i ==> n@[j] != '.',
        decreases len - i,
    {
        if n.get_char(i) == '.' {
            last = i;
            has = true;
        }
        i = i + 1;
    }
    proof {
        lemma_last_dot(n@);
        if has {
            assert(last_dot(n@) == last as int) by {
                if last_dot(n@) < last as int {
                    assert(n@[last as int] == '.');
                } else if last_dot(n@) > last as int {
                    assert(n@[last_dot(n@)] != '.');
                }
            }
        } else {
            assert(last_dot(n@) == -1) by {
                if last_dot(n@) >= 0 {
                    assert(n@[last_dot(n@)] == '.');
                }
            }
        }
    }
    if has {
        Some(last)
    } else {
        None
    }
}

/// The stem of the path `p`: its file name without the extension.
pub fn path_stem(p: &str) -> (r: String)
    ensures
        r@ == stem_of_path(p@),
{
    let len = p.unicode_len();
    let start = file_name_start(p);
    proof {
        lemma_last_slash(p@);
    }
    let name = p.substring_char(start, len);
    let nlen = name.unicode_len();
    proof {
        lemma_last_dot(name@);
    }
    match last_dot_pos(name) {
        Some(k) => {
            if k > 0 {
                name.substring_char(0, k).to_owned()
            } else {
                name.to_owned()
            }
        },
        None => name.to_owned(),
    }
}

/// `e` without its leading dots.
fn trim_dots<'a>(e: &'a str) -> (r: &'a str)
    ensures
        r@ == trim_leading_dots(e@),
{
    let len = e.unicode_len();
    let mut i: usize = 0;
    proof {
        assert(e@.skip(0) =~= e@);
    }
    while i < len && e.get_char(i) == '.'
        invariant
            i <= len,
            len == e@.len(),
            trim_leading_dots(e@) == trim_leading_dots(e@.skip(i as int)),
        decreases len - i,
    {
        proof {
            assert(e@.skip(i as int)[0] == e@[i as int]);
            lemma_trim_step(e@.skip(i as int));
            assert(e@.skip(i as int).drop_first() =~= e@.skip(i as int + 1));
        }
        i = i + 1;
    }
    proof {
        if i < len {
            assert(e@.skip(i as int)[0] == e@[i as int]);
            assert(trim_leading_dots(e@.skip(i as int)) == e@.skip(i as int));
        } else {
            assert(e@.skip(i as int) =~= Seq::<char>::empty());
        }
    }
    e.substring_char(i, len)
}

/// Whether the views of `a` and `b` are the same character sequence.
fn str_chars_eq(a: &str, b: &str) -> (r: bool)
    ensures
        r == (a@ == b@),
{
    let alen = a.unicode_len();
    let blen = b.unicode_len();
    if alen != blen {
        return false;
    }
    let mut i: usize = 0;
    while i < alen
        invariant
            i <= alen,
            alen == a@.len() == b@.len(),
            forall|j: int| 0 <= j < i ==> a@[j] == b@[j],
        decreases alen - i,
    {
        if a.get_char(i) != b.get_char(i) {
            return false;
        }
        i = i + 1;
    }
    proof {
        assert(a@ =~= b@);
    }
    true
}

/// Whether the file name of `p` carries the extension `ext` (leading dots of
/// `ext` ignored).
fn path_has_extension(p: &str, ext: &str) -> (r: bool)
    ensures
        r == (ext_of_name(file_name_of(p@)) == Some(trim_leading_dots(ext@))),
{
    let len = p.unicode_len();
    let start = file_name_start(p);
    proof {
        lemma_last_slash(p@);
    }
    let name = p.substring_char(start, len);
    let nlen = name.unicode_len();
    proof {
        lemma_last_dot(name@);
    }
    let wanted = trim_dots(ext);
    match last_dot_pos(name) {
        Some(k) => {
            if k > 0 {
                let found = name.substring_char(k + 1, nlen);
                str_chars_eq(found, wanted)
            } else {
                false
            }
        },
        None => false,
    }
}

/// Keeps, in order, the paths whose file name carries the extension
/// `extension` (leading dots of `extension` ignored).
pub fn find_files(paths: &Vec<String>, extension: &str) -> (r: Vec<String>)
    ensures
        r@.map_values(|s: String| s@) == paths@.map_values(|s: String| s@).filter(
            (|q: Seq<char>| ext_of_name(file_name_of(q)) == Some(trim_leading_dots(extension@))),
        ),
{
    let ghost pred = (|q: Seq<char>| ext_of_name(file_name_of(q)) == Some(
        trim_leading_dots(extension@),
    ));
    let mut out: Vec<String> = Vec::new();
    let mut i: usize = 0;
    while i < paths.len()
        invariant
            i <= paths@.len(),
            out@.map_values(|s: String| s@) == paths@.take(i as int).map_values(
                |s: String| s@,
            ).filter(pred),
            pred == (|q: Seq<char>| ext_of_name(file_name_of(q)) == Some(
                trim_leading_dots(extension@),
            )),
        decreases paths@.len() - i,
    {
        let ghost prefix = paths@.take(i as int).map_values(|s: String| s@);
        proof {
            assert(paths@.take(i as int + 1).map_values(|s: String| s@) =~= prefix.push(
                paths@[i as int]@,
            ));
            lemma_filter_push(prefix, paths@[i as int]@, pred);
        }
        if path_has_extension(&paths[i], extension) {
            out.push(paths[i].clone());
            proof {
                assert(out@.map_values(|s: String| s@) =~= out@.drop_last().map_values(
                    |s: String| s@,
                ).push(paths@[i as int]@));
            }
        }
        i = i + 1;
    }
    proof {
        assert(paths@.take(paths@.len() as int) =~= paths@);
    }
    out
}

/// Picks the directory to work in when a pattern search found `candidates`:
/// the single candidate if there is exactly one, nothing otherwise.
pub fn select_unique_dir(candidates: &Vec<String>) -> (r: Option<String>)
    ensures
        candidates@.len() == 1 ==> r is Some && r->Some_0@ == candidates@[0]@,
        candidates@.len() != 1 ==> r is None,
{
    if candidates.len() == 1 {
        Some(candidates[0].clone())
    } else {
        None
    }
}

} // verus!
