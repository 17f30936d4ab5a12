//! Key-file selection: each candidate file path is scored by its depth,
//! by the key words its lowered form contains, and by its extension; the
//! paths are then ordered by descending score with a stable tie-break and
//! the first `max_count` are returned.

use vstd::prelude::*;
use crate::text::contains_seq;
use crate::text::contains_chars;
use crate::text::ends_with_seq;
use crate::text::ends_with_chars;
use crate::text::lower_of;
use crate::text::lowercase;
use crate::text::str_chars;
use crate::text::string_views;

verus! {

/// The key words that raise a path's score.
pub open spec fn keyword_list() -> Seq<Seq<char>> {
    seq!["main"@, "index"@, "config"@, "readme"@, "app"@, "setup"@, "env"@]
}

/// The extensions of text-like files: source, markup, config and lock
/// files whose content may enter prompts.
pub open spec fn text_extension_list() -> Seq<Seq<char>> {
    seq![
        ".rs"@,
        ".ts"@,
        ".tsx"@,
        ".js"@,
        ".jsx"@,
        ".json"@,
        ".toml"@,
        ".md"@,
        ".txt"@,
        ".yaml"@,
        ".yml"@,
        ".html"@,
        ".css"@,
        ".scss"@,
        ".mjs"@,
        ".cjs"@,
        ".env"@,
        ".lock"@,
        ".sql"@,
    ]
}

fn keyword_vec() -> (r: Vec<Vec<char>>)
    ensures
        r.deep_view() == keyword_list(),
{
    let mut r: Vec<Vec<char>> = Vec::new();
    r.push(str_chars("main"));
    r.push(str_chars("index"));
    r.push(str_chars("config"));
    r.push(str_chars("readme"));
    r.push(str_chars("app"));
    r.push(str_chars("setup"));
    r.push(str_chars("env"));
    proof {
        assert(r.deep_view() =~~= keyword_list());
    }
    r
}

fn extension_vec() -> (r: Vec<Vec<char>>)
    ensures
        r.deep_view() == text_extension_list(),
{
    let mut r: Vec<Vec<char>> = Vec::new();
    r.push(str_chars(".rs"));
    r.push(str_chars(".ts"));
    r.push(str_chars(".tsx"));
    r.push(str_chars(".js"));
    r.push(str_chars(".jsx"));
    r.push(str_chars(".json"));
    r.push(str_chars(".toml"));
    r.push(str_chars(".md"));
    r.push(str_chars(".txt"));
    r.push(str_chars(".yaml"));
    r.push(str_chars(".yml"));
    r.push(str_chars(".html"));
    r.push(str_chars(".css"));
    r.push(str_chars(".scss"));
    r.push(str_chars(".mjs"));
    r.push(str_chars(".cjs"));
    r.push(str_chars(".env"));
    r.push(str_chars(".lock"));
    r.push(str_chars(".sql"));
    proof {
        assert(r.deep_view() =~~= text_extension_list());
    }
    r
}

/// How deep a path lies: the number of separators in it.
pub open spec fn depth_of(p: Seq<char>) -> int {
    p.filter(|c: char| c == '/').len() as int
}

/// How many key words the (lowered) path contains.
pub open spec fn keyword_hits(p: Seq<char>) -> int {
    keyword_list().filter(|kw: Seq<char>| contains_seq(p, kw)).len() as int
}

/// How many text extensions the (lowered) path ends with.
pub open spec fn ext_hits(p: Seq<char>) -> int {
    text_extension_list().filter(|e: Seq<char>| ends_with_seq(p, e)).len() as int
}

/// The score of a lowered path: shallow paths, key names and text
/// extensions raise it.
pub open spec fn score_spec(lp: Seq<char>) -> int {
    10 - depth_of(lp) + 5 * keyword_hits(lp) + 2 * ext_hits(lp)
}

/// The score of a path as scored by the selector, on its lowered form.
pub open spec fn path_score(p: Seq<char>) -> int {
    score_spec(lower_of(p))
}

fn count_slashes(lp: &Vec<char>) -> (r: usize)
    ensures
        r == depth_of(lp@),
{
    let mut r: usize = 0;
    let mut i: usize = 0;
    proof {
        reveal(Seq::filter);
        assert(lp@.subrange(0, 0) =~= Seq::<char>::empty());
    }
    while i < lp.len()
        invariant
            i <= lp@.len(),
            r == lp@.subrange(0, i as int).filter(|c: char| c == '/').len(),
            r <= i,
        decreases lp@.len() - i,
    {
        let ghost pre = lp@.subrange(0, i as int);
        let ghost post = lp@.subrange(0, i + 1 as int);
        proof {
            reveal(Seq::filter);
            assert(post.drop_last() =~= pre);
            assert(post.last() == lp@[i as int]);
        }
        if lp[i] == '/' {
            r += 1;
        }
        i += 1;
    }
    proof {
        assert(lp@.subrange(0, lp@.len() as int) =~= lp@);
    }
    r
}

fn count_contains(lp: &Vec<char>, pats: &Vec<Vec<char>>) -> (r: usize)
    ensures
        r == pats.deep_view().filter(|kw: Seq<char>| contains_seq(lp@, kw)).len(),
        r <= pats.deep_view().len(),
{
    let ghost dv = pats.deep_view();
    let mut r: usize = 0;
    let mut i: usize = 0;
    proof {
        reveal(Seq::filter);
        assert(dv.subrange(0, 0) =~= Seq::<Seq<char>>::empty());
        Seq::lemma_filter_len(dv, |kw: Seq<char>| contains_seq(lp@, kw));
    }
    while i < pats.len()
        invariant
            dv == pats.deep_view(),
            dv.len() == pats@.len(),
            i <= pats@.len(),
            r == dv.subrange(0, i as int).filter(|kw: Seq<char>| contains_seq(lp@, kw)).len(),
            r <= i,
        decreases pats@.len() - i,
    {
        let ghost pre = dv.subrange(0, i as int);
        let ghost post = dv.subrange(0, i + 1 as int);
        proof {
            reveal(Seq::filter);
            assert(post.drop_last() =~= pre);
            assert(post.last() == dv[i as int]);
            assert(dv[i as int] =~= pats@[i as int]@);
        }
        if contains_chars(lp, &pats[i]) {
            r += 1;
        }
        i += 1;
    }
    proof {
        assert(dv.subrange(0, dv.len() as int) =~= dv);
        Seq::lemma_filter_len(dv, |kw: Seq<char>| contains_seq(lp@, kw));
    }
    r
}

fn count_suffixes(lp: &Vec<char>, pats: &Vec<Vec<char>>) -> (r: usize)
    ensures
        r == pats.deep_view().filter(|e: Seq<char>| ends_with_seq(lp@, e)).len(),
        r <= pats.deep_view().len(),
{
    let ghost dv = pats.deep_view();
    let mut r: usize = 0;
    let mut i: usize = 0;
    proof {
        reveal(Seq::filter);
        assert(dv.subrange(0, 0) =~= Seq::<Seq<char>>::empty());
    }
    while i < pats.len()
        invariant
            dv == pats.deep_view(),
            dv.len() == pats@.len(),
            i <= pats@.len(),
            r == dv.subrange(0, i as int).filter(|e: Seq<char>| ends_with_seq(lp@, e)).len(),
            r <= i,
        decreases pats@.len() - i,
    {
        let ghost pre = dv.subrange(0, i as int);
        let ghost post = dv.subrange(0, i + 1 as int);
        proof {
            reveal(Seq::filter);
            assert(post.drop_last() =~= pre);
            assert(post.last() == dv[i as int]);
            assert(dv[i as int] =~= pats@[i as int]@);
        }
        if ends_with_chars(lp, &pats[i]) {
            r += 1;
        }
        i += 1;
    }
    proof {
        assert(dv.subrange(0, dv.len() as int) =~= dv);
    }
    r
}

/// Scores an already-lowered path.
pub fn score_lowered(lp: &Vec<char>) -> (r: i128)
    ensures
        r == score_spec(lp@),
{
    let kws = keyword_vec();
    let exts = extension_vec();
    let d = count_slashes(lp);
    let k = count_contains(lp, &kws);
    let e = count_suffixes(lp, &exts);
    10i128 - (d as i128) + 5i128 * (k as i128) + 2i128 * (e as i128)
}

/// Scores a path: depth, key words and extension of its lowered form.
pub fn score_file(path: &str) -> (r: i128)
    ensures
        r == path_score(path@),
{
    let low = lowercase(path);
    let lp = str_chars(low.as_str());
    score_lowered(&lp)
}

/// Whether the path names a text-like file: its lowered form ends with one
/// of the recognized text extensions. Binary files never enter prompts.
pub fn is_text_like(path: &str) -> (r: bool)
    ensures
        r == (ext_hits(lower_of(path@)) > 0),
{
    let low = lowercase(path);
    let lp = str_chars(low.as_str());
    let exts = extension_vec();
    let e = count_suffixes(&lp, &exts);
    e > 0
}

/// The paths of the non-directory rows of a flat tree listing, in order.
pub open spec fn file_paths(flat: Seq<(String, bool)>) -> Seq<Seq<char>> {
    flat.filter(|e: (String, bool)| !e.1).map_values(|e: (String, bool)| e.0@)
}

/// One scored candidate: its path, its score, and its position among the
/// candidate files.
struct Sel {
    path: String,
    score: i128,
    idx: usize,
}

/// Whether `a` must stand before `b`: higher score first, earlier position
/// first among equal scores.
spec fn sel_before(a: Sel, b: Sel) -> bool {
    a.score > b.score || (a.score == b.score && a.idx < b.idx)
}

fn sel_before_exec(a: &Sel, b: &Sel) -> (r: bool)
    ensures
        r == sel_before(*a, *b),
{
    a.score > b.score || (a.score == b.score && a.idx < b.idx)
}

/// Whether a candidate row is well formed against the candidate files.
spec fn sel_ok(s: Sel, files: Seq<Seq<char>>) -> bool {
    &&& 0 <= s.idx < files.len()
    &&& s.path@ == files[s.idx as int]
    &&& s.score == path_score(files[s.idx as int])
}

/// Sorts the candidates by descending score with the stable tie-break.
fn sort_sels(sels: Vec<Sel>, Ghost(files): Ghost<Seq<Seq<char>>>) -> (sorted: Vec<Sel>)
    requires
        forall|i: int| 0 <= i < sels@.len() ==> sel_ok(#[trigger] sels@[i], files),
        forall|i: int, j: int|
            0 <= i < j < sels@.len() ==> (#[trigger] sels@[i]).idx != (#[trigger] sels@[j]).idx,
    ensures
        sorted@.len() == sels@.len(),
        forall|i: int| 0 <= i < sorted@.len() ==> sel_ok(#[trigger] sorted@[i], files),
        forall|i: int, j: int|
            0 <= i < j < sorted@.len() ==> sel_before(sorted@[i], sorted@[j]),
        forall|i: int, j: int|
            0 <= i < j < sorted@.len() ==> (#[trigger] sorted@[i]).idx != (
            #[trigger] sorted@[j]).idx,
{
    let ghost n0 = sels@.len();
    let mut rest = sels;
    let mut sorted: Vec<Sel> = Vec::new();
    while rest.len() > 0
        invariant
            sorted@.len() + rest@.len() == n0,
            forall|i: int| 0 <= i < rest@.len() ==> sel_ok(#[trigger] rest@[i], files),
            forall|i: int| 0 <= i < sorted@.len() ==> sel_ok(#[trigger] sorted@[i], files),
            forall|i: int, j: int|
                0 <= i < j < rest@.len() ==> (#[trigger] rest@[i]).idx != (
                #[trigger] rest@[j]).idx,
            forall|i: int, j: int|
                0 <= i < j < sorted@.len() ==> (#[trigger] sorted@[i]).idx != (
                #[trigger] sorted@[j]).idx,
            forall|i: int, j: int|
                0 <= i < j < sorted@.len() ==> sel_before(
                    #[trigger] sorted@[i],
                    #[trigger] sorted@[j],
                ),
            forall|i: int, j: int|
                0 <= i < sorted@.len() && 0 <= j < rest@.len() ==> sel_before(
                    #[trigger] sorted@[i],
                    #[trigger] rest@[j],
                ) && sorted@[i].idx != rest@[j].idx,
        decreases rest@.len(),
    {
        let mut m: usize = 0;
        let mut k: usize = 1;
        while k < rest.len()
            invariant
                forall|i: int, j: int|
                    0 <= i < j < rest@.len() ==> (#[trigger] rest@[i]).idx != (
                    #[trigger] rest@[j]).idx,
                m < k <= rest@.len(),
                forall|j: int|
                    0 <= j < k && j != m ==> sel_before(rest@[m as int], #[trigger] rest@[j]),
            decreases rest@.len() - k,
        {
            if sel_before_exec(&rest[k], &rest[m]) {
                m = k;
            }
            k += 1;
        }
        let ghost old_rest = rest@;
        let least = rest.swap_remove(m);
        proof {
            assert(least == old_rest[m as int]);
            let new_rest = rest@;
            assert(new_rest =~= old_rest.update(m as int, old_rest.last()).drop_last());
            assert forall|j: int| 0 <= j < new_rest.len() implies exists|j0: int|
                0 <= j0 < old_rest.len() && j0 != m && old_rest[j0] == #[trigger] new_rest[j] by {
                if j == m && m < new_rest.len() {
                    assert(old_rest[old_rest.len() - 1] == new_rest[j]);
                } else {
                    assert(old_rest[j] == new_rest[j]);
                }
            }
            assert forall|j: int| 0 <= j < new_rest.len() implies sel_before(
                least,
                #[trigger] new_rest[j],
            ) && least.idx != new_rest[j].idx && sel_ok(new_rest[j], files) by {
                let j0 = choose|j0: int|
                    0 <= j0 < old_rest.len() && j0 != m && old_rest[j0] == new_rest[j];
            }
            assert forall|i: int, j: int|
                0 <= i < new_rest.len() && 0 <= j < new_rest.len() && i != j implies (
            #[trigger] new_rest[i]).idx != (#[trigger] new_rest[j]).idx by {
                let i0 = choose|i0: int|
                    0 <= i0 < old_rest.len() && i0 != m && old_rest[i0] == new_rest[i];
                let j0 = choose|j0: int|
                    0 <= j0 < old_rest.len() && j0 != m && old_rest[j0] == new_rest[j];
                if i0 == j0 {
                    assert(new_rest[i] == new_rest[j]);
                    if i == m || j == m {
                        assert(old_rest[old_rest.len() - 1] == new_rest[m as int]);
                    }
                    assert(false);
                }
            }
        }
        sorted.push(least);
    }
    sorted
}

/// Whether `m` witnesses a correct selection: `m` enumerates all candidate
/// files exactly once, in descending score order with ties kept in their
/// original relative order, and `out` holds the paths of the first
/// `max_count` of them.
pub open spec fn selection_witness(
    files: Seq<Seq<char>>,
    m: Seq<int>,
    out: Seq<Seq<char>>,
    max_count: int,
) -> bool {
    &&& m.len() == files.len()
    &&& forall|k: int| 0 <= k < m.len() ==> 0 <= #[trigger] m[k] < files.len()
    &&& forall|k1: int, k2: int| 0 <= k1 < k2 < m.len() ==> m[k1] != m[k2]
    &&& forall|k1: int, k2: int|
        0 <= k1 < k2 < m.len() ==> path_score(files[#[trigger] m[k1]]) >= path_score(
            files[#[trigger] m[k2]],
        )
    &&& forall|k1: int, k2: int|
        0 <= k1 < k2 < m.len() ==> (path_score(files[#[trigger] m[k1]]) == path_score(
            files[#[trigger] m[k2]],
        ) ==> m[k1] < m[k2])
    &&& out == Seq::new(
        if max_count <= files.len() {
            max_count as nat
        } else {
            files.len()
        },
        |k: int| files[m[k]],
    )
}

/// Selects up to `max_count` key files from a flat tree listing: the
/// candidate files, ordered by descending score with the stable tie-break,
/// truncated to `max_count`. The witness `m` pins the order completely.
pub fn select_key_files(flat: &Vec<(String, bool)>, max_count: usize) -> (r: Vec<String>)
    ensures
        ({
            let files = file_paths(flat@);
            &&& r@.len() == if max_count <= files.len() {
                max_count as int
            } else {
                files.len() as int
            }
            &&& exists|m: Seq<int>|
                #[trigger] selection_witness(files, m, string_views(r@), max_count as int)
        }),
{
    let ghost files = file_paths(flat@);
    let mut sels: Vec<Sel> = Vec::new();
    let mut i: usize = 0;
    proof {
        reveal(Seq::filter);
        assert(flat@.subrange(0, 0) =~= Seq::<(String, bool)>::empty());
        assert(file_paths(flat@.subrange(0, 0)) =~= Seq::<Seq<char>>::empty());
    }
    while i < flat.len()
        invariant
            files == file_paths(flat@),
            i <= flat@.len(),
            sels@.len() == file_paths(flat@.subrange(0, i as int)).len(),
            forall|j: int|
                0 <= j < sels@.len() ==> sel_ok(#[trigger] sels@[j], file_paths(
                    flat@.subrange(0, i as int),
                )) && sels@[j].idx == j,
        decreases flat@.len() - i,
    {
        let ghost pre = flat@.subrange(0, i as int);
        let ghost post = flat@.subrange(0, i + 1 as int);
        let ghost fpred = |e: (String, bool)| !e.1;
        let ghost fmap = |e: (String, bool)| e.0@;
        proof {
            reveal(Seq::filter);
            assert(post.drop_last() =~= pre);
            assert(post.last() == flat@[i as int]);
            if !flat@[i as int].1 {
                assert(post.filter(fpred) == pre.filter(fpred).push(flat@[i as int]));
                assert(file_paths(post) =~= file_paths(pre).push(flat@[i as int].0@));
            } else {
                assert(post.filter(fpred) == pre.filter(fpred));
                assert(file_paths(post) =~= file_paths(pre));
            }
        }
        if !flat[i].1 {
            let path = flat[i].0.clone();
            let score = score_file(path.as_str());
            let idx = sels.len();
            let ghost old_sels = sels@;
            sels.push(Sel { path, score, idx });
            proof {
                assert(forall|j: int| 0 <= j < old_sels.len() ==> sels@[j] == old_sels[j]);
                assert(sels@[old_sels.len() as int].path@ == flat@[i as int].0@);
                assert(file_paths(post)[old_sels.len() as int] == flat@[i as int].0@);
                assert(forall|j: int|
                    0 <= j < old_sels.len() ==> file_paths(post)[j] == file_paths(pre)[j]);
            }
        }
        i += 1;
    }
    proof {
        assert(flat@.subrange(0, flat@.len() as int) =~= flat@);
    }
    let ghost n_files = files.len();
    proof {
        assert(sels@.len() == n_files);
    }
    let sorted = sort_sels(sels, Ghost(files));
    let ghost m = Seq::new(sorted@.len(), |k: int| sorted@[k].idx as int);
    let mut r: Vec<String> = Vec::new();
    let mut k: usize = 0;
    while k < sorted.len() && k < max_count
        invariant
            k <= sorted@.len(),
            k <= max_count,
            r@.len() == k,
            forall|j: int| 0 <= j < k ==> (#[trigger] r@[j])@ == sorted@[j].path@,
        decreases sorted@.len() - k,
    {
        let p = sorted[k].path.clone();
        r.push(p);
        k += 1;
    }
    proof {
        assert forall|k1: int, k2: int| 0 <= k1 < k2 < m.len() implies m[k1] != m[k2] by {
            assert(sorted@[k1].idx != sorted@[k2].idx);
        }
        assert forall|k1: int, k2: int|
            0 <= k1 < k2 < m.len() implies path_score(files[#[trigger] m[k1]]) >= path_score(
            files[#[trigger] m[k2]],
        ) && (path_score(files[m[k1]]) == path_score(files[m[k2]]) ==> m[k1] < m[k2]) by {
            assert(sel_before(sorted@[k1], sorted@[k2]));
            assert(sorted@[k1].score == path_score(files[m[k1]]));
            assert(sorted@[k2].score == path_score(files[m[k2]]));
        }
        assert(string_views(r@) =~= Seq::new(
            if max_count as int <= files.len() {
                max_count as nat
            } else {
                files.len()
            },
            |k: int| files[m[k]],
        ));
        assert(selection_witness(files, m, string_views(r@), max_count as int));
    }
    r
}

} // verus!
