//! Character-level utilities shared by the whole crate: conversions between
//! `String` and `Vec<char>`, whitespace trimming, line splitting and joining,
//! and substring tests, each with an exact contract over `Seq<char>`.

use vstd::prelude::*;

verus! {

/// Relies on alloc::string::String::push: appends one character to the string.
#[verifier::external_body]
pub fn push_char(s: &mut String, c: char)
    ensures
        final(s)@ == old(s)@.push(c),
{
    s.push(c);
}

/// The characters of `s`, collected into a vector for verified loops.
pub fn str_chars(s: &str) -> (v: Vec<char>)
    ensures
        v@ == s@,
{
    let n: usize = s.unicode_len();
    let mut v: Vec<char> = Vec::new();
    let mut i: usize = 0;
    while i < n
        invariant
            n == s@.len(),
            i <= n,
            v@ =~= s@.subrange(0, i as int),
        decreases n - i,
    {
        let c = s.get_char(i);
        v.push(c);
        assert(s@.subrange(0, i + 1 as int) =~= s@.subrange(0, i as int).push(s@[i as int]));
        i += 1;
    }
    assert(v@ =~= s@);
    v
}

/// A string holding exactly the characters of `v`.
pub fn chars_string(v: &Vec<char>) -> (s: String)
    ensures
        s@ == v@,
{
    let mut s = String::new();
    let mut i: usize = 0;
    while i < v.len()
        invariant
            i <= v@.len(),
            s@ =~= v@.subrange(0, i as int),
        decreases v@.len() - i,
    {
        push_char(&mut s, v[i]);
        assert(v@.subrange(0, i + 1 as int) =~= v@.subrange(0, i as int).push(v@[i as int]));
        i += 1;
    }
    assert(s@ =~= v@);
    s
}

/// The whitespace characters that trimming removes.
pub open spec fn is_space(c: char) -> bool {
    c == ' ' || c == '\t' || c == '\r' || c == '\n'
}

pub fn space_char(c: char) -> (r: bool)
    ensures
        r == is_space(c),
{
    c == ' ' || c == '\t' || c == '\r' || c == '\n'
}

/// `s` with leading and trailing whitespace removed: the subrange from the
/// first to the last non-space character.
pub open spec fn trim_spec(s: Seq<char>) -> Seq<char>
    decreases s.len(),
{
    if s.len() == 0 {
        s
    } else if is_space(s[0]) {
        trim_spec(s.subrange(1, s.len() as int))
    } else if is_space(s[s.len() - 1]) {
        trim_spec(s.subrange(0, s.len() - 1))
    } else {
        s
    }
}

/// Trims leading and trailing whitespace from `v`.
#[verifier::rlimit(30)]
pub fn trim_chars(v: &Vec<char>) -> (r: Vec<char>)
    ensures
        r@ == trim_spec(v@),
{
    let mut lo: usize = 0;
    let mut hi: usize = v.len();
    proof {
        assert(v@.subrange(0, v@.len() as int) =~= v@);
    }
    while lo < hi && space_char(v[lo])
        invariant
            lo <= hi <= v@.len(),
            trim_spec(v@) == trim_spec(v@.subrange(lo as int, hi as int)),
            hi == v@.len(),
        decreases hi - lo,
    {
        proof {
            let cur = v@.subrange(lo as int, hi as int);
            assert(cur.subrange(1, cur.len() as int) =~= v@.subrange(lo + 1, hi as int));
        }
        lo += 1;
    }
    while lo < hi && space_char(v[hi - 1])
        invariant
            lo <= hi <= v@.len(),
            trim_spec(v@) == trim_spec(v@.subrange(lo as int, hi as int)),
            lo < hi ==> !is_space(v@[lo as int]),
        decreases hi - lo,
    {
        proof {
            let cur = v@.subrange(lo as int, hi as int);
            assert(cur[0] == v@[lo as int]);
            assert(cur.subrange(0, cur.len() - 1) =~= v@.subrange(lo as int, hi - 1));
        }
        hi -= 1;
    }
    let mut r: Vec<char> = Vec::new();
    let mut i: usize = lo;
    while i < hi
        invariant
            lo <= i <= hi <= v@.len(),
            r@ =~= v@.subrange(lo as int, i as int),
        decreases hi - i,
    {
        r.push(v[i]);
        assert(v@.subrange(lo as int, i + 1 as int) =~= v@.subrange(lo as int, i as int).push(
            v@[i as int],
        ));
        i += 1;
    }
    proof {
        let cur = v@.subrange(lo as int, hi as int);
        if lo < hi {
            assert(cur[0] == v@[lo as int]);
            assert(cur[cur.len() - 1] == v@[hi - 1]);
            assert(trim_spec(cur) == cur);
        } else {
            assert(cur.len() == 0);
            assert(trim_spec(cur) == cur);
        }
        assert(r@ =~= cur);
    }
    r
}

/// Whether `p` occurs in `s` starting at index `at`.
pub open spec fn matches_at(s: Seq<char>, p: Seq<char>, at: int) -> bool {
    &&& 0 <= at
    &&& at + p.len() <= s.len()
    &&& forall|k: int| 0 <= k < p.len() ==> s[at + k] == p[k]
}

/// Whether `p` occurs anywhere in `s`.
pub open spec fn contains_seq(s: Seq<char>, p: Seq<char>) -> bool {
    exists|at: int| matches_at(s, p, at)
}

/// Whether `p` is a prefix of `s`.
pub open spec fn starts_with_seq(s: Seq<char>, p: Seq<char>) -> bool {
    matches_at(s, p, 0)
}

/// Whether `p` is a suffix of `s`.
pub open spec fn ends_with_seq(s: Seq<char>, p: Seq<char>) -> bool {
    p.len() <= s.len() && matches_at(s, p, s.len() - p.len())
}

fn matches_at_exec(s: &Vec<char>, p: &Vec<char>, at: usize) -> (r: bool)
    requires
        at + p@.len() <= s@.len(),
    ensures
        r == matches_at(s@, p@, at as int),
{
    let slen: usize = s.len();
    let mut k: usize = 0;
    while k < p.len()
        invariant
            k <= p@.len(),
            at + p@.len() <= slen,
            slen == s@.len(),
            forall|j: int| 0 <= j < k ==> s@[at + j] == p@[j],
        decreases p@.len() - k,
    {
        if s[at + k] != p[k] {
            return false;
        }
        k += 1;
    }
    true
}

/// Whether the characters `p` occur in `s` at position `at`.
pub fn starts_with_chars_at(s: &Vec<char>, p: &Vec<char>, at: usize) -> (r: bool)
    requires
        at + p@.len() <= s@.len(),
    ensures
        r == matches_at(s@, p@, at as int),
{
    matches_at_exec(s, p, at)
}

/// Whether the characters `p` are a prefix of `s`.
pub fn starts_with_chars(s: &Vec<char>, p: &Vec<char>) -> (r: bool)
    ensures
        r == starts_with_seq(s@, p@),
{
    if p.len() > s.len() {
        return false;
    }
    matches_at_exec(s, p, 0)
}

/// Whether the characters `p` are a suffix of `s`.
pub fn ends_with_chars(s: &Vec<char>, p: &Vec<char>) -> (r: bool)
    ensures
        r == ends_with_seq(s@, p@),
{
    if p.len() > s.len() {
        return false;
    }
    matches_at_exec(s, p, s.len() - p.len())
}

/// Whether the characters `p` occur anywhere in `s`.
pub fn contains_chars(s: &Vec<char>, p: &Vec<char>) -> (r: bool)
    ensures
        r == contains_seq(s@, p@),
{
    if p.len() == 0 {
        assert(matches_at(s@, p@, 0));
        return true;
    }
    if p.len() > s.len() {
        assert(!contains_seq(s@, p@));
        return false;
    }
    let last: usize = s.len() - p.len();
    let mut at: usize = 0;
    while at <= last
        invariant
            1 <= p@.len() <= s@.len(),
            s@.len() <= usize::MAX,
            last == s@.len() - p@.len(),
            at <= last + 1,
            forall|j: int| 0 <= j < at ==> !matches_at(s@, p@, j),
        decreases last + 1 - at,
    {
        if matches_at_exec(s, p, at) {
            return true;
        }
        at += 1;
    }
    assert(forall|j: int| matches_at(s@, p@, j) ==> 0 <= j <= last);
    false
}

/// Whether the sequences `a` and `b` are equal.
pub fn chars_eq(a: &Vec<char>, b: &Vec<char>) -> (r: bool)
    ensures
        r == (a@ == b@),
{
    if a.len() != b.len() {
        return false;
    }
    let mut i: usize = 0;
    while i < a.len()
        invariant
            a@.len() == b@.len(),
            i <= a@.len(),
            forall|j: int| 0 <= j < i ==> a@[j] == b@[j],
        decreases a@.len() - i,
    {
        if a[i] != b[i] {
            return false;
        }
        i += 1;
    }
    proof {
        assert(a@ =~= b@);
    }
    true
}

/// Strict lexicographic order on character sequences, by code point.
pub open spec fn chars_lt(a: Seq<char>, b: Seq<char>) -> bool
    decreases a.len(),
{
    if b.len() == 0 {
        false
    } else if a.len() == 0 {
        true
    } else if a[0] != b[0] {
        a[0] < b[0]
    } else {
        chars_lt(a.subrange(1, a.len() as int), b.subrange(1, b.len() as int))
    }
}

/// Lexicographic order is total: two distinct sequences compare one way.
pub proof fn lemma_chars_lt_total(a: Seq<char>, b: Seq<char>)
    ensures
        a == b || chars_lt(a, b) || chars_lt(b, a),
    decreases a.len(),
{
    if b.len() == 0 {
        if a.len() == 0 {
            assert(a =~= b);
        }
    } else if a.len() == 0 {
    } else if a[0] != b[0] {
    } else {
        let at = a.subrange(1, a.len() as int);
        let bt = b.subrange(1, b.len() as int);
        lemma_chars_lt_total(at, bt);
        if at == bt {
            assert(a.len() == b.len());
            assert(forall|i: int| 1 <= i < a.len() ==> a[i] == at[i - 1] && b[i] == bt[i - 1]);
            assert(a =~= b);
        }
    }
}

/// Appends a copy of the characters of `src` to `dst`.
pub fn extend_chars(dst: &mut Vec<char>, src: &Vec<char>)
    ensures
        final(dst)@ == old(dst)@ + src@,
{
    let mut i: usize = 0;
    while i < src.len()
        invariant
            i <= src@.len(),
            dst@ =~= old(dst)@ + src@.subrange(0, i as int),
        decreases src@.len() - i,
    {
        dst.push(src[i]);
        assert(src@.subrange(0, i + 1 as int) =~= src@.subrange(0, i as int).push(src@[i as int]));
        i += 1;
    }
    assert(src@.subrange(0, src@.len() as int) =~= src@);
}

/// Compares `a` and `b` in lexicographic order.
pub fn chars_lt_exec(a: &Vec<char>, b: &Vec<char>) -> (r: bool)
    ensures
        r == chars_lt(a@, b@),
{
    proof {
        assert(a@.subrange(0, a@.len() as int) =~= a@);
        assert(b@.subrange(0, b@.len() as int) =~= b@);
    }
    let mut i: usize = 0;
    while i < a.len() && i < b.len()
        invariant
            i <= a@.len(),
            i <= b@.len(),
            forall|j: int| 0 <= j < i ==> a@[j] == b@[j],
            chars_lt(a@, b@) == chars_lt(
                a@.subrange(i as int, a@.len() as int),
                b@.subrange(i as int, b@.len() as int),
            ),
        decreases a@.len() - i,
    {
        let ca = a[i];
        let cb = b[i];
        if ca != cb {
            proof {
                let ar = a@.subrange(i as int, a@.len() as int);
                let br = b@.subrange(i as int, b@.len() as int);
                assert(ar[0] == a@[i as int]);
                assert(br[0] == b@[i as int]);
            }
            return ca < cb;
        }
        proof {
            let ar = a@.subrange(i as int, a@.len() as int);
            let br = b@.subrange(i as int, b@.len() as int);
            assert(ar[0] == br[0]);
            assert(ar.subrange(1, ar.len() as int) =~= a@.subrange(i + 1, a@.len() as int));
            assert(br.subrange(1, br.len() as int) =~= b@.subrange(i + 1, b@.len() as int));
        }
        i += 1;
    }
    proof {
        let ar = a@.subrange(i as int, a@.len() as int);
        let br = b@.subrange(i as int, b@.len() as int);
        if i >= a.len() {
            assert(ar.len() == 0);
        } else {
            assert(br.len() == 0);
        }
    }
    i >= a.len() && i < b.len()
}

/// The pieces of `s` cut at every newline: the final piece is whatever
/// follows the last newline, possibly empty. The result never is empty.
pub open spec fn split_nl(s: Seq<char>) -> Seq<Seq<char>>
    decreases s.len(),
{
    if s.len() == 0 {
        seq![Seq::<char>::empty()]
    } else {
        let rest = split_nl(s.drop_last());
        if s.last() == '\n' {
            rest.push(Seq::<char>::empty())
        } else {
            rest.update(rest.len() - 1, rest.last().push(s.last()))
        }
    }
}

pub proof fn lemma_split_nl_nonempty(s: Seq<char>)
    ensures
        split_nl(s).len() >= 1,
    decreases s.len(),
{
    if s.len() > 0 {
        lemma_split_nl_nonempty(s.drop_last());
    }
}

/// `p` without one trailing carriage return, if it has one.
pub open spec fn strip_cr(p: Seq<char>) -> Seq<char> {
    if p.len() > 0 && p.last() == '\r' {
        p.drop_last()
    } else {
        p
    }
}

/// The lines of `s`: pieces cut at every newline, each newline-terminated
/// piece losing one trailing carriage return, and a trailing empty piece
/// dropped, as the standard line iterator yields them.
pub open spec fn lines_of(s: Seq<char>) -> Seq<Seq<char>> {
    let raw = split_nl(s);
    let body = raw.drop_last().map_values(|p: Seq<char>| strip_cr(p));
    if raw.last().len() > 0 {
        body.push(raw.last())
    } else {
        body
    }
}

/// Splits `v` into its lines.
pub fn split_lines(v: &Vec<char>) -> (r: Vec<Vec<char>>)
    ensures
        r.deep_view() == lines_of(v@),
{
    let mut out: Vec<Vec<char>> = Vec::new();
    let mut cur: Vec<char> = Vec::new();
    let mut i: usize = 0;
    proof {
        assert(v@.subrange(0, 0) =~= Seq::<char>::empty());
        assert(out.deep_view() =~= split_nl(v@.subrange(0, 0)).drop_last().map_values(
            |p: Seq<char>| strip_cr(p),
        ));
    }
    while i < v.len()
        invariant
            i <= v@.len(),
            split_nl(v@.subrange(0, i as int)).len() >= 1,
            cur@ == split_nl(v@.subrange(0, i as int)).last(),
            out.deep_view() == split_nl(v@.subrange(0, i as int)).drop_last().map_values(
                |p: Seq<char>| strip_cr(p),
            ),
        decreases v@.len() - i,
    {
        let ghost pre = v@.subrange(0, i as int);
        let ghost post = v@.subrange(0, i + 1 as int);
        proof {
            assert(post.drop_last() =~= pre);
            assert(post.last() == v@[i as int]);
            lemma_split_nl_nonempty(pre);
        }
        let c = v[i];
        if c == '\n' {
            let mut line = cur;
            if line.len() > 0 && line[line.len() - 1] == '\r' {
                line.pop();
                assert(line@ =~= split_nl(pre).last().drop_last());
            }
            assert(line@ == strip_cr(split_nl(pre).last()));
            let ghost old_deep = out.deep_view();
            out.push(line);
            cur = Vec::new();
            proof {
                let f = |p: Seq<char>| strip_cr(p);
                let raw2 = split_nl(post);
                assert(line.deep_view() =~= line@);
                assert(out.deep_view() =~= old_deep.push(line@));
                assert(raw2 == split_nl(pre).push(Seq::<char>::empty()));
                assert(raw2.drop_last() =~= split_nl(pre));
                assert(raw2.drop_last().map_values(f) =~= split_nl(pre).drop_last().map_values(
                    f,
                ).push(f(split_nl(pre).last())));
                assert(out.deep_view() =~= raw2.drop_last().map_values(f));
            }
        } else {
            cur.push(c);
            proof {
                let raw = split_nl(pre);
                let raw2 = split_nl(post);
                assert(raw2 == raw.update(raw.len() - 1, raw.last().push(v@[i as int])));
                assert(raw2.drop_last() =~= raw.drop_last());
                assert(raw2.last() == raw.last().push(v@[i as int]));
            }
        }
        i += 1;
    }
    proof {
        assert(v@.subrange(0, v@.len() as int) =~= v@);
    }
    if cur.len() > 0 {
        let ghost old_deep = out.deep_view();
        let ghost cur_view = cur@;
        proof {
            assert(cur.deep_view() =~= cur_view);
        }
        out.push(cur);
        proof {
            assert(out.deep_view() =~= old_deep.push(cur_view));
        }
    }
    out
}

/// Whether `c` is among the characters of `seps`.
pub fn char_in(seps: &Vec<char>, c: char) -> (r: bool)
    ensures
        r == seps@.contains(c),
{
    let mut i: usize = 0;
    while i < seps.len()
        invariant
            i <= seps@.len(),
            forall|j: int| 0 <= j < i ==> seps@[j] != c,
        decreases seps@.len() - i,
    {
        if seps[i] == c {
            return true;
        }
        i += 1;
    }
    false
}

/// The pieces of `s` cut at every character of `seps`. A separator at the
/// start, the end, or next to another yields an empty piece; the result
/// never is empty.
pub open spec fn split_on(s: Seq<char>, seps: Seq<char>) -> Seq<Seq<char>>
    decreases s.len(),
{
    if s.len() == 0 {
        seq![Seq::<char>::empty()]
    } else {
        let rest = split_on(s.drop_last(), seps);
        if seps.contains(s.last()) {
            rest.push(Seq::<char>::empty())
        } else {
            rest.update(rest.len() - 1, rest.last().push(s.last()))
        }
    }
}

pub proof fn lemma_split_on_nonempty(s: Seq<char>, seps: Seq<char>)
    ensures
        split_on(s, seps).len() >= 1,
    decreases s.len(),
{
    if s.len() > 0 {
        lemma_split_on_nonempty(s.drop_last(), seps);
    }
}

/// Splits `v` at every character of `seps`.
pub fn split_on_exec(v: &Vec<char>, seps: &Vec<char>) -> (r: Vec<Vec<char>>)
    ensures
        r.deep_view() == split_on(v@, seps@),
{
    let mut out: Vec<Vec<char>> = Vec::new();
    let mut cur: Vec<char> = Vec::new();
    let mut i: usize = 0;
    proof {
        assert(v@.subrange(0, 0) =~= Seq::<char>::empty());
        assert(out.deep_view() =~= split_on(v@.subrange(0, 0), seps@).drop_last());
    }
    while i < v.len()
        invariant
            i <= v@.len(),
            split_on(v@.subrange(0, i as int), seps@).len() >= 1,
            cur@ == split_on(v@.subrange(0, i as int), seps@).last(),
            out.deep_view() == split_on(v@.subrange(0, i as int), seps@).drop_last(),
        decreases v@.len() - i,
    {
        let ghost pre = v@.subrange(0, i as int);
        let ghost post = v@.subrange(0, i + 1 as int);
        proof {
            assert(post.drop_last() =~= pre);
            assert(post.last() == v@[i as int]);
            lemma_split_on_nonempty(pre, seps@);
        }
        let c = v[i];
        if char_in(seps, c) {
            let line = cur;
            let ghost old_deep = out.deep_view();
            proof {
                assert(line.deep_view() =~= line@);
            }
            out.push(line);
            cur = Vec::new();
            proof {
                let raw2 = split_on(post, seps@);
                assert(raw2 == split_on(pre, seps@).push(Seq::<char>::empty()));
                assert(raw2.drop_last() =~= split_on(pre, seps@));
                assert(out.deep_view() =~= old_deep.push(line@));
                assert(out.deep_view() =~= raw2.drop_last());
            }
        } else {
            cur.push(c);
            proof {
                let raw = split_on(pre, seps@);
                let raw2 = split_on(post, seps@);
                assert(raw2 == raw.update(raw.len() - 1, raw.last().push(v@[i as int])));
                assert(raw2.drop_last() =~= raw.drop_last());
                assert(raw2.last() == raw.last().push(v@[i as int]));
            }
        }
        i += 1;
    }
    proof {
        assert(v@.subrange(0, v@.len() as int) =~= v@);
    }
    let ghost old_deep = out.deep_view();
    let ghost cur_view = cur@;
    proof {
        assert(cur.deep_view() =~= cur_view);
    }
    out.push(cur);
    proof {
        assert(out.deep_view() =~= old_deep.push(cur_view));
        lemma_split_on_nonempty(v@, seps@);
        assert(split_on(v@, seps@).drop_last().push(split_on(v@, seps@).last()) =~= split_on(
            v@,
            seps@,
        ));
    }
    out
}

/// The pieces joined with the single character `sep` between them.
pub open spec fn join_on(ls: Seq<Seq<char>>, sep: char) -> Seq<char>
    decreases ls.len(),
{
    if ls.len() == 0 {
        Seq::<char>::empty()
    } else if ls.len() == 1 {
        ls[0]
    } else {
        join_on(ls.drop_last(), sep) + seq![sep] + ls.last()
    }
}

/// Joins `ls` with `sep` between the pieces.
pub fn join_on_exec(ls: &Vec<Vec<char>>, sep: char) -> (r: Vec<char>)
    ensures
        r@ == join_on(ls.deep_view(), sep),
{
    let mut r: Vec<char> = Vec::new();
    let mut i: usize = 0;
    while i < ls.len()
        invariant
            i <= ls@.len(),
            ls.deep_view().len() == ls@.len(),
            r@ == join_on(ls.deep_view().subrange(0, i as int), sep),
        decreases ls@.len() - i,
    {
        if i > 0 {
            r.push(sep);
        }
        extend_chars(&mut r, &ls[i]);
        proof {
            let dv = ls.deep_view();
            assert(dv[i as int] == ls@[i as int].deep_view());
            assert(ls@[i as int].deep_view() =~= ls@[i as int]@);
            let prefix2 = dv.subrange(0, i + 1 as int);
            assert(prefix2.drop_last() =~= dv.subrange(0, i as int));
            assert(prefix2.last() == dv[i as int]);
            if i == 0 {
                assert(join_on(prefix2, sep) == dv[0]);
            }
        }
        i += 1;
    }
    proof {
        assert(ls.deep_view().subrange(0, ls@.len() as int) =~= ls.deep_view());
    }
    r
}

/// The lines joined with single newlines, with nothing at the ends.
pub open spec fn join_nl(ls: Seq<Seq<char>>) -> Seq<char>
    decreases ls.len(),
{
    if ls.len() == 0 {
        Seq::<char>::empty()
    } else if ls.len() == 1 {
        ls[0]
    } else {
        join_nl(ls.drop_last()) + seq!['\n'] + ls.last()
    }
}

/// Joins `ls` with single newlines.
pub fn join_lines(ls: &Vec<Vec<char>>) -> (r: Vec<char>)
    ensures
        r@ == join_nl(ls.deep_view()),
{
    let mut r: Vec<char> = Vec::new();
    let mut i: usize = 0;
    while i < ls.len()
        invariant
            i <= ls@.len(),
            ls.deep_view().len() == ls@.len(),
            r@ == join_nl(ls.deep_view().subrange(0, i as int)),
        decreases ls@.len() - i,
    {
        if i > 0 {
            r.push('\n');
        }
        extend_chars(&mut r, &ls[i]);
        proof {
            let dv = ls.deep_view();
            assert(dv[i as int] == ls@[i as int].deep_view());
            let prefix2 = dv.subrange(0, i + 1 as int);
            assert(prefix2.drop_last() =~= dv.subrange(0, i as int));
            assert(prefix2.last() == dv[i as int]);
            if i == 0 {
                assert(join_nl(prefix2) == dv[0]);
            }
        }
        i += 1;
    }
    proof {
        assert(ls.deep_view().subrange(0, ls@.len() as int) =~= ls.deep_view());
    }
    r
}

/// The decimal digit character for `d`.
pub open spec fn digit_char(d: int) -> char {
    (d + 48) as char
}

/// The decimal numeral of `n`, most significant digit first.
pub open spec fn decimal_of(n: nat) -> Seq<char>
    decreases n,
{
    if n < 10 {
        seq![digit_char(n as int)]
    } else {
        decimal_of(n / 10).push(digit_char((n % 10) as int))
    }
}

/// Renders `n` in decimal.
pub fn usize_decimal(n: usize) -> (r: Vec<char>)
    ensures
        r@ == decimal_of(n as nat),
{
    let mut rev: Vec<char> = Vec::new();
    let mut m: usize = n;
    proof {
        assert(decimal_of(n as nat) =~= decimal_of(n as nat) + rev@.reverse());
    }
    loop
        invariant_except_break
            decimal_of(n as nat) =~= decimal_of(m as nat) + rev@.reverse(),
        ensures
            decimal_of(n as nat) =~= rev@.reverse(),
        decreases m,
    {
        let d: u8 = (m % 10) as u8;
        let c: char = (d + 48) as char;
        let ghost old_m = m as nat;
        let ghost old_rev = rev@;
        rev.push(c);
        m = m / 10;
        proof {
            assert(c == digit_char((old_m % 10) as int));
            assert(rev@.reverse() =~= seq![c] + old_rev.reverse());
            if old_m < 10 {
                assert(decimal_of(old_m) =~= seq![c]);
                assert(decimal_of(n as nat) =~= rev@.reverse());
            } else {
                assert(decimal_of(old_m) == decimal_of(old_m / 10).push(digit_char((old_m
                    % 10) as int)));
                assert(decimal_of(old_m) =~= decimal_of(old_m / 10) + seq![c]);
                assert(decimal_of(n as nat) =~= decimal_of(m as nat) + rev@.reverse());
            }
        }
        if m == 0 {
            break;
        }
    }
    let mut r: Vec<char> = Vec::new();
    let mut i: usize = rev.len();
    while i > 0
        invariant
            i <= rev@.len(),
            r@ =~= rev@.subrange(i as int, rev@.len() as int).reverse(),
        decreases i,
    {
        i -= 1;
        r.push(rev[i]);
        proof {
            let tail = rev@.subrange(i as int, rev@.len() as int);
            let tail2 = rev@.subrange(i + 1, rev@.len() as int);
            assert(tail.drop_first() =~= tail2);
            assert(tail.reverse() =~= tail2.reverse().push(tail[0]));
        }
    }
    proof {
        assert(rev@.subrange(0, rev@.len() as int) =~= rev@);
    }
    r
}

/// The least index at which `c` occurs in `s`, if any.
pub open spec fn first_at(s: Seq<char>, c: char) -> Option<int>
    decreases s.len(),
{
    if s.len() == 0 {
        None
    } else if s[0] == c {
        Some(0int)
    } else {
        match first_at(s.drop_first(), c) {
            Some(i) => Some(i + 1),
            None => None,
        }
    }
}

pub proof fn lemma_first_at(s: Seq<char>, c: char, i: int)
    requires
        0 <= i <= s.len(),
        forall|j: int| 0 <= j < i ==> s[j] != c,
        i == s.len() || s[i] == c,
    ensures
        first_at(s, c) == if i == s.len() {
            Option::<int>::None
        } else {
            Option::<int>::Some(i)
        },
    decreases i,
{
    if s.len() == 0 {
    } else if i == 0 {
    } else {
        let tail = s.drop_first();
        assert(forall|j: int| 0 <= j < i - 1 ==> tail[j] != c);
        assert(i - 1 == tail.len() || tail[i - 1] == c);
        lemma_first_at(tail, c, i - 1);
        assert(s[0] != c);
    }
}

/// Finds the first occurrence of `c` in `v`.
pub fn find_char(v: &Vec<char>, c: char) -> (r: Option<usize>)
    ensures
        ({
            match r {
                Some(i) => first_at(v@, c) == Some(i as int) && i < v@.len() && v@[i as int]
                    == c,
                None => first_at(v@, c) is None,
            }
        }),
{
    let mut i: usize = 0;
    while i < v.len()
        invariant
            i <= v@.len(),
            forall|j: int| 0 <= j < i ==> v@[j] != c,
        decreases v@.len() - i,
    {
        if v[i] == c {
            proof {
                lemma_first_at(v@, c, i as int);
            }
            return Some(i);
        }
        i += 1;
    }
    proof {
        lemma_first_at(v@, c, v@.len() as int);
    }
    None
}

/// The views of a row of strings.
pub open spec fn string_views(s: Seq<String>) -> Seq<Seq<char>> {
    s.map_values(|p: String| p@)
}

/// What lower-casing yields, as a function of the characters alone.
pub uninterp spec fn lower_of(s: Seq<char>) -> Seq<char>;

/// Relies on str::to_lowercase: the result depends on the characters alone.
#[verifier::external_body]
pub fn lowercase(s: &str) -> (r: String)
    ensures
        r@ == lower_of(s@),
{
    s.to_lowercase()
}

} // verus!
