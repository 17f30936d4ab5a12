//! The project file tree: building an ordered node tree from a flat list
//! of relative paths, and flattening it back by pre-order traversal. In
//! every sibling list, directories precede files and each group is
//! alphabetical by name; every node's path is its parent's path extended
//! with its own name.

use vstd::prelude::*;
use crate::text::chars_lt;
use crate::text::chars_lt_exec;
use crate::text::chars_eq;
use crate::text::chars_string;
use crate::text::extend_chars;
use crate::text::lemma_chars_lt_total;
use crate::text::split_on;
use crate::text::split_on_exec;
use crate::text::str_chars;

verus! {

/// A node of the file tree. `path` is the `/`-joined relative path from
/// the tree root; `children` is present exactly on directories.
pub struct FileNode {
    pub name: String,
    pub path: String,
    pub is_dir: bool,
    pub children: Option<Vec<FileNode>>,
}

/// Whether `a` must stand before `b` in a sibling list: directories before
/// files, and names ascending within each group.
pub open spec fn sibling_before(a: FileNode, b: FileNode) -> bool {
    if a.is_dir != b.is_dir {
        a.is_dir
    } else {
        chars_lt(a.name@, b.name@)
    }
}

/// The ordering invariant of one sibling list.
pub open spec fn siblings_ordered(v: Seq<FileNode>) -> bool {
    forall|i: int, j: int| 0 <= i < j < v.len() ==> sibling_before(v[i], v[j])
}

/// The ordering invariant, through the whole tree.
pub open spec fn tree_ordered(n: FileNode) -> bool
    decreases n,
{
    match n.children {
        Option::None => !n.is_dir,
        Option::Some(cs) => n.is_dir && siblings_ordered(cs@) && (forall|i: int|
            0 <= i < cs@.len() ==> tree_ordered(#[trigger] cs@[i])),
    }
}

pub open spec fn forest_ordered(v: Seq<FileNode>) -> bool {
    &&& siblings_ordered(v)
    &&& forall|i: int| 0 <= i < v.len() ==> tree_ordered(#[trigger] v[i])
}

/// The path a child with `name` has below a parent with path `parent`.
pub open spec fn child_path(parent: Seq<char>, name: Seq<char>) -> Seq<char> {
    if parent.len() == 0 {
        name
    } else {
        parent + seq!['/'] + name
    }
}

/// Whether every node's path is its parent's path extended with its name.
pub open spec fn tree_paths_ok(n: FileNode, parent: Seq<char>) -> bool
    decreases n,
{
    &&& n.path@ == child_path(parent, n.name@)
    &&& match n.children {
        Option::None => true,
        Option::Some(cs) => forall|i: int|
            0 <= i < cs@.len() ==> tree_paths_ok(#[trigger] cs@[i], n.path@),
    }
}

pub open spec fn forest_paths_ok(v: Seq<FileNode>, parent: Seq<char>) -> bool {
    forall|i: int| 0 <= i < v.len() ==> tree_paths_ok(#[trigger] v[i], parent)
}

/// One path of the flat input, cut into segments.
struct RawEntry {
    segs: Vec<Vec<char>>,
    is_dir: bool,
}

/// One distinct first segment of a group of entries, with the kind its
/// node will have.
struct HeadInfo {
    name: Vec<char>,
    is_dir: bool,
}

/// Whether head `a` stands before head `b` in the sibling order.
spec fn head_before(a: HeadInfo, b: HeadInfo) -> bool {
    if a.is_dir != b.is_dir {
        a.is_dir
    } else {
        chars_lt(a.name@, b.name@)
    }
}

fn head_before_exec(a: &HeadInfo, b: &HeadInfo) -> (r: bool)
    ensures
        r == head_before(*a, *b),
{
    if a.is_dir != b.is_dir {
        a.is_dir
    } else {
        chars_lt_exec(&a.name, &b.name)
    }
}

proof fn lemma_chars_lt_trans(a: Seq<char>, b: Seq<char>, c: Seq<char>)
    requires
        chars_lt(a, b),
        chars_lt(b, c),
    ensures
        chars_lt(a, c),
    decreases a.len() + b.len() + c.len(),
{
    if c.len() == 0 {
        // chars_lt(b, c) is false
    } else if b.len() == 0 {
        // chars_lt(a, b) is false unless a empty, but then chars_lt(a,c) by c nonempty
        assert(a.len() == 0 || !chars_lt(a, b));
    } else if a.len() == 0 {
    } else {
        if a[0] != b[0] {
            if b[0] != c[0] {
                if a[0] != c[0] {
                } else {
                    assert(a[0] < b[0] && b[0] < c[0]);
                    assert(false);
                }
            } else {
                assert(a[0] != c[0]);
            }
        } else {
            if b[0] != c[0] {
                assert(a[0] != c[0] || false);
            } else {
                lemma_chars_lt_trans(
                    a.subrange(1, a.len() as int),
                    b.subrange(1, b.len() as int),
                    c.subrange(1, c.len() as int),
                );
            }
        }
    }
}

proof fn lemma_head_before_trans(a: HeadInfo, b: HeadInfo, c: HeadInfo)
    requires
        head_before(a, b),
        head_before(b, c),
    ensures
        head_before(a, c),
{
    if a.is_dir == b.is_dir && b.is_dir == c.is_dir {
        lemma_chars_lt_trans(a.name@, b.name@, c.name@);
    }
}

/// Heads have pairwise distinct names.
spec fn heads_distinct(v: Seq<HeadInfo>) -> bool {
    forall|i: int, j: int| 0 <= i < j < v.len() ==> (#[trigger] v[i]).name@ != (#[trigger] v[j]).name@
}

/// Whether the entry makes its head a directory: it continues past the
/// head, or names the head itself as a directory.
spec fn entry_dir(e: RawEntry) -> bool {
    e.segs@.len() > 1 || e.is_dir
}

/// The first segment of an entry.
spec fn entry_head(e: RawEntry) -> Seq<char> {
    e.segs@[0]@
}

/// Whether head `h` accounts for entry `e`: same first segment, and a
/// directory whenever the entry demands one.
spec fn head_covers(h: HeadInfo, e: RawEntry) -> bool {
    &&& h.name@ == entry_head(e)
    &&& (entry_dir(e) ==> h.is_dir)
}

/// The tails of the listed paths that continue below a sibling named
/// `nm`: their segments with the head dropped, in listing order.
pub open spec fn tails_for(es: Seq<(Seq<Seq<char>>, bool)>, nm: Seq<char>) -> Seq<
    (Seq<Seq<char>>, bool),
> {
    es.filter(|e: (Seq<Seq<char>>, bool)| e.0.len() > 1 && e.0[0] == nm).map_values(
        |e: (Seq<Seq<char>>, bool)| (e.0.drop_first(), e.1),
    )
}

/// Whether the node answers to the listed paths: its name is some path's
/// head; it is a directory exactly when some such path continues past the
/// head or names it as a directory; and its children answer, recursively,
/// to the tails of the paths that continue below it.
pub open spec fn node_ok(n: FileNode, es: Seq<(Seq<Seq<char>>, bool)>) -> bool
    decreases n,
{
    &&& exists|i: int|
        0 <= i < es.len() && (#[trigger] es[i]).0.len() >= 1 && es[i].0[0] == n.name@
    &&& (n.is_dir <==> exists|i: int|
        0 <= i < es.len() && (#[trigger] es[i]).0.len() >= 1 && es[i].0[0] == n.name@ && (
        es[i].0.len() > 1 || es[i].1))
    &&& match n.children {
        Option::None => true,
        Option::Some(cs) => forall|k: int|
            0 <= k < cs@.len() ==> node_ok(#[trigger] cs@[k], tails_for(es, n.name@)),
    }
}

/// Whether every node of the forest answers to the listed paths: the
/// upper bound that, with coverage, pins the tree.
pub open spec fn forest_bounded(v: Seq<FileNode>, es: Seq<(Seq<Seq<char>>, bool)>) -> bool {
    forall|k: int| 0 <= k < v.len() ==> node_ok(#[trigger] v[k], es)
}

/// Sibling names are pairwise distinct, across the directory and file
/// groups alike.
pub open spec fn sibling_names_unique(v: Seq<FileNode>) -> bool {
    forall|i: int, j: int|
        0 <= i < j < v.len() ==> (#[trigger] v[i]).name@ != (#[trigger] v[j]).name@
}

/// Name uniqueness in every sibling list of the tree.
pub open spec fn node_names_unique(n: FileNode) -> bool
    decreases n,
{
    match n.children {
        Option::None => true,
        Option::Some(cs) => sibling_names_unique(cs@) && (forall|k: int|
            0 <= k < cs@.len() ==> node_names_unique(#[trigger] cs@[k])),
    }
}

pub open spec fn forest_names_unique(v: Seq<FileNode>) -> bool {
    &&& sibling_names_unique(v)
    &&& forall|k: int| 0 <= k < v.len() ==> node_names_unique(#[trigger] v[k])
}

/// The view rows of the raw entries: segments and kind.
spec fn raw_views(es: Seq<RawEntry>) -> Seq<(Seq<Seq<char>>, bool)> {
    es.map_values(|e: RawEntry| (e.segs.deep_view(), e.is_dir))
}

/// Whether head `h` is justified by the entries: its name is some entry's
/// head, and its directory flag only set when some such entry demands it.
spec fn head_justified(h: HeadInfo, entries: Seq<RawEntry>) -> bool {
    &&& exists|i: int|
        0 <= i < entries.len() && entry_head(#[trigger] entries[i]) == h.name@
    &&& (h.is_dir ==> exists|i: int|
        0 <= i < entries.len() && entry_head(#[trigger] entries[i]) == h.name@
            && entry_dir(entries[i]))
}

#[verifier::opaque]
spec fn heads_justified(heads: Seq<HeadInfo>, entries: Seq<RawEntry>) -> bool {
    forall|k: int| 0 <= k < heads.len() ==> head_justified(#[trigger] heads[k], entries)
}

/// Whether some head of the row accounts for the entry.
spec fn entry_covered(heads: Seq<HeadInfo>, e: RawEntry) -> bool {
    exists|k: int| 0 <= k < heads.len() && head_covers(#[trigger] heads[k], e)
}

/// Whether every entry is accounted for by a head in either of two rows.
#[verifier::opaque]
spec fn split_cover(a: Seq<HeadInfo>, b: Seq<HeadInfo>, entries: Seq<RawEntry>) -> bool {
    forall|i: int|
        0 <= i < entries.len() ==> entry_covered(a, #[trigger] entries[i]) || entry_covered(
            b,
            entries[i],
        )
}

/// Whether the heads account for every entry.
#[verifier::opaque]
spec fn heads_cover(heads: Seq<HeadInfo>, entries: Seq<RawEntry>) -> bool {
    forall|i: int| 0 <= i < entries.len() ==> entry_covered(heads, #[trigger] entries[i])
}

/// Whether the forest reaches a node along `segs`: a sibling named like
/// the first segment which, for a longer path, is a directory whose
/// children reach the rest; a one-segment directory entry demands a
/// directory node.
pub open spec fn forest_has(v: Seq<FileNode>, segs: Seq<Seq<char>>, is_dir: bool) -> bool
    decreases segs.len(),
{
    if segs.len() == 0 {
        true
    } else {
        exists|k: int|
            0 <= k < v.len() && ((#[trigger] v[k]).name@ == segs[0]) && (if segs.len() == 1 {
                is_dir ==> v[k].is_dir
            } else {
                v[k].is_dir && v[k].children is Some && forest_has(
                    v[k].children.unwrap()@,
                    segs.drop_first(),
                    is_dir,
                )
            })
    }
}

/// Whether the forest reaches a node for every entry.
spec fn forest_covers(v: Seq<FileNode>, entries: Seq<RawEntry>) -> bool {
    forall|i: int|
        #![trigger entries[i]]
        0 <= i < entries.len() ==> forest_has(
            v,
            entries[i].segs.deep_view(),
            entries[i].is_dir,
        )
}

/// Whether the entry continues below a head named `nm`.
spec fn sub_for(e: RawEntry, nm: Seq<char>) -> bool {
    e.segs@.len() > 1 && e.segs.deep_view()[0] == nm
}

/// Whether `sj` is the tail of `e`: the same segments minus the head.
spec fn sub_matches(sj: RawEntry, e: RawEntry) -> bool {
    sj.segs.deep_view() == e.segs.deep_view().drop_first() && sj.is_dir == e.is_dir
}

/// Whether `sub` holds a tail for every entry below `nm`, among the first
/// `upto` entries.
spec fn sub_covers(sub: Seq<RawEntry>, entries: Seq<RawEntry>, nm: Seq<char>, upto: int) -> bool {
    forall|i: int|
        #![trigger entries[i]]
        0 <= i < upto ==> (sub_for(entries[i], nm) ==> exists|j: int|
            0 <= j < sub.len() && sub_matches(#[trigger] sub[j], entries[i]))
}

/// Whether a directory node's children reach every entry that continues
/// below its name.
spec fn node_covers_tails(n: FileNode, entries: Seq<RawEntry>) -> bool {
    n.is_dir ==> n.children is Some && (forall|i: int|
        #![trigger entries[i]]
        0 <= i < entries.len() ==> (sub_for(entries[i], n.name@) ==> forest_has(
            n.children.unwrap()@,
            entries[i].segs.deep_view().drop_first(),
            entries[i].is_dir,
        )))
}

/// The greatest number of segments among the entries.
spec fn max_segs(es: Seq<RawEntry>) -> int
    decreases es.len(),
{
    if es.len() == 0 {
        0
    } else {
        let m = max_segs(es.drop_last());
        if es.last().segs@.len() > m {
            es.last().segs@.len() as int
        } else {
            m
        }
    }
}

proof fn lemma_max_segs_bounds(es: Seq<RawEntry>)
    ensures
        max_segs(es) >= 0,
        forall|i: int| 0 <= i < es.len() ==> (#[trigger] es[i]).segs@.len() <= max_segs(es),
    decreases es.len(),
{
    if es.len() > 0 {
        lemma_max_segs_bounds(es.drop_last());
        assert(forall|i: int| 0 <= i < es.len() - 1 ==> es[i] == es.drop_last()[i]);
    }
}

proof fn lemma_max_segs_le(es: Seq<RawEntry>, k: int)
    requires
        forall|i: int| 0 <= i < es.len() ==> (#[trigger] es[i]).segs@.len() <= k,
        k >= 0,
    ensures
        max_segs(es) <= k,
    decreases es.len(),
{
    if es.len() > 0 {
        assert(forall|i: int| 0 <= i < es.len() - 1 ==> es.drop_last()[i] == es[i]);
        lemma_max_segs_le(es.drop_last(), k);
    }
}

/// Collects the distinct first segments of the entries, with the kind
/// each head's node will have: a directory when some entry continues past
/// the head or names it as a directory.
fn collect_heads(entries: &Vec<RawEntry>) -> (heads: Vec<HeadInfo>)
    requires
        forall|i: int| 0 <= i < entries@.len() ==> (#[trigger] entries@[i]).segs@.len() >= 1,
    ensures
        heads_distinct(heads@),
        entries@.len() == 0 ==> heads@.len() == 0,
        heads_cover(heads@, entries@),
        heads_justified(heads@, entries@),
{
    let mut heads: Vec<HeadInfo> = Vec::new();
    if entries.len() == 0 {
        proof {
            reveal(heads_cover);
            reveal(heads_justified);
        }
        return heads;
    }
    let mut i: usize = 0;
    proof {
        reveal(heads_cover);
        reveal(heads_justified);
        assert(heads_cover(heads@, entries@.subrange(0, 0)));
        assert(heads_justified(heads@, entries@));
    }
    while i < entries.len()
        invariant
            forall|k: int|
                0 <= k < entries@.len() ==> (#[trigger] entries@[k]).segs@.len() >= 1,
            i <= entries@.len(),
            heads_distinct(heads@),
            heads_cover(heads@, entries@.subrange(0, i as int)),
            heads_justified(heads@, entries@),
        decreases entries@.len() - i,
    {
        let e = &entries[i];
        let this_dir = e.segs.len() > 1 || e.is_dir;
        let head = &e.segs[0];
        proof {
            assert(head@ == entry_head(entries@[i as int]));
            assert(this_dir == entry_dir(entries@[i as int]));
        }
        let mut found = false;
        let ghost mut wit: int = 0;
        let mut k: usize = 0;
        while k < heads.len() && !found
            invariant
                k <= heads@.len(),
                heads_distinct(heads@),
                !found ==> forall|j: int| 0 <= j < k ==> (#[trigger] heads@[j]).name@ != head@,
                found ==> 0 <= wit < heads@.len() && heads@[wit].name@ == head@,
            decreases heads@.len() - k,
        {
            if chars_eq(&heads[k].name, head) {
                proof {
                    wit = k as int;
                }
                found = true;
            }
            k += 1;
        }
        if found {
            if this_dir {
                let kw = heads_index_of(&heads, head);
                let old_name = heads[kw].name.clone();
                proof {
                    assert(old_name@ =~= heads@[kw as int].name@);
                }
                let ghost old_heads = heads@;
                heads.set(kw, HeadInfo { name: old_name, is_dir: true });
                proof {
                    assert(forall|j: int|
                        0 <= j < heads@.len() && j != kw ==> heads@[j]
                            == old_heads[j]);
                    assert(heads@[kw as int].name@ == old_heads[kw as int].name@);
                    assert(forall|j: int|
                        0 <= j < heads@.len() ==> (#[trigger] heads@[j]).name@
                            == old_heads[j].name@);
                    assert(heads_distinct(heads@));
                    reveal(heads_cover);
                    reveal(heads_justified);
                    assert forall|j: int| 0 <= j < heads@.len() implies head_justified(
                        #[trigger] heads@[j],
                        entries@,
                    ) by {
                        if j != kw {
                            assert(heads@[j] == old_heads[j]);
                        } else {
                            assert(heads@[j].name@ == entry_head(entries@[i as int]));
                            assert(entry_dir(entries@[i as int]));
                        }
                    }
                    // old witnesses survive: names are unchanged and the
                    // directory flag only ever rises
                    assert(forall|j: int|
                        0 <= j < heads@.len() ==> (old_heads[j].is_dir ==> (
                        #[trigger] heads@[j]).is_dir));
                    reveal(heads_cover);
                    let ghost pre_entries = entries@.subrange(0, i as int);
                    let ghost post_entries = entries@.subrange(0, i + 1 as int);
                    assert forall|i0: int| #![trigger post_entries[i0]]
                        0 <= i0 < post_entries.len() implies exists|k2: int|
                        0 <= k2 < heads@.len() && head_covers(
                            #[trigger] heads@[k2],
                            post_entries[i0],
                        ) by {
                        if i0 < i {
                            assert(pre_entries[i0] == entries@[i0]);
                            let k0 = choose|k0: int|
                                0 <= k0 < old_heads.len() && head_covers(
                                    #[trigger] old_heads[k0],
                                    pre_entries[i0],
                                );
                            assert(head_covers(heads@[k0], post_entries[i0]));
                        } else {
                            assert(post_entries[i0] == entries@[i as int]);
                            assert(head_covers(heads@[kw as int], post_entries[i0]));
                        }
                    }
                    assert(heads_cover(heads@, post_entries));
                }
            } else {
                proof {
                    reveal(heads_cover);
                    let pre_entries = entries@.subrange(0, i as int);
                    let post_entries = entries@.subrange(0, i + 1 as int);
                    assert(head_covers(heads@[wit], entries@[i as int]));
                    assert forall|i0: int| #![trigger post_entries[i0]]
                        0 <= i0 < post_entries.len() implies exists|k2: int|
                        0 <= k2 < heads@.len() && head_covers(
                            #[trigger] heads@[k2],
                            post_entries[i0],
                        ) by {
                        if i0 < i {
                            assert(pre_entries[i0] == entries@[i0]);
                            let k0 = choose|k0: int|
                                0 <= k0 < heads@.len() && head_covers(
                                    #[trigger] heads@[k0],
                                    pre_entries[i0],
                                );
                            assert(head_covers(heads@[k0], post_entries[i0]));
                        } else {
                            assert(post_entries[i0] == entries@[i as int]);
                            assert(head_covers(heads@[wit], post_entries[i0]));
                        }
                    }
                    assert(heads_cover(heads@, post_entries));
                }
            }
        } else {
            let mut name: Vec<char> = Vec::new();
            extend_chars(&mut name, head);
            proof {
                assert(name@ =~= head@);
            }
            let ghost old_heads = heads@;
            heads.push(HeadInfo { name, is_dir: this_dir });
            proof {
                reveal(heads_cover);
                reveal(heads_justified);
                assert(forall|j: int|
                    0 <= j < old_heads.len() ==> heads@[j] == old_heads[j]);
                assert(heads@[old_heads.len() as int].name@ == head@);
                assert(heads@[old_heads.len() as int].is_dir == this_dir);
                assert forall|j: int| 0 <= j < heads@.len() implies head_justified(
                    #[trigger] heads@[j],
                    entries@,
                ) by {
                    if j < old_heads.len() {
                        assert(heads@[j] == old_heads[j]);
                    } else {
                        assert(heads@[j].name@ == entry_head(entries@[i as int]));
                        if heads@[j].is_dir {
                            assert(entry_dir(entries@[i as int]));
                        }
                    }
                }
                assert forall|a: int, b: int|
                    0 <= a < b < heads@.len() implies (#[trigger] heads@[a]).name@ != (
                #[trigger] heads@[b]).name@ by {
                    if b < old_heads.len() {
                        assert(heads@[a] == old_heads[a]);
                        assert(heads@[b] == old_heads[b]);
                    } else {
                        assert(heads@[a] == old_heads[a]);
                        assert(heads@[b].name@ == head@);
                        assert(old_heads[a].name@ != head@);
                    }
                }
                reveal(heads_cover);
                let ghost pre_entries = entries@.subrange(0, i as int);
                let ghost post_entries = entries@.subrange(0, i + 1 as int);
                assert forall|i0: int| #![trigger post_entries[i0]]
                    0 <= i0 < post_entries.len() implies exists|k2: int|
                    0 <= k2 < heads@.len() && head_covers(
                        #[trigger] heads@[k2],
                        post_entries[i0],
                    ) by {
                    if i0 < i {
                        assert(pre_entries[i0] == entries@[i0]);
                        let k0 = choose|k0: int|
                            0 <= k0 < old_heads.len() && head_covers(
                                #[trigger] old_heads[k0],
                                pre_entries[i0],
                            );
                        assert(head_covers(heads@[k0], post_entries[i0]));
                    } else {
                        assert(post_entries[i0] == entries@[i as int]);
                        assert(head_covers(heads@[old_heads.len() as int], post_entries[i0]));
                    }
                }
                assert(heads_cover(heads@, post_entries));
            }
        }
        i += 1;
    }
    proof {
        assert(entries@.subrange(0, entries@.len() as int) =~= entries@);
    }
    heads
}

/// The position of the head named by `name`; the caller knows one exists.
fn heads_index_of(heads: &Vec<HeadInfo>, name: &Vec<char>) -> (r: usize)
    requires
        exists|j: int| 0 <= j < heads@.len() && (#[trigger] heads@[j]).name@ == name@,
    ensures
        r < heads@.len(),
        heads@[r as int].name@ == name@,
{
    let mut k: usize = 0;
    while k < heads.len()
        invariant
            k <= heads@.len(),
            exists|j: int| 0 <= j < heads@.len() && (#[trigger] heads@[j]).name@ == name@,
            forall|j: int| 0 <= j < k ==> (#[trigger] heads@[j]).name@ != name@,
        decreases heads@.len() - k,
    {
        if chars_eq(&heads[k].name, name) {
            return k;
        }
        k += 1;
    }
    proof {
        assert(false);
    }
    0
}

/// Sorts the heads into sibling order by repeatedly extracting the least
/// remaining head. Names stay pairwise distinct, so the order is strict;
/// what the heads say of the entries carries over.
fn sort_heads(heads: Vec<HeadInfo>, Ghost(entries): Ghost<Seq<RawEntry>>) -> (sorted: Vec<
    HeadInfo,
>)
    requires
        heads_distinct(heads@),
        heads_cover(heads@, entries),
        heads_justified(heads@, entries),
    ensures
        heads_distinct(sorted@),
        sorted@.len() == heads@.len(),
        forall|i: int, j: int|
            0 <= i < j < sorted@.len() ==> head_before(sorted@[i], sorted@[j]),
        heads_cover(sorted@, entries),
        heads_justified(sorted@, entries),
{
    let ghost n0 = heads@.len();
    let ghost input = heads@;
    let mut rest = heads;
    let mut sorted: Vec<HeadInfo> = Vec::new();
    proof {
        reveal(heads_cover);
        reveal(heads_justified);
        reveal(split_cover);
        assert forall|i: int| #![trigger entries[i]] 0 <= i < entries.len() implies (exists|
            k: int,
        | 0 <= k < sorted@.len() && head_covers(#[trigger] sorted@[k], entries[i])) || (exists|
            k: int,
        | 0 <= k < rest@.len() && head_covers(#[trigger] rest@[k], entries[i])) by {
            let k0 = choose|k0: int|
                0 <= k0 < input.len() && head_covers(#[trigger] input[k0], entries[i]);
            assert(head_covers(rest@[k0], entries[i]));
        }
        assert forall|j: int| 0 <= j < rest@.len() implies head_justified(
            #[trigger] rest@[j],
            entries,
        ) by {
            assert(rest@[j] == input[j]);
        }
    }
    while rest.len() > 0
        invariant
            sorted@.len() + rest@.len() == n0,
            split_cover(sorted@, rest@, entries),
            forall|j: int|
                0 <= j < sorted@.len() ==> head_justified(#[trigger] sorted@[j], entries),
            forall|j: int| 0 <= j < rest@.len() ==> head_justified(#[trigger] rest@[j], entries),
            heads_distinct(rest@),
            heads_distinct(sorted@),
            forall|i: int, j: int|
                0 <= i < j < sorted@.len() ==> head_before(#[trigger] sorted@[i], #[trigger] sorted@[j]),
            forall|i: int, j: int|
                0 <= i < sorted@.len() && 0 <= j < rest@.len() ==> head_before(
                    #[trigger] sorted@[i],
                    #[trigger] rest@[j],
                ) && sorted@[i].name@ != rest@[j].name@,
        decreases rest@.len(),
    {
        let mut m: usize = 0;
        let mut k: usize = 1;
        while k < rest.len()
            invariant
                heads_distinct(rest@),
                m < k <= rest@.len(),
                forall|j: int|
                    0 <= j < k && j != m ==> head_before(rest@[m as int], #[trigger] rest@[j]),
            decreases rest@.len() - k,
        {
            if head_before_exec(&rest[k], &rest[m]) {
                proof {
                    let old_m = m as int;
                    assert forall|j: int|
                        0 <= j < k + 1 && j != k implies head_before(
                        rest@[k as int],
                        #[trigger] rest@[j],
                    ) by {
                        if j != old_m {
                            lemma_head_before_trans(rest@[k as int], rest@[old_m], rest@[j]);
                        }
                    }
                }
                m = k;
            } else {
                proof {
                    lemma_chars_lt_total(rest@[m as int].name@, rest@[k as int].name@);
                    assert(head_before(rest@[m as int], rest@[k as int]));
                }
            }
            k += 1;
        }
        let ghost old_rest = rest@;
        let least = rest.swap_remove(m);
        proof {
            assert(least == old_rest[m as int]);
            let new_rest = rest@;
            assert(new_rest =~= old_rest.update(m as int, old_rest.last()).drop_last());
            assert forall|j: int| 0 <= j < new_rest.len() implies exists|j0: int|
                0 <= j0 < old_rest.len() && j0 != m && old_rest[j0] == #[trigger] new_rest[j] by {
                if j == m && m < new_rest.len() {
                    assert(old_rest[old_rest.len() - 1] == new_rest[j]);
                } else {
                    assert(old_rest[j] == new_rest[j]);
                }
            }
            lemma_chars_lt_total(least.name@, least.name@);
            assert forall|j: int| 0 <= j < new_rest.len() implies head_before(
                least,
                #[trigger] new_rest[j],
            ) && least.name@ != new_rest[j].name@ by {
                let j0 = choose|j0: int|
                    0 <= j0 < old_rest.len() && j0 != m && old_rest[j0] == new_rest[j];
                lemma_chars_lt_total(least.name@, old_rest[j0].name@);
            }
            assert forall|i: int, j: int|
                0 <= i < new_rest.len() && 0 <= j < new_rest.len() && i != j implies (
            #[trigger] new_rest[i]).name@ != (#[trigger] new_rest[j]).name@ by {
                let i0 = choose|i0: int|
                    0 <= i0 < old_rest.len() && i0 != m && old_rest[i0] == new_rest[i];
                let j0 = choose|j0: int|
                    0 <= j0 < old_rest.len() && j0 != m && old_rest[j0] == new_rest[j];
                if i0 != j0 {
                } else {
                    // two distinct positions of new_rest holding the same old element
                    // can only arise from position m and the last, which coincide
                    assert(new_rest[i] == new_rest[j]);
                    if i == m || j == m {
                        assert(old_rest[old_rest.len() - 1] == new_rest[m as int]);
                    }
                    assert(false);
                }
            }
        }
        let ghost old_sorted = sorted@;
        sorted.push(least);
        proof {
            reveal(heads_justified);
            reveal(split_cover);
            let new_rest = rest@;
            assert forall|j: int| 0 <= j < sorted@.len() implies head_justified(
                #[trigger] sorted@[j],
                entries,
            ) by {
                if j < old_sorted.len() {
                    assert(sorted@[j] == old_sorted[j]);
                } else {
                    assert(sorted@[j] == least);
                    assert(head_justified(old_rest[m as int], entries));
                }
            }
            assert forall|j: int| 0 <= j < new_rest.len() implies head_justified(
                #[trigger] new_rest[j],
                entries,
            ) by {
                let j0 = choose|j0: int|
                    0 <= j0 < old_rest.len() && j0 != m && old_rest[j0] == new_rest[j];
                assert(head_justified(old_rest[j0], entries));
            }
            assert forall|i: int|
                0 <= i < entries.len() implies entry_covered(sorted@, #[trigger] entries[i])
                || entry_covered(new_rest, entries[i]) by {
                if entry_covered(old_sorted, entries[i]) {
                    let k0 = choose|k0: int|
                        0 <= k0 < old_sorted.len() && head_covers(
                            #[trigger] old_sorted[k0],
                            entries[i],
                        );
                    assert(head_covers(sorted@[k0], entries[i]));
                } else {
                    assert(entry_covered(old_rest, entries[i]));
                    let k0 = choose|k0: int|
                        0 <= k0 < old_rest.len() && head_covers(
                            #[trigger] old_rest[k0],
                            entries[i],
                        );
                    if k0 == m {
                        assert(head_covers(sorted@[sorted@.len() - 1], entries[i]));
                    } else if k0 < old_rest.len() - 1 {
                        assert(new_rest[k0] == old_rest[k0]);
                        assert(head_covers(new_rest[k0], entries[i]));
                    } else {
                        assert((m as int) < old_rest.len() - 1);
                        assert(new_rest[m as int] == old_rest[k0]);
                        assert(head_covers(new_rest[m as int], entries[i]));
                    }
                }
            }
            assert(split_cover(sorted@, new_rest, entries));
        }
    }
    proof {
        reveal(heads_cover);
        reveal(heads_justified);
        reveal(split_cover);
        assert forall|i: int|
            0 <= i < entries.len() implies entry_covered(sorted@, #[trigger] entries[i]) by {
            if !entry_covered(sorted@, entries[i]) {
                assert(entry_covered(rest@, entries[i]));
                let k0 = choose|k0: int|
                    0 <= k0 < rest@.len() && head_covers(#[trigger] rest@[k0], entries[i]);
                assert(false);
            }
        }
        assert(heads_cover(sorted@, entries));
        assert(heads_justified(sorted@, entries));
    }
    sorted
}

/// What justification gives one sorted head: its name is some entry's
/// head, and a directory flag comes from an entry that demands one.
proof fn lemma_head_forward(sorted: Seq<HeadInfo>, entries: Seq<RawEntry>, h: int)
    requires
        heads_justified(sorted, entries),
        0 <= h < sorted.len(),
    ensures
        exists|i: int|
            0 <= i < entries.len() && entry_head(#[trigger] entries[i]) == sorted[h].name@,
        sorted[h].is_dir ==> exists|i: int|
            0 <= i < entries.len() && entry_head(#[trigger] entries[i]) == sorted[h].name@
                && entry_dir(entries[i]),
{
    reveal(heads_justified);
    assert(head_justified(sorted[h], entries));
}

/// What coverage gives a head that is no directory: no entry of its name
/// demands one.
proof fn lemma_head_backward(sorted: Seq<HeadInfo>, entries: Seq<RawEntry>, h: int)
    requires
        heads_cover(sorted, entries),
        heads_distinct(sorted),
        0 <= h < sorted.len(),
        !sorted[h].is_dir,
    ensures
        !(exists|i: int|
            0 <= i < entries.len() && entry_head(#[trigger] entries[i]) == sorted[h].name@
                && entry_dir(entries[i])),
{
    reveal(heads_cover);
    if exists|i: int|
        0 <= i < entries.len() && entry_head(#[trigger] entries[i]) == sorted[h].name@
            && entry_dir(entries[i]) {
        let i2 = choose|i2: int|
            0 <= i2 < entries.len() && entry_head(#[trigger] entries[i2]) == sorted[h].name@
                && entry_dir(entries[i2]);
        assert(entry_covered(sorted, entries[i2]));
        let kc = choose|kc: int|
            0 <= kc < sorted.len() && head_covers(#[trigger] sorted[kc], entries[i2]);
        assert(sorted[kc].is_dir);
        assert(sorted[kc].name@ == sorted[h].name@);
        if kc != h {
            assert(sorted[kc].name@ != sorted[h].name@);
        }
        assert(false);
    }
}

/// The head-level facts of one sorted head: its name is some entry's
/// head, and it is a directory exactly when some such entry demands one.
proof fn lemma_head_kind(sorted: Seq<HeadInfo>, entries: Seq<RawEntry>, h: int)
    requires
        heads_cover(sorted, entries),
        heads_justified(sorted, entries),
        heads_distinct(sorted),
        0 <= h < sorted.len(),
    ensures
        exists|i: int|
            0 <= i < entries.len() && entry_head(#[trigger] entries[i]) == sorted[h].name@,
        sorted[h].is_dir <==> exists|i: int|
            0 <= i < entries.len() && entry_head(#[trigger] entries[i]) == sorted[h].name@
                && entry_dir(entries[i]),
{
    lemma_head_forward(sorted, entries, h);
    if !sorted[h].is_dir {
        lemma_head_backward(sorted, entries, h);
    }
}

/// The same facts carried over to the entries' view rows./// The same facts carried over to the entries' view rows.
proof fn lemma_node_head_ok(n: FileNode, entries: Seq<RawEntry>)
    requires
        forall|i: int| 0 <= i < entries.len() ==> (#[trigger] entries[i]).segs@.len() >= 1,
        exists|i: int| 0 <= i < entries.len() && entry_head(#[trigger] entries[i]) == n.name@,
        n.is_dir <==> exists|i: int|
            0 <= i < entries.len() && entry_head(#[trigger] entries[i]) == n.name@
                && entry_dir(entries[i]),
    ensures
        exists|i: int|
            0 <= i < raw_views(entries).len() && (#[trigger] raw_views(entries)[i]).0.len()
                >= 1 && raw_views(entries)[i].0[0] == n.name@,
        n.is_dir <==> exists|i: int|
            0 <= i < raw_views(entries).len() && (#[trigger] raw_views(entries)[i]).0.len()
                >= 1 && raw_views(entries)[i].0[0] == n.name@ && (raw_views(entries)[i].0.len()
                > 1 || raw_views(entries)[i].1),
{
    let rv = raw_views(entries);
    let i0 = choose|i0: int|
        0 <= i0 < entries.len() && entry_head(#[trigger] entries[i0]) == n.name@;
    assert(rv[i0].0 =~= entries[i0].segs.deep_view());
    assert(rv[i0].0[0] =~= entry_head(entries[i0]));
    assert(rv[i0].0.len() >= 1 && rv[i0].0[0] == n.name@);
    if n.is_dir {
        let i1 = choose|i1: int|
            0 <= i1 < entries.len() && entry_head(#[trigger] entries[i1]) == n.name@
                && entry_dir(entries[i1]);
        assert(rv[i1].0 =~= entries[i1].segs.deep_view());
        assert(rv[i1].0[0] =~= entry_head(entries[i1]));
        assert(rv[i1].0.len() == entries[i1].segs@.len());
        assert(rv[i1].0.len() >= 1 && rv[i1].0[0] == n.name@ && (rv[i1].0.len() > 1
            || rv[i1].1));
    } else {
        if exists|i2: int|
            0 <= i2 < rv.len() && (#[trigger] rv[i2]).0.len() >= 1 && rv[i2].0[0] == n.name@
                && (rv[i2].0.len() > 1 || rv[i2].1) {
            let i2 = choose|i2: int|
                0 <= i2 < rv.len() && (#[trigger] rv[i2]).0.len() >= 1 && rv[i2].0[0]
                    == n.name@ && (rv[i2].0.len() > 1 || rv[i2].1);
            assert(rv[i2].0 =~= entries[i2].segs.deep_view());
            assert(rv[i2].0[0] =~= entry_head(entries[i2]));
            assert(rv[i2].0.len() == entries[i2].segs@.len());
            assert(rv[i2].1 == entries[i2].is_dir);
            assert(entry_dir(entries[i2]));
            assert(entry_head(entries[i2]) == n.name@);
            assert(false);
        }
    }
}

/// Builds the ordered forest for `entries` below a parent directory whose
/// path is `parent`.
fn build_forest(entries: &Vec<RawEntry>, parent: &String) -> (forest: Vec<FileNode>)
    requires
        forall|i: int| 0 <= i < entries@.len() ==> (#[trigger] entries@[i]).segs@.len() >= 1,
    ensures
        forest_ordered(forest@),
        forest_paths_ok(forest@, parent@),
        forest_covers(forest@, entries@),
        forest_bounded(forest@, raw_views(entries@)),
        forest_names_unique(forest@),
    decreases max_segs(entries@),
{
    proof {
        lemma_max_segs_bounds(entries@);
    }
    let heads = collect_heads(entries);
    let sorted = sort_heads(heads, Ghost(entries@));
    let mut forest: Vec<FileNode> = Vec::new();
    let mut h: usize = 0;
    while h < sorted.len()
        invariant
            forall|i: int|
                0 <= i < entries@.len() ==> (#[trigger] entries@[i]).segs@.len() >= 1,
            sorted@.len() > 0 ==> entries@.len() > 0,
            heads_cover(sorted@, entries@),
            heads_justified(sorted@, entries@),
            h <= sorted@.len(),
            forest@.len() == h,
            heads_distinct(sorted@),
            forall|i: int, j: int|
                0 <= i < j < sorted@.len() ==> head_before(sorted@[i], sorted@[j]),
            forall|i: int|
                0 <= i < h ==> (#[trigger] forest@[i]).name@ == sorted@[i].name@
                    && forest@[i].is_dir == sorted@[i].is_dir,
            forall|i: int| 0 <= i < h ==> tree_ordered(#[trigger] forest@[i]),
            forall|i: int| 0 <= i < h ==> tree_paths_ok(#[trigger] forest@[i], parent@),
            forall|i: int| 0 <= i < h ==> node_covers_tails(#[trigger] forest@[i], entries@),
            forall|i: int|
                0 <= i < h ==> node_ok(#[trigger] forest@[i], raw_views(entries@)),
            forall|i: int| 0 <= i < h ==> node_names_unique(#[trigger] forest@[i]),
        decreases sorted@.len() - h,
    {
        let head = &sorted[h];
        let name = chars_string(&head.name);
        let path = if parent.as_str().is_empty() {
            let p = name.clone();
            proof {
                assert(p@ == child_path(parent@, head.name@));
            }
            p
        } else {
            let mut p = parent.clone();
            p.append("/");
            p.append(name.as_str());
            proof {
                reveal_strlit("/");
                assert("/"@ =~= seq!['/']);
                assert(p@ == child_path(parent@, head.name@));
            }
            p
        };
        let node = if head.is_dir {
            // entries continuing below this head, with the head stripped
            let mut sub: Vec<RawEntry> = Vec::new();
            let mut i: usize = 0;
            proof {
                reveal(Seq::filter);
                assert(raw_views(entries@).subrange(0, 0) =~= Seq::<
                    (Seq<Seq<char>>, bool),
                >::empty());
                assert(raw_views(sub@) =~= tails_for(
                    raw_views(entries@).subrange(0, 0),
                    head.name@,
                ));
            }
            while i < entries.len()
                invariant
                    forall|k: int|
                        0 <= k < entries@.len() ==> (#[trigger] entries@[k]).segs@.len()
                            >= 1,
                    i <= entries@.len(),
                    forall|k: int|
                        0 <= k < sub@.len() ==> (#[trigger] sub@[k]).segs@.len() >= 1,
                    forall|k: int|
                        0 <= k < sub@.len() ==> (#[trigger] sub@[k]).segs@.len() <= max_segs(
                            entries@,
                        ) - 1,
                    sub_covers(sub@, entries@, head.name@, i as int),
                    raw_views(sub@) == tails_for(
                        raw_views(entries@).subrange(0, i as int),
                        head.name@,
                    ),
                decreases entries@.len() - i,
            {
                let e = &entries[i];
                let ghost old_sub = sub@;
                if e.segs.len() > 1 && chars_eq(&e.segs[0], &head.name) {
                    let mut tail: Vec<Vec<char>> = Vec::new();
                    let mut t: usize = 1;
                    while t < e.segs.len()
                        invariant
                            1 <= t <= e.segs@.len(),
                            tail@.len() == t - 1,
                            tail.deep_view() =~= e.segs.deep_view().subrange(1, t as int),
                        decreases e.segs@.len() - t,
                    {
                        let mut seg: Vec<char> = Vec::new();
                        extend_chars(&mut seg, &e.segs[t]);
                        let ghost old_deep = tail.deep_view();
                        proof {
                            assert(seg.deep_view() =~= seg@);
                            assert(seg@ =~= e.segs.deep_view()[t as int]);
                        }
                        tail.push(seg);
                        proof {
                            assert(tail.deep_view() =~= old_deep.push(
                                e.segs.deep_view()[t as int],
                            ));
                            assert(e.segs.deep_view().subrange(1, t + 1 as int)
                                =~= e.segs.deep_view().subrange(1, t as int).push(
                                e.segs.deep_view()[t as int],
                            ));
                        }
                        t += 1;
                    }
                    proof {
                        lemma_max_segs_bounds(entries@);
                        assert(entries@[i as int].segs@.len() <= max_segs(entries@));
                        assert(tail.deep_view() =~= e.segs.deep_view().drop_first());
                    }
                    sub.push(RawEntry { segs: tail, is_dir: e.is_dir });
                    proof {
                        reveal(Seq::filter);
                        let rv = raw_views(entries@);
                        let pre = rv.subrange(0, i as int);
                        let post = rv.subrange(0, i + 1 as int);
                        let tf = |x: (Seq<Seq<char>>, bool)| x.0.len() > 1 && x.0[0]
                            == head.name@;
                        let tm = |x: (Seq<Seq<char>>, bool)| (x.0.drop_first(), x.1);
                        assert(post.drop_last() =~= pre);
                        assert(post.last() == rv[i as int]);
                        assert(rv[i as int].0 =~= e.segs.deep_view());
                        assert(rv[i as int].0[0] =~= e.segs@[0]@);
                        assert(tf(post.last()));
                        assert(post.filter(tf) == pre.filter(tf).push(post.last()));
                        assert(raw_views(sub@) =~= raw_views(old_sub).push(
                            (e.segs.deep_view().drop_first(), e.is_dir),
                        ));
                        assert(pre.filter(tf).push(post.last()).map_values(tm) =~= pre.filter(
                            tf,
                        ).map_values(tm).push(tm(post.last())));
                        assert(tm(post.last()) == (e.segs.deep_view().drop_first(), e.is_dir));
                        assert(raw_views(sub@) =~= tails_for(post, head.name@));
                        assert(sub_matches(sub@[sub@.len() - 1], entries@[i as int]));
                        assert forall|i2: int| #![trigger entries@[i2]] 0 <= i2 < i + 1 implies (
                        sub_for(entries@[i2], head.name@) ==> exists|j: int|
                            0 <= j < sub@.len() && sub_matches(
                                #[trigger] sub@[j],
                                entries@[i2],
                            )) by {
                            if i2 < i && sub_for(entries@[i2], head.name@) {
                                let j0 = choose|j0: int|
                                    0 <= j0 < old_sub.len() && sub_matches(
                                        #[trigger] old_sub[j0],
                                        entries@[i2],
                                    );
                                assert(sub@[j0] == old_sub[j0]);
                                assert(sub_matches(sub@[j0], entries@[i2]));
                            }
                        }
                        assert(sub_covers(sub@, entries@, head.name@, i + 1));
                    }
                } else {
                    proof {
                        reveal(Seq::filter);
                        let rv = raw_views(entries@);
                        let pre = rv.subrange(0, i as int);
                        let post = rv.subrange(0, i + 1 as int);
                        let tf = |x: (Seq<Seq<char>>, bool)| x.0.len() > 1 && x.0[0]
                            == head.name@;
                        assert(post.drop_last() =~= pre);
                        assert(post.last() == rv[i as int]);
                        assert(rv[i as int].0 =~= e.segs.deep_view());
                        assert(e.segs.deep_view()[0] =~= e.segs@[0]@);
                        assert(rv[i as int].0.len() == e.segs@.len());
                        assert(!tf(post.last()));
                        assert(post.filter(tf) == pre.filter(tf));
                        assert(!sub_for(entries@[i as int], head.name@));
                        assert(sub_covers(sub@, entries@, head.name@, i + 1));
                        assert(raw_views(sub@) =~= tails_for(post, head.name@));
                    }
                }
                i += 1;
            }
            proof {
                lemma_max_segs_bounds(entries@);
                assert(entries@[0].segs@.len() >= 1);
                assert(max_segs(entries@) >= 1);
                lemma_max_segs_le(sub@, max_segs(entries@) - 1);
            }
            let children = build_forest(&sub, &path);
            let ghost children_view = children@;
            let dir_node = FileNode { name, path, is_dir: true, children: Option::Some(children) };
            proof {
                assert(dir_node.children.unwrap()@ == children_view);
                assert forall|i2: int| #![trigger entries@[i2]]
                    0 <= i2 < entries@.len() implies (sub_for(entries@[i2], dir_node.name@)
                    ==> forest_has(
                    children_view,
                    entries@[i2].segs.deep_view().drop_first(),
                    entries@[i2].is_dir,
                )) by {
                    if sub_for(entries@[i2], dir_node.name@) {
                        let j0 = choose|j0: int|
                            0 <= j0 < sub@.len() && sub_matches(
                                #[trigger] sub@[j0],
                                entries@[i2],
                            );
                        assert(forest_has(
                            children_view,
                            sub@[j0].segs.deep_view(),
                            sub@[j0].is_dir,
                        ));
                    }
                }
                assert(node_covers_tails(dir_node, entries@));
                // the node answers to the listed paths
                assert(raw_views(entries@).subrange(0, entries@.len() as int) =~= raw_views(
                    entries@,
                ));
                assert(raw_views(sub@) == tails_for(raw_views(entries@), dir_node.name@));
                lemma_head_kind(sorted@, entries@, h as int);
                lemma_node_head_ok(dir_node, entries@);
                assert(forest_bounded(children_view, raw_views(sub@)));
                assert forall|k2: int|
                    0 <= k2 < children_view.len() implies node_ok(
                    #[trigger] children_view[k2],
                    tails_for(raw_views(entries@), dir_node.name@),
                ) by {
                    assert(node_ok(children_view[k2], raw_views(sub@)));
                }
                assert(node_ok(dir_node, raw_views(entries@)));
                assert(forest_names_unique(children_view));
                assert(node_names_unique(dir_node));
            }
            dir_node
        } else {
            let file_node = FileNode { name, path, is_dir: false, children: Option::None };
            proof {
                assert(node_covers_tails(file_node, entries@));
                lemma_head_kind(sorted@, entries@, h as int);
                lemma_node_head_ok(file_node, entries@);
                assert(node_ok(file_node, raw_views(entries@)));
                assert(node_names_unique(file_node));
            }
            file_node
        };
        let ghost old_forest = forest@;
        proof {
            assert(tree_ordered(node));
            assert(tree_paths_ok(node, parent@));
            assert(node_covers_tails(node, entries@));
            assert(node_ok(node, raw_views(entries@)));
            assert(node_names_unique(node));
        }
        forest.push(node);
        proof {
            assert(forall|i: int| 0 <= i < old_forest.len() ==> forest@[i] == old_forest[i]);
            assert(forest@[h as int] == node);
            assert forall|i: int, j: int|
                0 <= i < j < forest@.len() implies sibling_before(forest@[i], forest@[j]) by {
                assert(head_before(sorted@[i], sorted@[j]));
            }
        }
        h += 1;
    }
    proof {
        assert forall|i: int, j: int|
            0 <= i < j < forest@.len() implies sibling_before(forest@[i], forest@[j]) by {
            assert(head_before(sorted@[i], sorted@[j]));
        }
        assert forall|i: int| #![trigger entries@[i]] 0 <= i < entries@.len() implies forest_has(
            forest@,
            entries@[i].segs.deep_view(),
            entries@[i].is_dir,
        ) by {
            reveal(heads_cover);
            let e = entries@[i];
            let sv = e.segs.deep_view();
            assert(sv.len() == e.segs@.len());
            assert(entry_covered(sorted@, e));
            let k = choose|k: int|
                0 <= k < sorted@.len() && head_covers(#[trigger] sorted@[k], e);
            assert(forest@[k].name@ == sorted@[k].name@);
            assert(sv[0] =~= entry_head(e));
            assert(forest@[k].name@ == sv[0]);
            if sv.len() == 1 {
                if e.is_dir {
                    assert(entry_dir(e));
                    assert(sorted@[k].is_dir);
                    assert(forest@[k].is_dir);
                }
                assert(0 <= k < forest@.len() && forest@[k].name@ == sv[0] && (e.is_dir
                    ==> forest@[k].is_dir));
            } else {
                assert(entry_dir(e));
                assert(sorted@[k].is_dir);
                assert(forest@[k].is_dir);
                assert(sub_for(e, forest@[k].name@));
                assert(node_covers_tails(forest@[k], entries@));
                assert(forest_has(
                    forest@[k].children.unwrap()@,
                    sv.drop_first(),
                    e.is_dir,
                ));
            }
        }
        assert(forest_covers(forest@, entries@));
        assert(forest_bounded(forest@, raw_views(entries@)));
        assert forall|i: int, j: int|
            0 <= i < j < forest@.len() implies (#[trigger] forest@[i]).name@ != (
        #[trigger] forest@[j]).name@ by {
            assert(forest@[i].name@ == sorted@[i].name@);
            assert(forest@[j].name@ == sorted@[j].name@);
        }
        assert(forest_names_unique(forest@));
    }
    forest
}

/// Whether a listed path is usable as tree input: splitting it on `/`
/// yields no empty segment.
pub open spec fn valid_rel_path(p: Seq<char>) -> bool {
    forall|j: int|
        0 <= j < split_on(p, seq!['/']).len() ==> (#[trigger] split_on(p, seq!['/'])[j]).len()
            > 0
}

/// The segment rows of the usable listed paths, in listing order.
pub open spec fn listing_views(entries: Seq<(String, bool)>) -> Seq<(Seq<Seq<char>>, bool)> {
    entries.filter(|e: (String, bool)| valid_rel_path(e.0@)).map_values(
        |e: (String, bool)| (split_on(e.0@, seq!['/']), e.1),
    )
}

/// Whether the tree reaches every usable listed path.
pub open spec fn tree_covers(v: Seq<FileNode>, entries: Seq<(String, bool)>) -> bool {
    forall|i: int|
        #![trigger entries[i]]
        0 <= i < entries.len() ==> (valid_rel_path(entries[i].0@) ==> forest_has(
            v,
            split_on(entries[i].0@, seq!['/']),
            entries[i].1,
        ))
}

/// Whether a raw entry carries exactly the segments of a listed path.
spec fn raw_matches(rj: RawEntry, e: (String, bool)) -> bool {
    rj.segs.deep_view() == split_on(e.0@, seq!['/']) && rj.is_dir == e.1
}

/// Whether the raw entries carry every usable path among the first `upto`.
spec fn raw_covers(raw: Seq<RawEntry>, entries: Seq<(String, bool)>, upto: int) -> bool {
    forall|i: int|
        #![trigger entries[i]]
        0 <= i < upto ==> (valid_rel_path(entries[i].0@) ==> exists|j: int|
            0 <= j < raw.len() && raw_matches(#[trigger] raw[j], entries[i]))
}

/// Builds the ordered file tree from a flat list of relative paths with
/// their directory flags. Paths are split on `/`; a path with an empty
/// segment is ignored. In every sibling list of the result, directories
/// precede files and each group is alphabetical by name; every node's
/// path extends its parent's; and every usable path is reachable in the
/// tree, through directory nodes, at a node of its own name.
pub fn build_tree(entries: &Vec<(String, bool)>) -> (forest: Vec<FileNode>)
    ensures
        forest_ordered(forest@),
        forest_paths_ok(forest@, Seq::<char>::empty()),
        tree_covers(forest@, entries@),
        forest_bounded(forest@, listing_views(entries@)),
        forest_names_unique(forest@),
{
    let mut raw: Vec<RawEntry> = Vec::new();
    let mut i: usize = 0;
    let mut seps: Vec<char> = Vec::new();
    seps.push('/');
    proof {
        assert(seps@ =~= seq!['/']);
        reveal(Seq::filter);
        assert(entries@.subrange(0, 0) =~= Seq::<(String, bool)>::empty());
        assert(raw_views(raw@) =~= listing_views(entries@.subrange(0, 0)));
    }
    while i < entries.len()
        invariant
            seps@ == seq!['/'],
            i <= entries@.len(),
            forall|k: int| 0 <= k < raw@.len() ==> (#[trigger] raw@[k]).segs@.len() >= 1,
            raw_covers(raw@, entries@, i as int),
            raw_views(raw@) == listing_views(entries@.subrange(0, i as int)),
        decreases entries@.len() - i,
    {
        let chars = str_chars(entries[i].0.as_str());
        let segs = split_on_exec(&chars, &seps);
        let ghost sv = split_on(entries@[i as int].0@, seq!['/']);
        proof {
            assert(segs.deep_view() == sv);
            crate::text::lemma_split_on_nonempty(entries@[i as int].0@, seq!['/']);
        }
        let mut ok = true;
        let mut k: usize = 0;
        while k < segs.len()
            invariant
                segs.deep_view() == sv,
                segs.deep_view().len() == segs@.len(),
                k <= segs@.len(),
                ok ==> forall|j: int| 0 <= j < k ==> (#[trigger] sv[j]).len() > 0,
                !ok ==> exists|j: int| 0 <= j < sv.len() && (#[trigger] sv[j]).len() == 0,
            decreases segs@.len() - k,
        {
            proof {
                assert(sv[k as int] =~= segs@[k as int]@);
            }
            if segs[k].len() == 0 {
                ok = false;
            }
            k += 1;
        }
        let ghost old_raw = raw@;
        if ok && segs.len() > 0 {
            proof {
                assert(forall|j: int| 0 <= j < sv.len() ==> (#[trigger] sv[j]).len() > 0);
                assert(valid_rel_path(entries@[i as int].0@));
                assert(sv[0].len() > 0);
                assert(segs@[0]@.len() > 0);
                assert(segs@[0]@.len() == segs@[0].len());
            }
            let ghost old_raw = raw@;
            raw.push(RawEntry { segs, is_dir: entries[i].1 });
            proof {
                reveal(Seq::filter);
                let lpre = entries@.subrange(0, i as int);
                let lpost = entries@.subrange(0, i + 1 as int);
                let lf = |e: (String, bool)| valid_rel_path(e.0@);
                let lm = |e: (String, bool)| (split_on(e.0@, seq!['/']), e.1);
                assert(lpost.drop_last() =~= lpre);
                assert(lpost.last() == entries@[i as int]);
                assert(lf(lpost.last()));
                assert(lpost.filter(lf) == lpre.filter(lf).push(lpost.last()));
                assert(raw_views(raw@) =~= raw_views(old_raw).push((sv, entries@[i as int].1)));
                assert(lpre.filter(lf).push(lpost.last()).map_values(lm) =~= lpre.filter(
                    lf,
                ).map_values(lm).push(lm(lpost.last())));
                assert(lm(lpost.last()) == (sv, entries@[i as int].1));
                assert(raw_views(raw@) =~= listing_views(lpost));
                assert(raw@[raw@.len() - 1].segs.deep_view() == sv);
                assert(raw_matches(raw@[raw@.len() - 1], entries@[i as int]));
                assert(raw@[raw@.len() - 1].segs@.len() == sv.len());
                assert(raw@[raw@.len() - 1].segs@[0]@.len() > 0);
                assert forall|i2: int| #![trigger entries@[i2]] 0 <= i2 < i + 1 implies (
                valid_rel_path(entries@[i2].0@) ==> exists|j: int|
                    0 <= j < raw@.len() && raw_matches(#[trigger] raw@[j], entries@[i2])) by {
                    if i2 < i && valid_rel_path(entries@[i2].0@) {
                        let j0 = choose|j0: int|
                            0 <= j0 < old_raw.len() && raw_matches(
                                #[trigger] old_raw[j0],
                                entries@[i2],
                            );
                        assert(raw@[j0] == old_raw[j0]);
                    }
                }
                assert(raw_covers(raw@, entries@, i + 1));
            }
        } else {
            proof {
                reveal(Seq::filter);
                let lpre = entries@.subrange(0, i as int);
                let lpost = entries@.subrange(0, i + 1 as int);
                let lf = |e: (String, bool)| valid_rel_path(e.0@);
                assert(lpost.drop_last() =~= lpre);
                assert(lpost.last() == entries@[i as int]);
                assert(!ok);
                assert(!valid_rel_path(entries@[i as int].0@));
                assert(!lf(lpost.last()));
                assert(lpost.filter(lf) == lpre.filter(lf));
                assert(raw_views(raw@) =~= listing_views(lpost));
                assert(raw_covers(raw@, entries@, i + 1));
            }
        }
        i += 1;
    }
    let empty = String::new();
    let forest = build_forest(&raw, &empty);
    proof {
        assert forall|i2: int| #![trigger entries@[i2]] 0 <= i2 < entries@.len() implies (
        valid_rel_path(entries@[i2].0@) ==> forest_has(
            forest@,
            split_on(entries@[i2].0@, seq!['/']),
            entries@[i2].1,
        )) by {
            if valid_rel_path(entries@[i2].0@) {
                let j0 = choose|j0: int|
                    0 <= j0 < raw@.len() && raw_matches(#[trigger] raw@[j0], entries@[i2]);
                assert(forest_has(
                    forest@,
                    raw@[j0].segs.deep_view(),
                    raw@[j0].is_dir,
                ));
            }
        }
        assert(tree_covers(forest@, entries@));
        assert(entries@.subrange(0, entries@.len() as int) =~= entries@);
        assert(raw_views(raw@) == listing_views(entries@));
        assert(forest_bounded(forest@, listing_views(entries@)));
    }
    forest
}

/// The pre-order flattening of one node: the node's path and kind, then
/// its children's flattening.
pub open spec fn flatten_node(n: FileNode) -> Seq<(Seq<char>, bool)>
    decreases n, 0int,
{
    seq![(n.path@, n.is_dir)] + match n.children {
        Option::None => Seq::<(Seq<char>, bool)>::empty(),
        Option::Some(cs) => flatten_from(cs@, 0),
    }
}

/// The pre-order flattening of a forest, from index `i` on.
pub open spec fn flatten_from(v: Seq<FileNode>, i: int) -> Seq<(Seq<char>, bool)>
    decreases v, v.len() - i,
{
    if i < 0 || i >= v.len() {
        Seq::<(Seq<char>, bool)>::empty()
    } else {
        flatten_node(v[i]) + flatten_from(v, i + 1)
    }
}

/// The pre-order flattening of a forest.
pub open spec fn flatten_spec(v: Seq<FileNode>) -> Seq<(Seq<char>, bool)> {
    flatten_from(v, 0)
}

/// The view rows of a list of `(path, is_dir)` pairs.
pub open spec fn rows(s: Seq<(String, bool)>) -> Seq<(Seq<char>, bool)> {
    s.map_values(|e: (String, bool)| (e.0@, e.1))
}

fn flatten_node_exec(n: &FileNode, out: &mut Vec<(String, bool)>)
    ensures
        final(out)@.len() == old(out)@.len() + flatten_node(*n).len(),
        rows(final(out)@) == rows(old(out)@) + flatten_node(*n),
    decreases flatten_node(*n).len(),
{
        let ghost before = out@;
    out.push((n.path.clone(), n.is_dir));
    proof {
        assert(rows(out@) =~= rows(before).push((n.path@, n.is_dir)));
        assert(rows(before).push((n.path@, n.is_dir)) =~= rows(before) + seq![
            (n.path@, n.is_dir),
        ]);
    }
    match &n.children {
        Option::None => {
            proof {
                assert(flatten_node(*n) =~= seq![(n.path@, n.is_dir)]);
            }
        },
        Option::Some(cs) => {
            let mut i: usize = 0;
            proof {
                assert(flatten_from(cs@, 0).subrange(
                    0,
                    flatten_from(cs@, 0).len() - flatten_from(cs@, 0).len(),
                ) =~= Seq::<(Seq<char>, bool)>::empty());
                assert(Seq::<(Seq<char>, bool)>::empty() + flatten_from(cs@, 0) =~= flatten_from(
                    cs@,
                    0,
                ));
                assert(rows(out@) =~= rows(before) + seq![(n.path@, n.is_dir)]
                    + Seq::<(Seq<char>, bool)>::empty());
            }
            while i < cs.len()
                invariant
                    n.children == Option::Some(*cs),
                    i <= cs@.len(),
                    rows(out@) == rows(before) + seq![(n.path@, n.is_dir)]
                        + (flatten_from(cs@, 0).subrange(
                        0,
                        flatten_from(cs@, 0).len() - flatten_from(cs@, i as int).len(),
                    )),
                    flatten_from(cs@, i as int).len() <= flatten_from(cs@, 0).len(),
                    flatten_prefix_ok(cs@, i as int),
                decreases cs@.len() - i,
            {
                let ghost mid = out@;
                proof {
                    lemma_flatten_from_step(cs@, i as int);
                    assert(flatten_node(*n) == seq![(n.path@, n.is_dir)] + flatten_from(cs@, 0));
                    assert(flatten_node(cs@[i as int]).len() <= flatten_from(
                        cs@,
                        i as int,
                    ).len());
                    assert(flatten_node(cs@[i as int]).len() < flatten_node(*n).len());
                }
                flatten_node_exec(&cs[i], out);
                proof {
                    let whole = flatten_from(cs@, 0);
                    let sub_i = whole.subrange(
                        0,
                        whole.len() - flatten_from(cs@, i as int).len(),
                    );
                    let sub_i1 = whole.subrange(
                        0,
                        whole.len() - flatten_from(cs@, i + 1).len(),
                    );
                    assert(rows(out@) == rows(mid) + flatten_node(
                        cs@[i as int],
                    ));
                    assert(rows(mid) == rows(before) + seq![(n.path@, n.is_dir)]
                        + sub_i);
                    assert(sub_i1 == sub_i + flatten_node(cs@[i as int]));
                    assert(rows(out@) =~= rows(before) + seq![
                        (n.path@, n.is_dir),
                    ] + sub_i1);
                }
                i += 1;
            }
            proof {
                assert(flatten_from(cs@, cs@.len() as int).len() == 0);
                assert(flatten_from(cs@, 0).subrange(0, flatten_from(cs@, 0).len() as int)
                    =~= flatten_from(cs@, 0));
                assert(flatten_node(*n) =~= seq![(n.path@, n.is_dir)] + flatten_from(cs@, 0));
            }
        },
    }
}

/// Helper: the flattening of indices `0..i` is a prefix of the whole.
pub open spec fn flatten_prefix_ok(v: Seq<FileNode>, i: int) -> bool {
    flatten_from(v, 0).subrange(0, flatten_from(v, 0).len() - flatten_from(v, i).len())
        + flatten_from(v, i) == flatten_from(v, 0)
}

proof fn lemma_flatten_from_step(v: Seq<FileNode>, i: int)
    requires
        0 <= i < v.len(),
        flatten_prefix_ok(v, i),
    ensures
        flatten_prefix_ok(v, i + 1),
        flatten_from(v, i) == flatten_node(v[i]) + flatten_from(v, i + 1),
        flatten_from(v, i + 1).len() <= flatten_from(v, i).len(),
        flatten_from(v, 0).subrange(
            0,
            flatten_from(v, 0).len() - flatten_from(v, i + 1).len(),
        ) =~= flatten_from(v, 0).subrange(
            0,
            flatten_from(v, 0).len() - flatten_from(v, i).len(),
        ) + flatten_node(v[i]),
{
    let whole = flatten_from(v, 0);
    let atI = flatten_from(v, i);
    let atI1 = flatten_from(v, i + 1);
    assert(atI == flatten_node(v[i]) + atI1);
    let cut = whole.len() - atI.len();
    let cut1 = whole.len() - atI1.len();
    assert(whole.subrange(0, cut) + atI == whole);
    assert forall|k: int| 0 <= k < whole.len() implies whole[k] == if k < cut {
        whole.subrange(0, cut)[k]
    } else {
        atI[k - cut]
    } by {}
    assert(whole.subrange(0, cut1) =~= whole.subrange(0, cut) + flatten_node(v[i]));
    assert(whole.subrange(0, cut1) + atI1 =~= whole);
}

/// Flattens a forest to its pre-order list of `(path, is_dir)` rows.
pub fn flatten(nodes: &Vec<FileNode>) -> (r: Vec<(String, bool)>)
    ensures
        rows(r@) == flatten_spec(nodes@),
{
        let mut out: Vec<(String, bool)> = Vec::new();
    let mut i: usize = 0;
    proof {
        assert(rows(out@) =~= Seq::<(Seq<char>, bool)>::empty());
        assert(flatten_from(nodes@, 0).subrange(
            0,
            flatten_from(nodes@, 0).len() - flatten_from(nodes@, 0).len(),
        ) =~= Seq::<(Seq<char>, bool)>::empty());
        assert(Seq::<(Seq<char>, bool)>::empty() + flatten_from(nodes@, 0) =~= flatten_from(
            nodes@,
            0,
        ));
    }
    while i < nodes.len()
        invariant
            i <= nodes@.len(),
            rows(out@) == flatten_from(
                nodes@,
                0,
            ).subrange(
                0,
                flatten_from(nodes@, 0).len() - flatten_from(nodes@, i as int).len(),
            ),
            flatten_from(nodes@, i as int).len() <= flatten_from(nodes@, 0).len(),
            flatten_prefix_ok(nodes@, i as int),
        decreases nodes@.len() - i,
    {
        flatten_node_exec(&nodes[i], &mut out);
        proof {
            lemma_flatten_from_step(nodes@, i as int);
        }
        i += 1;
    }
    proof {
        assert(flatten_from(nodes@, nodes@.len() as int).len() == 0);
        assert(flatten_from(nodes@, 0).subrange(0, flatten_from(nodes@, 0).len() as int)
            =~= flatten_from(nodes@, 0));
    }
    out
}

} // verus!
