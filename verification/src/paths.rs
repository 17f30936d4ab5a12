//! Path handling for archive entries: entry names are attacker-controlled,
//! so they are split on both separator styles, cleaned of empty, `.` and
//! `..` segments, and rejoined with `/`. The proofs here show that a
//! sanitized name can only denote a location inside the destination.

use vstd::prelude::*;
use crate::text::join_on;
use crate::text::join_on_exec;
use crate::text::split_on;
use crate::text::split_on_exec;

verus! {

/// The characters treated as path separators in archive entry names.
pub open spec fn path_seps() -> Seq<char> {
    seq!['/', '\\']
}

pub fn path_seps_exec() -> (r: Vec<char>)
    ensures
        r@ == path_seps(),
{
    let mut v: Vec<char> = Vec::new();
    v.push('/');
    v.push('\\');
    assert(v@ =~= path_seps());
    v
}

/// A segment that sanitization keeps: non-empty and neither `.` nor `..`.
pub open spec fn keep_segment(seg: Seq<char>) -> bool {
    seg.len() > 0 && seg != seq!['.'] && seg != seq!['.', '.']
}

pub fn keep_segment_exec(seg: &Vec<char>) -> (r: bool)
    ensures
        r == keep_segment(seg@),
{
    if seg.len() == 0 {
        return false;
    }
    if seg.len() == 1 && seg[0] == '.' {
        assert(seg@ =~= seq!['.']);
        return false;
    }
    if seg.len() == 2 && seg[0] == '.' && seg[1] == '.' {
        assert(seg@ =~= seq!['.', '.']);
        return false;
    }
    proof {
        if seg@.len() == 1 {
            assert(seg@[0] != '.');
            assert(seg@ != seq!['.']);
        }
        if seg@.len() == 2 {
            assert(seg@ != seq!['.', '.']);
        }
    }
    true
}

/// The sanitized form of an archive entry name: split on both separators,
/// drop empty, `.` and `..` segments, and join the rest with `/`. An empty
/// result means the entry has no usable name and is dropped.
pub open spec fn sanitize_spec(name: Seq<char>) -> Seq<char> {
    join_on(split_on(name, path_seps()).filter(|seg: Seq<char>| keep_segment(seg)), '/')
}

/// A path that stays inside a destination directory: non-empty, and every
/// segment (under either separator style) a real name, so no absolute
/// prefix and no `..` climbing.
pub open spec fn path_is_safe(p: Seq<char>) -> bool {
    &&& p.len() > 0
    &&& {
        let segs = split_on(p, path_seps());
        forall|i: int| 0 <= i < segs.len() ==> keep_segment(#[trigger] segs[i])
    }
}

/// Sanitizes one archive entry name.
pub fn sanitize_entry_name(name: &Vec<char>) -> (r: Vec<char>)
    ensures
        r@ == sanitize_spec(name@),
{
    let seps = path_seps_exec();
    let pieces = split_on_exec(name, &seps);
    let ghost pred = |seg: Seq<char>| keep_segment(seg);
    let mut kept: Vec<Vec<char>> = Vec::new();
    let mut i: usize = 0;
    proof {
        assert(pieces.deep_view().subrange(0, 0) =~= Seq::<Seq<char>>::empty());
        reveal(Seq::filter);
    }
    while i < pieces.len()
        invariant
            i <= pieces@.len(),
            pieces.deep_view().len() == pieces@.len(),
            kept.deep_view() == pieces.deep_view().subrange(0, i as int).filter(
                |seg: Seq<char>| keep_segment(seg),
            ),
        decreases pieces@.len() - i,
    {
        let ghost prefix = pieces.deep_view().subrange(0, i as int);
        let ghost prefix2 = pieces.deep_view().subrange(0, i + 1 as int);
        proof {
            assert(prefix2.drop_last() =~= prefix);
            assert(prefix2.last() == pieces.deep_view()[i as int]);
            assert(pieces.deep_view()[i as int] =~= pieces@[i as int]@);
            reveal(Seq::filter);
        }
        if keep_segment_exec(&pieces[i]) {
            let ghost old_deep = kept.deep_view();
            let piece = pieces[i].clone();
            proof {
                assert(piece@ =~= pieces@[i as int]@);
                assert(piece.deep_view() =~= piece@);
            }
            kept.push(piece);
            proof {
                assert(kept.deep_view() =~= old_deep.push(pieces.deep_view()[i as int]));
                assert(prefix2.filter(|seg: Seq<char>| keep_segment(seg)) == prefix.filter(
                    |seg: Seq<char>| keep_segment(seg),
                ).push(prefix2.last()));
            }
        } else {
            proof {
                assert(prefix2.filter(|seg: Seq<char>| keep_segment(seg)) == prefix.filter(
                    |seg: Seq<char>| keep_segment(seg),
                ));
            }
        }
        i += 1;
    }
    proof {
        assert(pieces.deep_view().subrange(0, pieces@.len() as int) =~= pieces.deep_view());
    }
    join_on_exec(&kept, '/')
}

/// Every piece that splitting yields is free of separator characters.
proof fn lemma_split_pieces_sep_free(s: Seq<char>, seps: Seq<char>)
    ensures
        forall|i: int, k: int|
            0 <= i < split_on(s, seps).len() && 0 <= k < split_on(s, seps)[i].len()
                ==> !seps.contains(#[trigger] split_on(s, seps)[i][k]),
    decreases s.len(),
{
    if s.len() > 0 {
        lemma_split_pieces_sep_free(s.drop_last(), seps);
        crate::text::lemma_split_on_nonempty(s.drop_last(), seps);
        let rest = split_on(s.drop_last(), seps);
        if seps.contains(s.last()) {
            assert(split_on(s, seps) == rest.push(Seq::<char>::empty()));
        } else {
            assert(split_on(s, seps) == rest.update(
                rest.len() - 1,
                rest.last().push(s.last()),
            ));
        }
    }
}

/// Splitting a string with no separator characters yields that one piece.
proof fn lemma_split_sep_free(s: Seq<char>, seps: Seq<char>)
    requires
        forall|k: int| 0 <= k < s.len() ==> !seps.contains(#[trigger] s[k]),
    ensures
        split_on(s, seps) == seq![s],
    decreases s.len(),
{
    if s.len() == 0 {
        assert(s =~= Seq::<char>::empty());
        assert(split_on(s, seps) =~~= seq![s]);
    } else {
        lemma_split_sep_free(s.drop_last(), seps);
        assert(!seps.contains(s.last()));
        let rest = split_on(s.drop_last(), seps);
        assert(rest == seq![s.drop_last()]);
        assert(rest.len() == 1);
        assert(rest.last() == s.drop_last());
        assert(split_on(s, seps) == rest.update(0, rest.last().push(s.last())));
        assert(s.drop_last().push(s.last()) =~= s);
        assert(rest.update(0, s) =~= seq![s]);
    }
}

/// Appending separator-free characters extends the final piece.
proof fn lemma_split_append_piece(x: Seq<char>, y: Seq<char>, seps: Seq<char>)
    requires
        forall|k: int| 0 <= k < y.len() ==> !seps.contains(#[trigger] y[k]),
    ensures
        split_on(x + y, seps) == split_on(x, seps).update(
            split_on(x, seps).len() - 1,
            split_on(x, seps).last() + y,
        ),
    decreases y.len(),
{
    crate::text::lemma_split_on_nonempty(x, seps);
    let sx = split_on(x, seps);
    if y.len() == 0 {
        assert(x + y =~= x);
        assert(sx.last() + y =~= sx.last());
        assert(sx.update(sx.len() - 1, sx.last() + y) =~= sx);
    } else {
        lemma_split_append_piece(x, y.drop_last(), seps);
        let mid = split_on(x + y.drop_last(), seps);
        assert((x + y).drop_last() =~= x + y.drop_last());
        assert((x + y).last() == y.last());
        assert(!seps.contains(y.last()));
        assert(split_on(x + y, seps) == mid.update(mid.len() - 1, mid.last().push(y.last())));
        assert(mid.last() == sx.last() + y.drop_last());
        assert((sx.last() + y.drop_last()).push(y.last()) =~= sx.last() + y);
        assert(mid.update(mid.len() - 1, mid.last().push(y.last())) =~= sx.update(
            sx.len() - 1,
            sx.last() + y,
        ));
    }
}

/// Splitting inverts joining, for separator-free pieces.
proof fn lemma_split_join(segs: Seq<Seq<char>>, seps: Seq<char>)
    requires
        segs.len() >= 1,
        seps.contains('/'),
        forall|i: int, k: int|
            0 <= i < segs.len() && 0 <= k < segs[i].len() ==> !seps.contains(
                #[trigger] segs[i][k],
            ),
    ensures
        split_on(join_on(segs, '/'), seps) == segs,
    decreases segs.len(),
{
    if segs.len() == 1 {
        assert(join_on(segs, '/') == segs[0]);
        lemma_split_sep_free(segs[0], seps);
        assert(seq![segs[0]] =~= segs);
    } else {
        let front = segs.drop_last();
        lemma_split_join(front, seps);
        let j = join_on(front, '/');
        assert(join_on(segs, '/') == j + seq!['/'] + segs.last());
        let js = j + seq!['/'];
        assert(js.drop_last() =~= j);
        assert(js.last() == '/');
        assert(split_on(js, seps) == split_on(j, seps).push(Seq::<char>::empty()));
        assert(split_on(js, seps) == front.push(Seq::<char>::empty()));
        assert(j + seq!['/'] + segs.last() =~= js + segs.last());
        lemma_split_append_piece(js, segs.last(), seps);
        let sjs = split_on(js, seps);
        assert(split_on(js + segs.last(), seps) == sjs.update(
            sjs.len() - 1,
            sjs.last() + segs.last(),
        ));
        assert(Seq::<char>::empty() + segs.last() =~= segs.last());
        assert(front.push(Seq::<char>::empty()).update(front.len() as int, segs.last())
            =~= segs);
    }
}

/// Every element that `filter` keeps satisfies any property that all the
/// original elements satisfy.
proof fn lemma_filter_elements(s: Seq<Seq<char>>, pred: spec_fn(Seq<char>) -> bool)
    ensures
        forall|i: int|
            0 <= i < s.filter(pred).len() ==> exists|j: int|
                0 <= j < s.len() && s[j] == #[trigger] s.filter(pred)[i],
    decreases s.len(),
{
    reveal(Seq::filter);
    if s.len() > 0 {
        lemma_filter_elements(s.drop_last(), pred);
        let f = s.filter(pred);
        let ff = s.drop_last().filter(pred);
        assert forall|i: int| 0 <= i < f.len() implies exists|j: int|
            0 <= j < s.len() && s[j] == #[trigger] f[i] by {
            if pred(s.last()) && i == f.len() - 1 {
                assert(s[s.len() - 1] == f[i]);
            } else {
                assert(f[i] == ff[i]);
                let j = choose|j: int| 0 <= j < s.drop_last().len() && s.drop_last()[j] == ff[i];
                assert(s[j] == f[i]);
            }
        }
    }
}

/// Safety of sanitization: whenever an entry name sanitizes to a non-empty
/// path, that path is safe — splitting it back on either separator style
/// yields only real name segments, never an absolute prefix, an empty
/// segment, `.` or `..`. Extraction therefore never writes outside the
/// destination directory.
pub proof fn lemma_sanitized_path_is_safe(name: Seq<char>)
    ensures
        sanitize_spec(name).len() > 0 ==> path_is_safe(sanitize_spec(name)),
{
    let pred = |seg: Seq<char>| keep_segment(seg);
    let pieces = split_on(name, path_seps());
    let kept = pieces.filter(pred);
    if sanitize_spec(name).len() > 0 {
        if kept.len() == 0 {
            assert(join_on(kept, '/') =~= Seq::<char>::empty());
            assert(false);
        }
        lemma_split_pieces_sep_free(name, path_seps());
        lemma_filter_elements(pieces, pred);
        assert forall|i: int, k: int|
            0 <= i < kept.len() && 0 <= k < kept[i].len() implies !path_seps().contains(
            #[trigger] kept[i][k],
        ) by {
            let j = choose|j: int| 0 <= j < pieces.len() && pieces[j] == kept[i];
            assert(!path_seps().contains(pieces[j][k]));
        }
        lemma_split_join(kept, path_seps());
        assert forall|i: int|
            0 <= i < split_on(sanitize_spec(name), path_seps()).len() implies keep_segment(
            #[trigger] split_on(sanitize_spec(name), path_seps())[i],
        ) by {
            Seq::lemma_filter_pred(pieces, pred, i);
        }
    }
}

} // verus!
