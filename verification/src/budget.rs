//! The content budgeter: candidates arrive in (already prioritized) order,
//! each content is truncated to a per-file cap, and formatted blocks are
//! appended greedily, first-fit, while the assembly stays strictly below
//! the cumulative cap; candidates that do not fit are recorded as omitted
//! and the pass continues.

use vstd::prelude::*;
use crate::text::chars_string;
use crate::text::contains_seq;
use crate::text::extend_chars;
use crate::text::matches_at;
use crate::text::str_chars;
use crate::text::string_views;

verus! {

/// Running counter of consumed prompt characters against a ceiling. The
/// counter only ever grows.
pub struct ContentBudget {
    pub used: usize,
    pub cap: usize,
}

impl ContentBudget {
    pub fn new(cap: usize) -> (r: Self)
        ensures
            r.used == 0,
            r.cap == cap,
    {
        Self { used: 0, cap }
    }

    /// Whether `n` more characters keep the total strictly below the cap.
    pub fn fits(&self, n: usize) -> (r: bool)
        ensures
            r == (self.used + n < self.cap),
    {
        n < self.cap && self.used < self.cap - n
    }

    /// Consumes `n` characters; the counter never decreases.
    pub fn consume(&mut self, n: usize)
        requires
            old(self).used + n < old(self).cap,
        ensures
            final(self).used == old(self).used + n,
            final(self).cap == old(self).cap,
            final(self).used >= old(self).used,
    {
        self.used = self.used + n;
    }
}

/// `s` cut to at most `cap` characters.
pub open spec fn truncate_spec(s: Seq<char>, cap: int) -> Seq<char> {
    if s.len() <= cap {
        s
    } else {
        s.subrange(0, cap)
    }
}

/// Truncates `v` to at most `cap` characters.
pub fn truncate_chars(v: &Vec<char>, cap: usize) -> (r: Vec<char>)
    ensures
        r@ == truncate_spec(v@, cap as int),
{
    let n: usize = if v.len() <= cap {
        v.len()
    } else {
        cap
    };
    let mut r: Vec<char> = Vec::new();
    let mut i: usize = 0;
    while i < n
        invariant
            n <= v@.len(),
            i <= n,
            r@ =~= v@.subrange(0, i as int),
        decreases n - i,
    {
        r.push(v[i]);
        assert(v@.subrange(0, i + 1 as int) =~= v@.subrange(0, i as int).push(v@[i as int]));
        i += 1;
    }
    proof {
        if v@.len() <= cap {
            assert(v@.subrange(0, v@.len() as int) =~= v@);
        }
    }
    r
}

/// Truncates text to at most `cap` characters.
pub fn truncate_text(s: &str, cap: usize) -> (r: String)
    ensures
        r@ == truncate_spec(s@, cap as int),
{
    let chars = str_chars(s);
    let t = truncate_chars(&chars, cap);
    chars_string(&t)
}

/// The formatted block for one candidate: a header naming the path, then
/// the content truncated to the per-file cap, then a blank line.
pub open spec fn block_of(path: Seq<char>, content: Seq<char>, pf_cap: int) -> Seq<char> {
    "--- "@ + path + " ---\n"@ + truncate_spec(content, pf_cap) + "\n\n"@
}

fn build_block(path: &String, content: &String, pf_cap: usize) -> (r: Vec<char>)
    ensures
        r@ == block_of(path@, content@, pf_cap as int),
{
    let mut r = str_chars("--- ");
    let pc = str_chars(path.as_str());
    extend_chars(&mut r, &pc);
    let mid = str_chars(" ---\n");
    extend_chars(&mut r, &mid);
    let cc = str_chars(content.as_str());
    let tc = truncate_chars(&cc, pf_cap);
    extend_chars(&mut r, &tc);
    let end = str_chars("\n\n");
    extend_chars(&mut r, &end);
    proof {
        assert(r@ =~= block_of(path@, content@, pf_cap as int));
    }
    r
}

/// The views of the candidate rows.
pub open spec fn cand_views(cands: Seq<(String, String)>) -> Seq<(Seq<char>, Seq<char>)> {
    cands.map_values(|c: (String, String)| (c.0@, c.1@))
}

/// The greedy assembly: blocks are appended in order while the running
/// total stays strictly below the cumulative cap; the paths of candidates
/// whose block does not fit are collected, in order, as omitted.
pub open spec fn assembled(cands: Seq<(Seq<char>, Seq<char>)>, pf_cap: int, cum_cap: int) -> (
    Seq<char>,
    Seq<Seq<char>>,
)
    decreases cands.len(),
{
    if cands.len() == 0 {
        (Seq::<char>::empty(), Seq::<Seq<char>>::empty())
    } else {
        let (acc, om) = assembled(cands.drop_last(), pf_cap, cum_cap);
        let b = block_of(cands.last().0, cands.last().1, pf_cap);
        if acc.len() + b.len() < cum_cap {
            (acc + b, om)
        } else {
            (acc, om.push(cands.last().0))
        }
    }
}

/// Assembles the candidates' blocks under the two caps, returning the
/// assembly and the omitted paths.
pub fn assemble_blocks(
    cands: &Vec<(String, String)>,
    per_file_cap: usize,
    cumulative_cap: usize,
) -> (r: (String, Vec<String>))
    ensures
        ({
            let (acc, om) = assembled(
                cand_views(cands@),
                per_file_cap as int,
                cumulative_cap as int,
            );
            r.0@ == acc && string_views(r.1@) == om
        }),
{
    let mut acc: Vec<char> = Vec::new();
    let mut omitted: Vec<String> = Vec::new();
    let mut i: usize = 0;
    proof {
        assert(cand_views(cands@.subrange(0, 0)) =~= Seq::<(Seq<char>, Seq<char>)>::empty());
        assert(string_views(omitted@) =~= Seq::<Seq<char>>::empty());
    }
    while i < cands.len()
        invariant
            i <= cands@.len(),
            (acc@, string_views(omitted@)) == assembled(
                cand_views(cands@.subrange(0, i as int)),
                per_file_cap as int,
                cumulative_cap as int,
            ),
        decreases cands@.len() - i,
    {
        let ghost pre = cand_views(cands@.subrange(0, i as int));
        let ghost post = cand_views(cands@.subrange(0, i + 1 as int));
        proof {
            assert(cands@.subrange(0, i + 1 as int).drop_last() =~= cands@.subrange(0, i as int));
            assert(post.drop_last() =~= pre);
            assert(post.last() == (cands@[i as int].0@, cands@[i as int].1@));
        }
        let block = build_block(&cands[i].0, &cands[i].1, per_file_cap);
        if block.len() < cumulative_cap && acc.len() < cumulative_cap - block.len() {
            extend_chars(&mut acc, &block);
        } else {
            proof {
                assert(acc@.len() + block@.len() >= cumulative_cap);
            }
            let ghost old_om = omitted@;
            omitted.push(cands[i].0.clone());
            proof {
                assert(string_views(omitted@) =~= string_views(old_om).push(
                    cands@[i as int].0@,
                ));
            }
        }
        i += 1;
    }
    proof {
        assert(cands@.subrange(0, cands@.len() as int) =~= cands@);
    }
    (chars_string(&acc), omitted)
}

/// The cumulative length of the assembled blocks never exceeds the cap.
pub proof fn lemma_budget_cap(cands: Seq<(Seq<char>, Seq<char>)>, pf_cap: int, cum_cap: int)
    requires
        cum_cap >= 0,
    ensures
        assembled(cands, pf_cap, cum_cap).0.len() <= cum_cap,
    decreases cands.len(),
{
    if cands.len() > 0 {
        lemma_budget_cap(cands.drop_last(), pf_cap, cum_cap);
    }
}

proof fn lemma_contains_append(s: Seq<char>, t: Seq<char>, x: Seq<char>)
    requires
        contains_seq(s, x),
    ensures
        contains_seq(s + t, x),
{
    let at = choose|at: int| matches_at(s, x, at);
    assert forall|k: int| 0 <= k < x.len() implies (s + t)[at + k] == x[k] by {
        assert(s[at + k] == x[k]);
    }
    assert(matches_at(s + t, x, at));
}

/// Every candidate is accounted for: its path stands in the omitted list,
/// or its formatted block stands in the assembly.
pub proof fn lemma_budget_accounting(
    cands: Seq<(Seq<char>, Seq<char>)>,
    pf_cap: int,
    cum_cap: int,
)
    ensures
        forall|i: int|
            0 <= i < cands.len() ==> {
                let (acc, om) = assembled(cands, pf_cap, cum_cap);
                om.contains((#[trigger] cands[i]).0) || contains_seq(
                    acc,
                    block_of(cands[i].0, cands[i].1, pf_cap),
                )
            },
    decreases cands.len(),
{
    if cands.len() > 0 {
        lemma_budget_accounting(cands.drop_last(), pf_cap, cum_cap);
        let (acc0, om0) = assembled(cands.drop_last(), pf_cap, cum_cap);
        let (acc, om) = assembled(cands, pf_cap, cum_cap);
        let b = block_of(cands.last().0, cands.last().1, pf_cap);
        assert forall|i: int| 0 <= i < cands.len() implies {
            om.contains((#[trigger] cands[i]).0) || contains_seq(
                acc,
                block_of(cands[i].0, cands[i].1, pf_cap),
            )
        } by {
            if i == cands.len() - 1 {
                if acc0.len() + b.len() < cum_cap {
                    assert forall|k: int| 0 <= k < b.len() implies (acc0 + b)[acc0.len() + k]
                        == b[k] by {}
                    assert(matches_at(acc0 + b, b, acc0.len() as int));
                } else {
                    assert(om[om.len() - 1] == cands.last().0);
                }
            } else {
                assert(cands.drop_last()[i] == cands[i]);
                if om0.contains(cands[i].0) {
                    let j = choose|j: int| 0 <= j < om0.len() && om0[j] == cands[i].0;
                    assert(om[j] == cands[i].0);
                } else {
                    if acc0.len() + b.len() < cum_cap {
                        lemma_contains_append(
                            acc0,
                            b,
                            block_of(cands[i].0, cands[i].1, pf_cap),
                        );
                    }
                }
            }
        }
    }
}

} // verus!
