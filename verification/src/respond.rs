//! Sanitization of provider responses: lines that are meta-reasoning
//! artifacts — thinking markers, discourse fillers, or known leakage
//! phrases — are stripped; the remaining lines are trimmed, empty lines
//! dropped, and the rest rejoined with single newlines.

use vstd::prelude::*;
use crate::text::chars_string;
use crate::text::contains_seq;
use crate::text::contains_chars;
use crate::text::join_lines;
use crate::text::join_nl;
use crate::text::lines_of;
use crate::text::lower_of;
use crate::text::lowercase;
use crate::text::split_lines;
use crate::text::starts_with_seq;
use crate::text::starts_with_chars;
use crate::text::str_chars;
use crate::text::trim_chars;
use crate::text::trim_spec;

verus! {

/// Prefixes that mark a line as a thinking artifact or discourse filler.
pub open spec fn drop_prefixes() -> Seq<Seq<char>> {
    seq![
        "<think>"@,
        "</think>"@,
        "<reasoning>"@,
        "</reasoning>"@,
        "<analysis>"@,
        "</analysis>"@,
        "Alright,"@,
        "Okay,"@,
        "So,"@,
        "First,"@,
        "I need to"@,
        "I should"@,
        "Let me"@,
        "I'll"@,
        "I think"@,
        "It's important to"@,
        "Just a"@,
        "I remember"@,
        "I also need"@,
        "Maybe I'll"@,
    ]
}

/// Phrases whose presence marks a line as leaked meta-commentary.
pub open spec fn drop_phrases() -> Seq<Seq<char>> {
    seq![
        "I should respond"@,
        "I need to make sure"@,
        "I should acknowledge"@,
        "I should ask"@,
        "I'll keep it"@,
        "I should avoid"@,
        "Just a simple"@,
        "guidelines say"@,
        "thinking process"@,
        "internal monologue"@,
        "keep it straightforward"@,
        "concise and clear"@,
        "without any unnecessary"@,
        "give them an idea"@,
        "more tailored and helpful"@,
    ]
}

/// Phrases checked against the lowered line.
pub open spec fn drop_phrases_lower() -> Seq<Seq<char>> {
    seq![
        "i remember"@,
        "guidelines say"@,
        "thinking process"@,
        "internal monologue"@,
        "keep it straightforward"@,
        "concise and clear"@,
        "without any unnecessary"@,
        "give them an idea"@,
        "more tailored and helpful"@,
        "i need to keep"@,
        "i should offer"@,
        "maybe i'll"@,
        "i also need to make"@,
    ]
}

fn drop_prefixes_vec() -> (r: Vec<Vec<char>>)
    ensures
        r.deep_view() == drop_prefixes(),
{
    let mut r: Vec<Vec<char>> = Vec::new();
    r.push(str_chars("<think>"));
    r.push(str_chars("</think>"));
    r.push(str_chars("<reasoning>"));
    r.push(str_chars("</reasoning>"));
    r.push(str_chars("<analysis>"));
    r.push(str_chars("</analysis>"));
    r.push(str_chars("Alright,"));
    r.push(str_chars("Okay,"));
    r.push(str_chars("So,"));
    r.push(str_chars("First,"));
    r.push(str_chars("I need to"));
    r.push(str_chars("I should"));
    r.push(str_chars("Let me"));
    r.push(str_chars("I'll"));
    r.push(str_chars("I think"));
    r.push(str_chars("It's important to"));
    r.push(str_chars("Just a"));
    r.push(str_chars("I remember"));
    r.push(str_chars("I also need"));
    r.push(str_chars("Maybe I'll"));
    proof {
        assert(r.deep_view() =~~= drop_prefixes());
    }
    r
}

fn drop_phrases_vec() -> (r: Vec<Vec<char>>)
    ensures
        r.deep_view() == drop_phrases(),
{
    let mut r: Vec<Vec<char>> = Vec::new();
    r.push(str_chars("I should respond"));
    r.push(str_chars("I need to make sure"));
    r.push(str_chars("I should acknowledge"));
    r.push(str_chars("I should ask"));
    r.push(str_chars("I'll keep it"));
    r.push(str_chars("I should avoid"));
    r.push(str_chars("Just a simple"));
    r.push(str_chars("guidelines say"));
    r.push(str_chars("thinking process"));
    r.push(str_chars("internal monologue"));
    r.push(str_chars("keep it straightforward"));
    r.push(str_chars("concise and clear"));
    r.push(str_chars("without any unnecessary"));
    r.push(str_chars("give them an idea"));
    r.push(str_chars("more tailored and helpful"));
    proof {
        assert(r.deep_view() =~~= drop_phrases());
    }
    r
}

fn drop_phrases_lower_vec() -> (r: Vec<Vec<char>>)
    ensures
        r.deep_view() == drop_phrases_lower(),
{
    let mut r: Vec<Vec<char>> = Vec::new();
    r.push(str_chars("i remember"));
    r.push(str_chars("guidelines say"));
    r.push(str_chars("thinking process"));
    r.push(str_chars("internal monologue"));
    r.push(str_chars("keep it straightforward"));
    r.push(str_chars("concise and clear"));
    r.push(str_chars("without any unnecessary"));
    r.push(str_chars("give them an idea"));
    r.push(str_chars("more tailored and helpful"));
    r.push(str_chars("i need to keep"));
    r.push(str_chars("i should offer"));
    r.push(str_chars("maybe i'll"));
    r.push(str_chars("i also need to make"));
    proof {
        assert(r.deep_view() =~~= drop_phrases_lower());
    }
    r
}

/// Whether a trimmed line survives sanitization: non-empty, no artifact
/// prefix, and no leakage phrase in it, case-sensitively or on its
/// lowered form.
pub open spec fn keep_line(t: Seq<char>) -> bool {
    &&& t.len() > 0
    &&& !(exists|i: int|
        0 <= i < drop_prefixes().len() && starts_with_seq(t, #[trigger] drop_prefixes()[i]))
    &&& !(exists|i: int|
        0 <= i < drop_phrases().len() && contains_seq(t, #[trigger] drop_phrases()[i]))
    &&& !(exists|i: int|
        0 <= i < drop_phrases_lower().len() && contains_seq(
            lower_of(t),
            #[trigger] drop_phrases_lower()[i],
        ))
}

/// The lines, each trimmed.
pub open spec fn trimmed_lines(ls: Seq<Seq<char>>) -> Seq<Seq<char>> {
    ls.map_values(|l: Seq<char>| trim_spec(l))
}

/// The lines that survive sanitization.
pub open spec fn kept_lines(ts: Seq<Seq<char>>) -> Seq<Seq<char>> {
    ts.filter(|t: Seq<char>| keep_line(t))
}

/// The sanitized form of a response: its lines trimmed, artifact lines
/// dropped, and the rest rejoined with single newlines.
pub open spec fn sanitized(text: Seq<char>) -> Seq<char> {
    join_nl(kept_lines(trimmed_lines(lines_of(text))))
}

fn any_prefix(t: &Vec<char>, pats: &Vec<Vec<char>>) -> (r: bool)
    ensures
        r == exists|i: int|
            0 <= i < pats.deep_view().len() && starts_with_seq(t@, #[trigger] pats.deep_view()[i]),
{
    let mut i: usize = 0;
    while i < pats.len()
        invariant
            i <= pats@.len(),
            pats.deep_view().len() == pats@.len(),
            forall|j: int| 0 <= j < i ==> !starts_with_seq(t@, #[trigger] pats.deep_view()[j]),
        decreases pats@.len() - i,
    {
        proof {
            assert(pats.deep_view()[i as int] =~= pats@[i as int]@);
        }
        if starts_with_chars(t, &pats[i]) {
            return true;
        }
        i += 1;
    }
    false
}

fn any_phrase(t: &Vec<char>, pats: &Vec<Vec<char>>) -> (r: bool)
    ensures
        r == exists|i: int|
            0 <= i < pats.deep_view().len() && contains_seq(t@, #[trigger] pats.deep_view()[i]),
{
    let mut i: usize = 0;
    while i < pats.len()
        invariant
            i <= pats@.len(),
            pats.deep_view().len() == pats@.len(),
            forall|j: int| 0 <= j < i ==> !contains_seq(t@, #[trigger] pats.deep_view()[j]),
        decreases pats@.len() - i,
    {
        proof {
            assert(pats.deep_view()[i as int] =~= pats@[i as int]@);
        }
        if contains_chars(t, &pats[i]) {
            return true;
        }
        i += 1;
    }
    false
}

/// Sanitizes the text of a provider response.
pub fn sanitize_response(text: &str) -> (r: String)
    ensures
        r@ == sanitized(text@),
{
    let prefixes = drop_prefixes_vec();
    let phrases = drop_phrases_vec();
    let phrases_lower = drop_phrases_lower_vec();
    let chars = str_chars(text);
    let lines = split_lines(&chars);
    let mut kept: Vec<Vec<char>> = Vec::new();
    let mut i: usize = 0;
    proof {
        reveal(Seq::filter);
        assert(lines.deep_view().subrange(0, 0) =~= Seq::<Seq<char>>::empty());
        assert(trimmed_lines(lines.deep_view().subrange(0, 0)) =~= Seq::<Seq<char>>::empty());
        assert(kept.deep_view() =~= kept_lines(trimmed_lines(lines.deep_view().subrange(0, 0))));
    }
    while i < lines.len()
        invariant
            prefixes.deep_view() == drop_prefixes(),
            phrases.deep_view() == drop_phrases(),
            phrases_lower.deep_view() == drop_phrases_lower(),
            lines.deep_view().len() == lines@.len(),
            i <= lines@.len(),
            kept.deep_view() == kept_lines(trimmed_lines(lines.deep_view().subrange(0, i as int))),
        decreases lines@.len() - i,
    {
        let ghost pre = lines.deep_view().subrange(0, i as int);
        let ghost post = lines.deep_view().subrange(0, i + 1 as int);
        proof {
            reveal(Seq::filter);
            assert(post.drop_last() =~= pre);
            assert(post.last() == lines.deep_view()[i as int]);
            assert(lines.deep_view()[i as int] =~= lines@[i as int]@);
            assert(trimmed_lines(post) =~= trimmed_lines(pre).push(
                trim_spec(lines@[i as int]@),
            ));
            assert(trimmed_lines(post).drop_last() =~= trimmed_lines(pre));
            assert(trimmed_lines(post).last() == trim_spec(lines@[i as int]@));
        }
        let t = trim_chars(&lines[i]);
        let keep = if t.len() == 0 {
            false
        } else if any_prefix(&t, &prefixes) {
            false
        } else if any_phrase(&t, &phrases) {
            false
        } else {
            let ts = chars_string(&t);
            let low = lowercase(ts.as_str());
            let lowc = str_chars(low.as_str());
            !any_phrase(&lowc, &phrases_lower)
        };
        proof {
            assert(keep == keep_line(trim_spec(lines@[i as int]@)));
        }
        if keep {
            let ghost old_deep = kept.deep_view();
            proof {
                assert(t.deep_view() =~= t@);
            }
            kept.push(t);
            proof {
                assert(kept.deep_view() =~= old_deep.push(trim_spec(lines@[i as int]@)));
                assert(kept_lines(trimmed_lines(post)) == kept_lines(trimmed_lines(pre)).push(
                    trim_spec(lines@[i as int]@),
                ));
            }
        } else {
            proof {
                assert(kept_lines(trimmed_lines(post)) == kept_lines(trimmed_lines(pre)));
            }
        }
        i += 1;
    }
    proof {
        assert(lines.deep_view().subrange(0, lines@.len() as int) =~= lines.deep_view());
    }
    let joined = join_lines(&kept);
    chars_string(&joined)
}

} // verus!
