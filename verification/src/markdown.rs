//! Markdown helpers for the synthesizer: pulling a named section (setup,
//! installation, and the like) out of a readme by heading, and squashing
//! names for loose comparison.

use vstd::prelude::*;
use crate::text::chars_string;
use crate::text::contains_seq;
use crate::text::contains_chars;
use crate::text::extend_chars;
use crate::text::find_char;
use crate::text::first_at;
use crate::text::join_lines;
use crate::text::join_nl;
use crate::text::lines_of;
use crate::text::lower_of;
use crate::text::lowercase;
use crate::text::split_lines;
use crate::text::str_chars;
use crate::text::trim_chars;
use crate::text::trim_spec;

verus! {

/// The count of leading `#` characters.
pub open spec fn lead_hashes(s: Seq<char>) -> int
    decreases s.len(),
{
    if s.len() > 0 && s[0] == '#' {
        1 + lead_hashes(s.drop_first())
    } else {
        0
    }
}

/// What a trimmed line declares as a heading: its level and title, when
/// it splits at a space and its first token starts with `#`.
pub open spec fn heading_of(t: Seq<char>) -> Option<(int, Seq<char>)> {
    match first_at(t, ' ') {
        Some(sp) => {
            let hashes = t.subrange(0, sp);
            let title = t.skip(sp + 1);
            if hashes.len() > 0 && hashes[0] == '#' {
                Some((lead_hashes(hashes), title))
            } else {
                None
            }
        },
        None => None,
    }
}

/// Whether the lowered title names one of the wanted sections.
pub open spec fn title_matches(title: Seq<char>, headings: Seq<Seq<char>>) -> bool {
    exists|j: int|
        0 <= j < headings.len() && contains_seq(lower_of(title), #[trigger] headings[j])
}

/// The lines of the first wanted section: scanning from line `i`, a
/// heading whose title matches opens the section at its level; a later
/// heading of the same or a higher level closes it; every other line
/// inside the section is collected.
pub open spec fn section_scan(
    lines: Seq<Seq<char>>,
    headings: Seq<Seq<char>>,
    i: int,
    in_sec: bool,
    cur: int,
    acc: Seq<Seq<char>>,
) -> Seq<Seq<char>>
    decreases lines.len() - i,
{
    if i < 0 || i >= lines.len() {
        acc
    } else {
        let t = trim_spec(lines[i]);
        match heading_of(t) {
            Some((lvl, title)) => {
                if title_matches(title, headings) {
                    section_scan(lines, headings, i + 1, true, lvl, acc)
                } else if in_sec && lvl <= cur {
                    acc
                } else if in_sec {
                    section_scan(lines, headings, i + 1, in_sec, cur, acc.push(lines[i]))
                } else {
                    section_scan(lines, headings, i + 1, in_sec, cur, acc)
                }
            },
            None => {
                if in_sec {
                    section_scan(lines, headings, i + 1, in_sec, cur, acc.push(lines[i]))
                } else {
                    section_scan(lines, headings, i + 1, in_sec, cur, acc)
                }
            },
        }
    }
}

/// The extracted section text: the collected lines joined and trimmed, or
/// nothing when no line was collected.
pub open spec fn section_of(content: Seq<char>, headings: Seq<Seq<char>>) -> Option<Seq<char>> {
    let out = section_scan(lines_of(content), headings, 0, false, 0, Seq::<Seq<char>>::empty());
    if out.len() > 0 {
        Some(trim_spec(join_nl(out)))
    } else {
        None
    }
}

proof fn lemma_lead_hashes_run(s: Seq<char>, c: int)
    requires
        0 <= c <= s.len(),
        forall|k: int| 0 <= k < c ==> s[k] == '#',
        c == s.len() || s[c] != '#',
    ensures
        lead_hashes(s) == c,
    decreases c,
{
    if c == 0 {
    } else {
        let tail = s.drop_first();
        assert(forall|k: int| 0 <= k < c - 1 ==> tail[k] == '#');
        assert(c - 1 == tail.len() || tail[c - 1] != '#');
        lemma_lead_hashes_run(tail, c - 1);
    }
}

fn any_title_match(lowc: &Vec<char>, hv: &Vec<Vec<char>>) -> (r: bool)
    ensures
        r == exists|j: int|
            0 <= j < hv.deep_view().len() && contains_seq(lowc@, #[trigger] hv.deep_view()[j]),
{
    let mut j: usize = 0;
    while j < hv.len()
        invariant
            j <= hv@.len(),
            hv.deep_view().len() == hv@.len(),
            forall|k: int| 0 <= k < j ==> !contains_seq(lowc@, #[trigger] hv.deep_view()[k]),
        decreases hv@.len() - j,
    {
        proof {
            assert(hv.deep_view()[j as int] =~= hv@[j as int]@);
        }
        if contains_chars(lowc, &hv[j]) {
            return true;
        }
        j += 1;
    }
    false
}

/// Extracts the first section of `content` whose heading's lowered title
/// contains one of `headings`: the lines under that heading, up to the
/// next heading of the same or a higher level, joined and trimmed.
pub fn extract_markdown_section(content: &str, headings: &[&str]) -> (r: Option<String>)
    ensures
        ({
            let hs = Seq::new(headings@.len(), |j: int| headings@[j]@);
            match r {
                Some(s) => section_of(content@, hs) == Some(s@),
                None => section_of(content@, hs) is None,
            }
        }),
{
    let ghost hs = Seq::new(headings@.len(), |j: int| headings@[j]@);
    let mut hv: Vec<Vec<char>> = Vec::new();
    let mut j: usize = 0;
    while j < headings.len()
        invariant
            hs == Seq::new(headings@.len(), |k: int| headings@[k]@),
            j <= headings@.len(),
            hv.deep_view() =~= hs.subrange(0, j as int),
        decreases headings@.len() - j,
    {
        let h = str_chars(headings[j]);
        proof {
            assert(h.deep_view() =~= h@);
        }
        let ghost old_deep = hv.deep_view();
        hv.push(h);
        proof {
            assert(hv.deep_view() =~= old_deep.push(headings@[j as int]@));
            assert(hs.subrange(0, j + 1 as int) =~= hs.subrange(0, j as int).push(
                hs[j as int],
            ));
        }
        j += 1;
    }
    proof {
        assert(hs.subrange(0, hs.len() as int) =~= hs);
        assert(hv.deep_view() =~= hs);
    }
    let chars = str_chars(content);
    let lines = split_lines(&chars);
    let ghost lv = lines_of(content@);
    let mut acc: Vec<Vec<char>> = Vec::new();
    let mut in_sec = false;
    let mut cur: usize = 0;
    let mut i: usize = 0;
    proof {
        assert(acc.deep_view() =~= Seq::<Seq<char>>::empty());
    }
    while i < lines.len()
        invariant
            lines.deep_view() == lv,
            lines.deep_view().len() == lines@.len(),
            lv == lines_of(content@),
            hv.deep_view() == hs,
            hs == Seq::new(headings@.len(), |k: int| headings@[k]@),
            i <= lines@.len(),
            section_scan(lv, hs, 0, false, 0, Seq::<Seq<char>>::empty()) == section_scan(
                lv,
                hs,
                i as int,
                in_sec,
                cur as int,
                acc.deep_view(),
            ),
        decreases lines@.len() - i,
    {
        proof {
            assert(lv[i as int] =~= lines@[i as int]@);
        }
        let t = trim_chars(&lines[i]);
        let mut is_heading = false;
        let mut lvl: usize = 0;
        let mut matched = false;
        match find_char(&t, ' ') {
            Some(sp) => {
                if sp > 0 && t[0] == '#' {
                    is_heading = true;
                    // count the leading hashes of the first token
                    let mut c: usize = 0;
                    while c < sp && t[c] == '#'
                        invariant
                            sp < t@.len(),
                            c <= sp,
                            forall|k: int| 0 <= k < c ==> t@[k] == '#',
                        decreases sp - c,
                    {
                        c += 1;
                    }
                    lvl = c;
                    proof {
                        let hashes = t@.subrange(0, first_at(t@, ' ').unwrap());
                        assert(hashes.len() == sp);
                        assert(forall|k: int| 0 <= k < c ==> hashes[k] == '#');
                        assert(c == hashes.len() || hashes[c as int] != '#');
                        lemma_lead_hashes_run(hashes, c as int);
                    }
                    let tl: usize = t.len();
                    let mut title: Vec<char> = Vec::new();
                    let mut k: usize = sp + 1;
                    while k < t.len()
                        invariant
                            sp + 1 <= k <= t@.len(),
                            title@ =~= t@.subrange(sp + 1, k as int),
                        decreases t@.len() - k,
                    {
                        title.push(t[k]);
                        assert(t@.subrange(sp + 1, k + 1 as int) =~= t@.subrange(
                            sp + 1,
                            k as int,
                        ).push(t@[k as int]));
                        k += 1;
                    }
                    proof {
                        assert(title@ =~= t@.skip(sp + 1));
                    }
                    let ts = chars_string(&title);
                    let low = lowercase(ts.as_str());
                    let lowc = str_chars(low.as_str());
                    matched = any_title_match(&lowc, &hv);
                    proof {
                        assert(matched == title_matches(t@.skip(sp + 1), hs));
                    }
                }
            },
            None => {},
        }
        let ghost t_view = t@;
        let ghost state_scan = section_scan(
            lv,
            hs,
            i as int,
            in_sec,
            cur as int,
            acc.deep_view(),
        );
        if is_heading && matched {
            in_sec = true;
            cur = lvl;
            proof {
                assert(heading_of(t_view) == Some(
                    (lvl as int, t_view.skip(first_at(t_view, ' ').unwrap() + 1)),
                ));
                assert(state_scan == section_scan(
                    lv,
                    hs,
                    i + 1,
                    true,
                    lvl as int,
                    acc.deep_view(),
                ));
            }
        } else if is_heading && in_sec && lvl <= cur {
            // end of the wanted section: what was collected is the answer
            proof {
                assert(heading_of(t_view) is Some);
                assert(state_scan == acc.deep_view());
                assert(section_scan(lv, hs, 0, false, 0, Seq::<Seq<char>>::empty())
                    == acc.deep_view());
            }
            if acc.len() > 0 {
                let joined = join_lines(&acc);
                let trimmed = trim_chars(&joined);
                return Some(chars_string(&trimmed));
            } else {
                return None;
            }
        } else if in_sec {
            let mut line_copy: Vec<char> = Vec::new();
            extend_chars(&mut line_copy, &lines[i]);
            let ghost old_deep = acc.deep_view();
            proof {
                assert(line_copy.deep_view() =~= line_copy@);
            }
            acc.push(line_copy);
            proof {
                assert(acc.deep_view() =~= old_deep.push(lv[i as int]));
                assert(state_scan == section_scan(
                    lv,
                    hs,
                    i + 1,
                    in_sec,
                    cur as int,
                    old_deep.push(lv[i as int]),
                ));
            }
        } else {
            proof {
                assert(state_scan == section_scan(
                    lv,
                    hs,
                    i + 1,
                    in_sec,
                    cur as int,
                    acc.deep_view(),
                ));
            }
        }
        i += 1;
    }
    proof {
        assert(section_scan(lv, hs, lv.len() as int, in_sec, cur as int, acc.deep_view())
            == acc.deep_view());
        assert(section_scan(lv, hs, 0, false, 0, Seq::<Seq<char>>::empty())
            == acc.deep_view());
    }
    if acc.len() > 0 {
        let joined = join_lines(&acc);
        let trimmed = trim_chars(&joined);
        Some(chars_string(&trimmed))
    } else {
        None
    }
}

/// Whether `c` is an ASCII letter or digit.
pub open spec fn is_ascii_alnum(c: char) -> bool {
    ('0' <= c && c <= '9') || ('a' <= c && c <= 'z') || ('A' <= c && c <= 'Z')
}

/// A name squashed for loose comparison: lowered, with everything but
/// ASCII letters and digits removed.
pub open spec fn normalized(name: Seq<char>) -> Seq<char> {
    lower_of(name).filter(|c: char| is_ascii_alnum(c))
}

/// Squashes a name for loose comparison.
pub fn normalize_name(name: &str) -> (r: String)
    ensures
        r@ == normalized(name@),
{
    let low = lowercase(name);
    let lowc = str_chars(low.as_str());
    let mut out: Vec<char> = Vec::new();
    let mut i: usize = 0;
    proof {
        reveal(Seq::filter);
        assert(lowc@.subrange(0, 0) =~= Seq::<char>::empty());
        assert(out@ =~= lowc@.subrange(0, 0).filter(|c: char| is_ascii_alnum(c)));
    }
    while i < lowc.len()
        invariant
            lowc@ == lower_of(name@),
            i <= lowc@.len(),
            out@ == lowc@.subrange(0, i as int).filter(|c: char| is_ascii_alnum(c)),
        decreases lowc@.len() - i,
    {
        let ghost pre = lowc@.subrange(0, i as int);
        let ghost post = lowc@.subrange(0, i + 1 as int);
        proof {
            reveal(Seq::filter);
            assert(post.drop_last() =~= pre);
            assert(post.last() == lowc@[i as int]);
        }
        let c = lowc[i];
        if ('0' <= c && c <= '9') || ('a' <= c && c <= 'z') || ('A' <= c && c <= 'Z') {
            out.push(c);
        }
        i += 1;
    }
    proof {
        assert(lowc@.subrange(0, lowc@.len() as int) =~= lowc@);
    }
    chars_string(&out)
}

} // verus!
