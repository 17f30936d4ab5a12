//! Heuristic extraction of dependency names from project manifest files:
//! the `[dependencies]` section of a Cargo-style manifest, and the
//! `"dependencies"` object of a package manifest. Both read the text line
//! by line and stop at the end of the section.

use vstd::prelude::*;
use crate::text::chars_string;
use crate::text::find_char;
use crate::text::first_at;
use crate::text::lines_of;
use crate::text::split_lines;
use crate::text::starts_with_chars;
use crate::text::starts_with_seq;
use crate::text::str_chars;
use crate::text::string_views;
use crate::text::trim_chars;
use crate::text::trim_spec;

verus! {

/// The first line at or after `i` whose trimmed form starts the
/// dependency section of a Cargo-style manifest.
pub open spec fn find_cargo_header(lines: Seq<Seq<char>>, i: int) -> Option<int>
    decreases lines.len() - i,
{
    if i < 0 || i >= lines.len() {
        None
    } else if starts_with_seq(trim_spec(lines[i]), "[dependencies]"@) {
        Some(i)
    } else {
        find_cargo_header(lines, i + 1)
    }
}

/// The dependency names read from the lines after the section header: on
/// each line up to the next section, what stands before the first `=`.
pub open spec fn cargo_deps_from(lines: Seq<Seq<char>>, i: int) -> Seq<Seq<char>>
    decreases lines.len() - i,
{
    if i < 0 || i >= lines.len() {
        Seq::<Seq<char>>::empty()
    } else {
        let t = trim_spec(lines[i]);
        if t.len() > 0 && t[0] == '[' {
            Seq::<Seq<char>>::empty()
        } else {
            match first_at(t, '=') {
                Some(e) => seq![trim_spec(t.subrange(0, e))] + cargo_deps_from(lines, i + 1),
                None => cargo_deps_from(lines, i + 1),
            }
        }
    }
}

/// The dependency names of a Cargo-style manifest.
pub open spec fn cargo_deps(content: Seq<char>) -> Seq<Seq<char>> {
    match find_cargo_header(lines_of(content), 0) {
        Some(k) => cargo_deps_from(lines_of(content), k + 1),
        None => Seq::<Seq<char>>::empty(),
    }
}

/// Extracts the dependency names of a Cargo-style manifest.
pub fn cargo_toml_dependencies(content: &str) -> (r: Vec<String>)
    ensures
        string_views(r@) == cargo_deps(content@),
{
    let chars = str_chars(content);
    let lines = split_lines(&chars);
    let header = str_chars("[dependencies]");
    let ghost lv = lines_of(content@);
    let mut at: usize = 0;
    let mut found = false;
    while at < lines.len() && !found
        invariant
            lines.deep_view() == lv,
            lines.deep_view().len() == lines@.len(),
            header@ == "[dependencies]"@,
            at <= lines@.len(),
            !found ==> find_cargo_header(lv, 0) == find_cargo_header(lv, at as int),
            found ==> find_cargo_header(lv, 0) == Some(at as int - 1) && at >= 1,
        decreases lines@.len() - at,
    {
        proof {
            assert(lv[at as int] =~= lines@[at as int]@);
        }
        let t = trim_chars(&lines[at]);
        if starts_with_chars(&t, &header) {
            found = true;
            proof {
                assert(starts_with_seq(trim_spec(lv[at as int]), "[dependencies]"@));
                assert(find_cargo_header(lv, at as int) == Some(at as int));
            }
        } else {
            proof {
                assert(find_cargo_header(lv, at as int) == find_cargo_header(lv, at + 1));
            }
        }
        at += 1;
    }
    let mut deps: Vec<String> = Vec::new();
    if !found {
        proof {
            assert(find_cargo_header(lv, lv.len() as int) is None);
            assert(string_views(deps@) =~= Seq::<Seq<char>>::empty());
        }
        return deps;
    }
    proof {
        assert(string_views(deps@) =~= Seq::<Seq<char>>::empty());
        assert(Seq::<Seq<char>>::empty() + cargo_deps_from(lv, at as int) =~= cargo_deps_from(
            lv,
            at as int,
        ));
    }
    let mut j: usize = at;
    while j < lines.len()
        invariant
            lines.deep_view() == lv,
            lines.deep_view().len() == lines@.len(),
            lv == lines_of(content@),
            find_cargo_header(lv, 0) == Some(at as int - 1),
            1 <= at <= j <= lines@.len(),
            cargo_deps_from(lv, at as int) == string_views(deps@) + cargo_deps_from(
                lv,
                j as int,
            ),
        decreases lines@.len() - j,
    {
        proof {
            assert(lv[j as int] =~= lines@[j as int]@);
        }
        let t = trim_chars(&lines[j]);
        if t.len() > 0 && t[0] == '[' {
            proof {
                assert(cargo_deps_from(lv, j as int) =~= Seq::<Seq<char>>::empty());
                assert(string_views(deps@) + Seq::<Seq<char>>::empty() =~= string_views(deps@));
            }
            return deps;
        }
        match find_char(&t, '=') {
            Some(e) => {
                let mut name: Vec<char> = Vec::new();
                let mut k: usize = 0;
                while k < e
                    invariant
                        e <= t@.len(),
                        k <= e,
                        name@ =~= t@.subrange(0, k as int),
                    decreases e - k,
                {
                    name.push(t[k]);
                    assert(t@.subrange(0, k + 1 as int) =~= t@.subrange(0, k as int).push(
                        t@[k as int],
                    ));
                    k += 1;
                }
                let dep = trim_chars(&name);
                let ghost old_views = string_views(deps@);
                deps.push(chars_string(&dep));
                proof {
                    assert(string_views(deps@) =~= old_views.push(
                        trim_spec(t@.subrange(0, e as int)),
                    ));
                    assert(cargo_deps_from(lv, j as int) == seq![
                        trim_spec(t@.subrange(0, e as int)),
                    ] + cargo_deps_from(lv, j + 1));
                    assert(string_views(deps@) + cargo_deps_from(lv, j + 1)
                        =~= old_views + cargo_deps_from(lv, j as int));
                }
            },
            None => {
                proof {
                    assert(cargo_deps_from(lv, j as int) == cargo_deps_from(lv, j + 1));
                }
            },
        }
        j += 1;
    }
    proof {
        assert(cargo_deps_from(lv, lv.len() as int) =~= Seq::<Seq<char>>::empty());
        assert(string_views(deps@) + Seq::<Seq<char>>::empty() =~= string_views(deps@));
    }
    deps
}

/// The first line at or after `i` whose trimmed form starts the
/// dependency object of a package manifest.
pub open spec fn find_pkg_header(lines: Seq<Seq<char>>, i: int) -> Option<int>
    decreases lines.len() - i,
{
    if i < 0 || i >= lines.len() {
        None
    } else if starts_with_seq(trim_spec(lines[i]), "\"dependencies\""@) {
        Some(i)
    } else {
        find_pkg_header(lines, i + 1)
    }
}

/// The dependency names read from the lines after the object header: on
/// each line up to the closing brace, the first quoted name.
pub open spec fn pkg_deps_from(lines: Seq<Seq<char>>, i: int) -> Seq<Seq<char>>
    decreases lines.len() - i,
{
    if i < 0 || i >= lines.len() {
        Seq::<Seq<char>>::empty()
    } else {
        let t = trim_spec(lines[i]);
        if t.len() > 0 && t[0] == '}' {
            Seq::<Seq<char>>::empty()
        } else if t.len() > 0 && t[0] == '"' && first_at(t.skip(1), '"') is Some {
            seq![t.subrange(1, 1 + first_at(t.skip(1), '"').unwrap())] + pkg_deps_from(
                lines,
                i + 1,
            )
        } else {
            pkg_deps_from(lines, i + 1)
        }
    }
}

/// The dependency names of a package manifest.
pub open spec fn pkg_deps(content: Seq<char>) -> Seq<Seq<char>> {
    match find_pkg_header(lines_of(content), 0) {
        Some(k) => pkg_deps_from(lines_of(content), k + 1),
        None => Seq::<Seq<char>>::empty(),
    }
}

/// Extracts the dependency names of a package manifest.
pub fn package_json_dependencies(content: &str) -> (r: Vec<String>)
    ensures
        string_views(r@) == pkg_deps(content@),
{
    let chars = str_chars(content);
    let lines = split_lines(&chars);
    let header = str_chars("\"dependencies\"");
    let ghost lv = lines_of(content@);
    let mut at: usize = 0;
    let mut found = false;
    while at < lines.len() && !found
        invariant
            lines.deep_view() == lv,
            lines.deep_view().len() == lines@.len(),
            header@ == "\"dependencies\""@,
            at <= lines@.len(),
            !found ==> find_pkg_header(lv, 0) == find_pkg_header(lv, at as int),
            found ==> find_pkg_header(lv, 0) == Some(at as int - 1) && at >= 1,
        decreases lines@.len() - at,
    {
        proof {
            assert(lv[at as int] =~= lines@[at as int]@);
        }
        let t = trim_chars(&lines[at]);
        if starts_with_chars(&t, &header) {
            found = true;
            proof {
                assert(starts_with_seq(trim_spec(lv[at as int]), "\"dependencies\""@));
                assert(find_pkg_header(lv, at as int) == Some(at as int));
            }
        } else {
            proof {
                assert(find_pkg_header(lv, at as int) == find_pkg_header(lv, at + 1));
            }
        }
        at += 1;
    }
    let mut deps: Vec<String> = Vec::new();
    if !found {
        proof {
            assert(find_pkg_header(lv, lv.len() as int) is None);
            assert(string_views(deps@) =~= Seq::<Seq<char>>::empty());
        }
        return deps;
    }
    proof {
        assert(string_views(deps@) =~= Seq::<Seq<char>>::empty());
        assert(Seq::<Seq<char>>::empty() + pkg_deps_from(lv, at as int) =~= pkg_deps_from(
            lv,
            at as int,
        ));
    }
    let mut j: usize = at;
    while j < lines.len()
        invariant
            lines.deep_view() == lv,
            lines.deep_view().len() == lines@.len(),
            lv == lines_of(content@),
            find_pkg_header(lv, 0) == Some(at as int - 1),
            1 <= at <= j <= lines@.len(),
            pkg_deps_from(lv, at as int) == string_views(deps@) + pkg_deps_from(lv, j as int),
        decreases lines@.len() - j,
    {
        proof {
            assert(lv[j as int] =~= lines@[j as int]@);
        }
        let t = trim_chars(&lines[j]);
        if t.len() > 0 && t[0] == '}' {
            proof {
                assert(pkg_deps_from(lv, j as int) =~= Seq::<Seq<char>>::empty());
                assert(string_views(deps@) + Seq::<Seq<char>>::empty() =~= string_views(deps@));
            }
            return deps;
        }
        if t.len() > 0 && t[0] == '"' {
            let mut tail: Vec<char> = Vec::new();
            let mut k: usize = 1;
            while k < t.len()
                invariant
                    1 <= k <= t@.len(),
                    tail@ =~= t@.skip(1).subrange(0, k - 1),
                decreases t@.len() - k,
            {
                tail.push(t[k]);
                proof {
                    assert(t@.skip(1).subrange(0, k as int) =~= t@.skip(1).subrange(
                        0,
                        k - 1,
                    ).push(t@[k as int]));
                }
                k += 1;
            }
            proof {
                assert(tail@ =~= t@.skip(1));
            }
            match find_char(&tail, '"') {
                Some(e) => {
                    let mut name: Vec<char> = Vec::new();
                    let mut m: usize = 0;
                    while m < e
                        invariant
                            t@.len() >= 1,
                            e < tail@.len(),
                            tail@ == t@.skip(1),
                            m <= e,
                            name@ =~= t@.subrange(1, 1 + m as int),
                        decreases e - m,
                    {
                        proof {
                            assert(tail@.len() == t@.len() - 1);
                            assert(1 + m + 1 <= t@.len());
                            assert(tail@[m as int] == t@[1 + m]);
                        }
                        name.push(tail[m]);
                        proof {
                            assert(t@.subrange(1, 1 + m + 1) =~= t@.subrange(
                                1,
                                1 + m as int,
                            ).push(t@[1 + m]));
                        }
                        m += 1;
                    }
                    let ghost old_views = string_views(deps@);
                    deps.push(chars_string(&name));
                    proof {
                        assert(string_views(deps@) =~= old_views.push(
                            t@.subrange(1, 1 + e as int),
                        ));
                        assert(pkg_deps_from(lv, j as int) == seq![
                            t@.subrange(1, 1 + first_at(t@.skip(1), '"').unwrap()),
                        ] + pkg_deps_from(lv, j + 1));
                        assert(string_views(deps@) + pkg_deps_from(lv, j + 1)
                            =~= old_views + pkg_deps_from(lv, j as int));
                    }
                },
                None => {
                    proof {
                        assert(pkg_deps_from(lv, j as int) == pkg_deps_from(lv, j + 1));
                    }
                },
            }
        } else {
            proof {
                assert(pkg_deps_from(lv, j as int) == pkg_deps_from(lv, j + 1));
            }
        }
        j += 1;
    }
    proof {
        assert(pkg_deps_from(lv, lv.len() as int) =~= Seq::<Seq<char>>::empty());
        assert(string_views(deps@) + Seq::<Seq<char>>::empty() =~= string_views(deps@));
    }
    deps
}

} // verus!
