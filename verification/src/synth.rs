//! The documentation synthesizer: a three-stage session that renders the
//! tree, collects per-file summaries for the selected key files, and
//! assembles the final synthesis prompt under the cumulative cap, tracking
//! omissions. Stages are strictly sequential: the per-file stage opens
//! only when the structure stage has answered, and the final stage only
//! when every selected file has been handled. Provider failures degrade to
//! placeholder text; they never abort the session.

use vstd::prelude::*;
use crate::manifest::cargo_deps;
use crate::manifest::cargo_toml_dependencies;
use crate::manifest::pkg_deps;
use crate::manifest::package_json_dependencies;
use crate::select::select_key_files;
use crate::select::selection_witness;
use crate::select::file_paths;
use crate::text::chars_string;
use crate::text::decimal_of;
use crate::text::ends_with_seq;
use crate::text::ends_with_chars;
use crate::text::extend_chars;
use crate::text::lower_of;
use crate::text::lowercase;
use crate::text::split_on;
use crate::text::split_on_exec;
use crate::text::str_chars;
use crate::text::string_views;
use crate::text::usize_decimal;
use crate::tree::rows;

verus! {

/// How many key files the per-file stage analyzes at most.
pub const KEY_FILE_COUNT: usize = 8;

/// How many characters of one file enter its summary prompt at most.
pub const PER_FILE_CAP: usize = 1000;

/// One analyzed key file in the final document.
pub struct FileAnalysisDoc {
    pub path: String,
    pub name: String,
    pub description: String,
    pub dependencies: Vec<String>,
    pub relationships: Vec<Relationship>,
}

/// A relation between two files. The analysis does not yet produce any.
pub struct Relationship {
    pub target_file: String,
    pub relationship_type: String,
    pub description: String,
}

/// The synthesized project document.
pub struct ProjectDocumentation {
    pub project_name: String,
    pub description: String,
    pub architecture: String,
    pub file_analyses: Vec<FileAnalysisDoc>,
    pub dependencies: Vec<String>,
    pub setup_instructions: String,
}

/// One row of the rendered directory listing.
pub open spec fn structure_row(e: (Seq<char>, bool)) -> Seq<char> {
    if e.1 {
        "[DIR] "@ + e.0 + "\n"@
    } else {
        "      "@ + e.0 + "\n"@
    }
}

/// The rendered directory listing: one row per flattened entry, in order.
pub open spec fn structure_of(entries: Seq<(Seq<char>, bool)>) -> Seq<char>
    decreases entries.len(),
{
    if entries.len() == 0 {
        Seq::<char>::empty()
    } else {
        structure_of(entries.drop_last()) + structure_row(entries.last())
    }
}

/// Renders the flattened tree as an indented directory listing.
pub fn render_structure(flat: &Vec<(String, bool)>) -> (r: String)
    ensures
        r@ == structure_of(rows(flat@)),
{
    let mut out: Vec<char> = Vec::new();
    let mut i: usize = 0;
    proof {
        assert(rows(flat@).subrange(0, 0) =~= Seq::<(Seq<char>, bool)>::empty());
        assert(out@ =~= structure_of(rows(flat@).subrange(0, 0)));
    }
    while i < flat.len()
        invariant
            rows(flat@).len() == flat@.len(),
            i <= flat@.len(),
            out@ == structure_of(rows(flat@).subrange(0, i as int)),
        decreases flat@.len() - i,
    {
        let ghost pre = rows(flat@).subrange(0, i as int);
        let ghost post = rows(flat@).subrange(0, i + 1 as int);
        proof {
            assert(post.drop_last() =~= pre);
            assert(post.last() == rows(flat@)[i as int]);
            assert(rows(flat@)[i as int] == (flat@[i as int].0@, flat@[i as int].1));
        }
        if flat[i].1 {
            let tag = str_chars("[DIR] ");
            extend_chars(&mut out, &tag);
        } else {
            let tag = str_chars("      ");
            extend_chars(&mut out, &tag);
        }
        let pc = str_chars(flat[i].0.as_str());
        extend_chars(&mut out, &pc);
        out.push('\n');
        proof {
            reveal_strlit("\n");
            assert("\n"@ =~= seq!['\n']);
            assert(out@ =~= structure_of(pre) + structure_row(post.last()));
        }
        i += 1;
    }
    proof {
        assert(rows(flat@).subrange(0, flat@.len() as int) =~= rows(flat@));
    }
    chars_string(&out)
}

/// The fixed head of the assembled summaries.
pub open spec fn summaries_base(structure_summary: Seq<char>) -> Seq<char> {
    "# Project Structure Overview\n\n"@ + structure_summary + "\n\n# Key File Summaries\n\n"@
}

/// One file's entry in the assembled summaries.
pub open spec fn summary_entry(path: Seq<char>, desc: Seq<char>) -> Seq<char> {
    "## `"@ + path + "`\n"@ + desc + "\n\n"@
}

/// The greedy assembly of per-file entries over the base text: an entry
/// is appended while the total stays strictly below the cumulative cap;
/// entries that do not fit are counted as omitted.
pub open spec fn summaries_fold(items: Seq<(Seq<char>, Seq<char>)>, base: Seq<char>) -> (
    Seq<char>,
    int,
)
    decreases items.len(),
{
    if items.len() == 0 {
        (base, 0int)
    } else {
        let (acc, om) = summaries_fold(items.drop_last(), base);
        let e = summary_entry(items.last().0, items.last().1);
        if acc.len() + e.len() < 10000 {
            (acc + e, om)
        } else {
            (acc, om + 1)
        }
    }
}

/// The assembled summaries, with a note counting the omissions appended
/// when any entry was left out.
pub open spec fn summaries_with_note(items: Seq<(Seq<char>, Seq<char>)>, base: Seq<char>) -> Seq<
    char,
> {
    let (acc, om) = summaries_fold(items, base);
    if om > 0 {
        acc + "\n--- Some file summaries omitted due to size limits ("@ + decimal_of(om as nat)
            + " omitted). ---\n"@
    } else {
        acc
    }
}

/// The `(path, description)` items of the collected analyses.
pub open spec fn doc_items(docs: Seq<FileAnalysisDoc>) -> Seq<(Seq<char>, Seq<char>)> {
    docs.map_values(|d: FileAnalysisDoc| (d.path@, d.description@))
}

/// Assembles the structure summary and the per-file summaries under the
/// cumulative cap. Returns the assembled text and how many entries were
/// omitted.
pub fn assemble_summaries(structure_summary: &str, analyses: &Vec<FileAnalysisDoc>) -> (r: (
    String,
    usize,
))
    ensures
        r.0@ == summaries_with_note(doc_items(analyses@), summaries_base(structure_summary@)),
        r.1 as int == summaries_fold(
            doc_items(analyses@),
            summaries_base(structure_summary@),
        ).1,
{
    let ghost base = summaries_base(structure_summary@);
    let mut acc: Vec<char> = str_chars("# Project Structure Overview\n\n");
    let sc = str_chars(structure_summary);
    extend_chars(&mut acc, &sc);
    let mid = str_chars("\n\n# Key File Summaries\n\n");
    extend_chars(&mut acc, &mid);
    proof {
        assert(acc@ =~= base);
    }
    let mut omitted: usize = 0;
    let mut i: usize = 0;
    proof {
        assert(doc_items(analyses@).subrange(0, 0) =~= Seq::<(Seq<char>, Seq<char>)>::empty());
    }
    while i < analyses.len()
        invariant
            base == summaries_base(structure_summary@),
            doc_items(analyses@).len() == analyses@.len(),
            i <= analyses@.len(),
            omitted <= i,
            (acc@, omitted as int) == summaries_fold(
                doc_items(analyses@).subrange(0, i as int),
                base,
            ),
        decreases analyses@.len() - i,
    {
        let ghost pre = doc_items(analyses@).subrange(0, i as int);
        let ghost post = doc_items(analyses@).subrange(0, i + 1 as int);
        proof {
            assert(post.drop_last() =~= pre);
            assert(post.last() == doc_items(analyses@)[i as int]);
            assert(doc_items(analyses@)[i as int] == (
                analyses@[i as int].path@,
                analyses@[i as int].description@,
            ));
        }
        let mut entry: Vec<char> = str_chars("## `");
        let pc = str_chars(analyses[i].path.as_str());
        extend_chars(&mut entry, &pc);
        let m1 = str_chars("`\n");
        extend_chars(&mut entry, &m1);
        let dc = str_chars(analyses[i].description.as_str());
        extend_chars(&mut entry, &dc);
        let m2 = str_chars("\n\n");
        extend_chars(&mut entry, &m2);
        proof {
            assert(entry@ =~= summary_entry(post.last().0, post.last().1));
        }
        if entry.len() < 10000 && acc.len() < 10000 - entry.len() {
            extend_chars(&mut acc, &entry);
        } else {
            proof {
                assert(acc@.len() + entry@.len() >= 10000);
            }
            omitted += 1;
        }
        i += 1;
    }
    proof {
        assert(doc_items(analyses@).subrange(0, analyses@.len() as int) =~= doc_items(
            analyses@,
        ));
    }
    if omitted > 0 {
        let n1 = str_chars("\n--- Some file summaries omitted due to size limits (");
        extend_chars(&mut acc, &n1);
        let digits = usize_decimal(omitted);
        extend_chars(&mut acc, &digits);
        let n2 = str_chars(" omitted). ---\n");
        extend_chars(&mut acc, &n2);
    }
    (chars_string(&acc), omitted)
}

/// The first occurrences kept, in order: each name appears once.
pub open spec fn dedup_spec(s: Seq<Seq<char>>) -> Seq<Seq<char>>
    decreases s.len(),
{
    if s.len() == 0 {
        s
    } else {
        let d = dedup_spec(s.drop_last());
        if d.contains(s.last()) {
            d
        } else {
            d.push(s.last())
        }
    }
}

/// Deduplication yields each collected name exactly once: the result is
/// duplicate-free and holds exactly the names of the input.
pub proof fn lemma_dedup_is_a_set(s: Seq<Seq<char>>)
    ensures
        forall|i: int, j: int|
            0 <= i < j < dedup_spec(s).len() ==> dedup_spec(s)[i] != dedup_spec(s)[j],
        forall|x: Seq<char>| #[trigger] dedup_spec(s).contains(x) <==> s.contains(x),
    decreases s.len(),
{
    if s.len() > 0 {
        lemma_dedup_is_a_set(s.drop_last());
        let d0 = dedup_spec(s.drop_last());
        let d = dedup_spec(s);
        assert forall|i: int, j: int| 0 <= i < j < d.len() implies d[i] != d[j] by {
            if !d0.contains(s.last()) && j == d.len() - 1 && d0.len() < d.len() {
                assert(d[i] == d0[i]);
                if d[i] == d[j] {
                    assert(d0.contains(d0[i]));
                }
            }
        }
        assert forall|x: Seq<char>| #[trigger] d.contains(x) <==> s.contains(x) by {
            if d.contains(x) {
                let k = choose|k: int| 0 <= k < d.len() && d[k] == x;
                if d0.contains(s.last()) || k < d0.len() {
                    assert(d0.contains(x));
                    assert(s.drop_last().contains(x));
                    let k2 = choose|k2: int|
                        0 <= k2 < s.drop_last().len() && s.drop_last()[k2] == x;
                    assert(s[k2] == x);
                } else {
                    assert(x == s.last());
                    assert(s[s.len() - 1] == x);
                }
            }
            if s.contains(x) {
                let k = choose|k: int| 0 <= k < s.len() && s[k] == x;
                if k < s.len() - 1 {
                    assert(s.drop_last()[k] == x);
                    assert(d0.contains(x));
                    let k2 = choose|k2: int| 0 <= k2 < d0.len() && d0[k2] == x;
                    if !d0.contains(s.last()) {
                        assert(d[k2] == x);
                    } else {
                        assert(d == d0);
                    }
                } else {
                    assert(x == s.last());
                    if d0.contains(x) {
                        let k2 = choose|k2: int| 0 <= k2 < d0.len() && d0[k2] == x;
                        if d0.contains(s.last()) {
                            assert(d == d0);
                            assert(d[k2] == x);
                        } else {
                            assert(d[k2] == x);
                        }
                    } else {
                        assert(d[d.len() - 1] == x);
                    }
                }
            }
        }
    }
}

/// Deduplicates names, keeping first occurrences in order.
pub fn dedup_strings(v: &Vec<String>) -> (r: Vec<String>)
    ensures
        string_views(r@) == dedup_spec(string_views(v@)),
{
    let mut r: Vec<String> = Vec::new();
    let mut i: usize = 0;
    proof {
        assert(string_views(v@).subrange(0, 0) =~= Seq::<Seq<char>>::empty());
        assert(string_views(r@) =~= dedup_spec(string_views(v@).subrange(0, 0)));
    }
    while i < v.len()
        invariant
            string_views(v@).len() == v@.len(),
            i <= v@.len(),
            string_views(r@) == dedup_spec(string_views(v@).subrange(0, i as int)),
        decreases v@.len() - i,
    {
        let ghost pre = string_views(v@).subrange(0, i as int);
        let ghost post = string_views(v@).subrange(0, i + 1 as int);
        proof {
            assert(post.drop_last() =~= pre);
            assert(post.last() == string_views(v@)[i as int]);
            assert(string_views(v@)[i as int] == v@[i as int]@);
        }
        let mut seen = false;
        let mut j: usize = 0;
        while j < r.len() && !seen
            invariant
                i < v@.len(),
                j <= r@.len(),
                string_views(r@).len() == r@.len(),
                !seen ==> forall|k: int| 0 <= k < j ==> string_views(r@)[k] != v@[i as int]@,
                seen ==> string_views(r@).contains(v@[i as int]@),
            decreases r@.len() - j,
        {
            if r[j] == v[i] {
                seen = true;
                proof {
                    assert(string_views(r@)[j as int] == v@[i as int]@);
                }
            }
            j += 1;
        }
        if !seen {
            let ghost old_views = string_views(r@);
            proof {
                assert(forall|k: int| 0 <= k < old_views.len() ==> old_views[k] != v@[
                    i as int]@);
                assert(!old_views.contains(v@[i as int]@));
            }
            r.push(v[i].clone());
            proof {
                assert(string_views(r@) =~= old_views.push(v@[i as int]@));
            }
        }
        i += 1;
    }
    proof {
        assert(string_views(v@).subrange(0, v@.len() as int) =~= string_views(v@));
    }
    r
}

/// The first listed path whose lowered form names a readme.
pub open spec fn readme_at(entries: Seq<(Seq<char>, bool)>, i: int) -> Option<Seq<char>>
    decreases entries.len() - i,
{
    if i < 0 || i >= entries.len() {
        None
    } else if ends_with_seq(lower_of(entries[i].0), "readme.md"@) {
        Some(entries[i].0)
    } else {
        readme_at(entries, i + 1)
    }
}

/// Finds the first readme in the flattened listing, if any.
pub fn find_readme(flat: &Vec<(String, bool)>) -> (r: Option<String>)
    ensures
        ({
            match r {
                Some(p) => readme_at(rows(flat@), 0) == Some(p@),
                None => readme_at(rows(flat@), 0) is None,
            }
        }),
{
    let marker = str_chars("readme.md");
    let mut i: usize = 0;
    while i < flat.len()
        invariant
            marker@ == "readme.md"@,
            rows(flat@).len() == flat@.len(),
            i <= flat@.len(),
            readme_at(rows(flat@), 0) == readme_at(rows(flat@), i as int),
        decreases flat@.len() - i,
    {
        proof {
            assert(rows(flat@)[i as int] == (flat@[i as int].0@, flat@[i as int].1));
        }
        let low = lowercase(flat[i].0.as_str());
        let lowc = str_chars(low.as_str());
        if ends_with_chars(&lowc, &marker) {
            proof {
                assert(readme_at(rows(flat@), i as int) == Some(flat@[i as int].0@));
            }
            return Some(flat[i].0.clone());
        }
        proof {
            assert(readme_at(rows(flat@), i as int) == readme_at(rows(flat@), i + 1));
        }
        i += 1;
    }
    None
}

/// The last segment of a `/`-joined path: the file's own name.
pub open spec fn last_seg(p: Seq<char>) -> Seq<char> {
    split_on(p, seq!['/']).last()
}

/// The file name at the end of a path.
pub fn file_name_of(path: &str) -> (r: String)
    ensures
        r@ == last_seg(path@),
{
    let chars = str_chars(path);
    let mut seps: Vec<char> = Vec::new();
    seps.push('/');
    proof {
        assert(seps@ =~= seq!['/']);
    }
    let segs = split_on_exec(&chars, &seps);
    proof {
        crate::text::lemma_split_on_nonempty(path@, seq!['/']);
        assert(segs.deep_view()[segs.deep_view().len() - 1] =~= segs@[segs@.len() - 1]@);
    }
    chars_string(&segs[segs.len() - 1])
}

/// The stages of one synthesis run, strictly in order.
pub enum SynthStage {
    Structure,
    PerFile,
    Final,
}

/// What happened when one key file was read and summarized: the file could
/// not be read at all, or it was read and the provider's summary either
/// arrived or failed.
pub enum FileOutcome {
    Unreadable,
    Read { content: String, summary: Option<String> },
}

/// One synthesis run: the flattened tree it works on, the key files the
/// selector chose, and everything collected so far.
pub struct DocSession {
    pub stage: SynthStage,
    pub project_name: String,
    pub flat: Vec<(String, bool)>,
    pub key_files: Vec<String>,
    pub next_file: usize,
    pub structure_summary: String,
    pub file_analyses: Vec<FileAnalysisDoc>,
}

impl DocSession {
    /// Opens a session in the structure stage.
    pub fn new(project_name: String, flat: Vec<(String, bool)>) -> (s: Self)
        ensures
            s.stage is Structure,
            s.project_name@ == project_name@,
            s.flat@ == flat@,
            s.key_files@.len() == 0,
            s.next_file == 0,
            s.structure_summary@ == Seq::<char>::empty(),
            s.file_analyses@.len() == 0,
    {
        DocSession {
            stage: SynthStage::Structure,
            project_name,
            flat,
            key_files: Vec::new(),
            next_file: 0,
            structure_summary: String::new(),
            file_analyses: Vec::new(),
        }
    }

    /// Closes the structure stage with the provider's architecture
    /// narrative — or an empty placeholder when the call failed — and
    /// opens the per-file stage on the selected key files; with nothing to
    /// select, the final stage opens at once.
    pub fn advance_structure(&mut self, summary: Option<String>)
        requires
            old(self).stage is Structure,
        ensures
            final(self).stage is Final <==> final(self).key_files@.len() == 0,
            !(final(self).stage is Final) ==> final(self).stage is PerFile,
            final(self).structure_summary@ == (match summary {
                Some(s) => s@,
                None => Seq::<char>::empty(),
            }),
            final(self).key_files@.len() == (if KEY_FILE_COUNT as int <= file_paths(
                old(self).flat@,
            ).len() {
                KEY_FILE_COUNT as int
            } else {
                file_paths(old(self).flat@).len() as int
            }),
            exists|m: Seq<int>|
                #[trigger] selection_witness(
                    file_paths(old(self).flat@),
                    m,
                    string_views(final(self).key_files@),
                    KEY_FILE_COUNT as int,
                ),
            final(self).next_file == 0,
            final(self).flat@ == old(self).flat@,
            final(self).project_name@ == old(self).project_name@,
            final(self).file_analyses@ == old(self).file_analyses@,
    {
        self.structure_summary = match summary {
            Some(s) => s,
            None => String::new(),
        };
        self.key_files = select_key_files(&self.flat, KEY_FILE_COUNT);
        let ghost m0 = choose|m: Seq<int>|
            selection_witness(
                file_paths(self.flat@),
                m,
                string_views(self.key_files@),
                KEY_FILE_COUNT as int,
            );
        self.next_file = 0;
        if self.key_files.len() == 0 {
            self.stage = SynthStage::Final;
        } else {
            self.stage = SynthStage::PerFile;
        }
        proof {
            assert(selection_witness(
                file_paths(self.flat@),
                m0,
                string_views(self.key_files@),
                KEY_FILE_COUNT as int,
            ));
        }
    }

    /// The key file the per-file stage wants next, while any is left.
    pub fn current_file(&self) -> (r: Option<String>)
        requires
            self.stage is PerFile,
        ensures
            ({
                if self.next_file < self.key_files@.len() {
                    r is Some && r.unwrap()@ == self.key_files@[self.next_file as int]@
                } else {
                    r is None
                }
            }),
    {
        if self.next_file < self.key_files.len() {
            Some(self.key_files[self.next_file].clone())
        } else {
            None
        }
    }

    /// Records one key file's outcome. An unreadable file keeps an empty
    /// description; a failed summary keeps a placeholder naming the path;
    /// a manifest file also yields its dependency names. The final stage
    /// opens when every selected file has been handled.
    pub fn record_file(&mut self, outcome: FileOutcome)
        requires
            old(self).stage is PerFile,
            old(self).next_file < old(self).key_files@.len(),
        ensures
            final(self).next_file == old(self).next_file + 1,
            final(self).stage is Final <==> old(self).next_file + 1 == old(
                self,
            ).key_files@.len(),
            !(final(self).stage is Final) ==> final(self).stage is PerFile,
            final(self).file_analyses@.len() == old(self).file_analyses@.len() + 1,
            forall|j: int|
                0 <= j < old(self).file_analyses@.len() ==> final(self).file_analyses@[j] == old(
                    self,
                ).file_analyses@[j],
            ({
                let d = final(self).file_analyses@.last();
                let path = old(self).key_files@[old(self).next_file as int]@;
                &&& d.path@ == path
                &&& d.name@ == last_seg(path)
                &&& d.relationships@.len() == 0
                &&& match outcome {
                    FileOutcome::Unreadable => d.description@ == Seq::<char>::empty()
                        && string_views(d.dependencies@) =~= Seq::<Seq<char>>::empty(),
                    FileOutcome::Read { content, summary } => {
                        &&& d.description@ == (match summary {
                            Some(s) => s@,
                            None => "No summary available for "@ + path,
                        })
                        &&& string_views(d.dependencies@) == (if last_seg(path)
                            == "package.json"@ {
                            pkg_deps(content@)
                        } else if last_seg(path) == "Cargo.toml"@ {
                            cargo_deps(content@)
                        } else {
                            Seq::<Seq<char>>::empty()
                        })
                    },
                }
            }),
            final(self).flat@ == old(self).flat@,
            final(self).key_files@ == old(self).key_files@,
            final(self).project_name@ == old(self).project_name@,
            final(self).structure_summary@ == old(self).structure_summary@,
    {
        let path = self.key_files[self.next_file].clone();
        let name = file_name_of(path.as_str());
        let doc = match outcome {
            FileOutcome::Unreadable => FileAnalysisDoc {
                path,
                name,
                description: String::new(),
                dependencies: Vec::new(),
                relationships: Vec::new(),
            },
            FileOutcome::Read { content, summary } => {
                let description = match summary {
                    Some(s) => s,
                    None => {
                        let mut d = String::new();
                        d.append("No summary available for ");
                        d.append(path.as_str());
                        d
                    },
                };
                let pkg = str_chars("package.json");
                let cargo = str_chars("Cargo.toml");
                let namec = str_chars(name.as_str());
                let dependencies = if crate::text::chars_eq(&namec, &pkg) {
                    package_json_dependencies(content.as_str())
                } else if crate::text::chars_eq(&namec, &cargo) {
                    cargo_toml_dependencies(content.as_str())
                } else {
                    let none: Vec<String> = Vec::new();
                    proof {
                        assert(string_views(none@) =~= Seq::<Seq<char>>::empty());
                    }
                    none
                };
                FileAnalysisDoc { path, name, description, dependencies, relationships: Vec::new() }
            },
        };
        let klen = self.key_files.len();
        proof {
            assert(self.next_file < klen);
        }
        self.file_analyses.push(doc);
        self.next_file = self.next_file + 1;
        if self.next_file == klen {
            self.stage = SynthStage::Final;
        }
    }

    /// All dependency names collected so far, in order of collection.
    pub fn collected_deps(&self) -> (r: Vec<String>)
        ensures
            string_views(r@) == all_deps(self.file_analyses@),
    {
        let mut r: Vec<String> = Vec::new();
        let mut i: usize = 0;
        proof {
            assert(self.file_analyses@.subrange(0, 0) =~= Seq::<FileAnalysisDoc>::empty());
            assert(string_views(r@) =~= all_deps(self.file_analyses@.subrange(0, 0)));
        }
        while i < self.file_analyses.len()
            invariant
                i <= self.file_analyses@.len(),
                string_views(r@) == all_deps(self.file_analyses@.subrange(0, i as int)),
            decreases self.file_analyses@.len() - i,
        {
            let ghost pre = self.file_analyses@.subrange(0, i as int);
            let ghost post = self.file_analyses@.subrange(0, i + 1 as int);
            proof {
                assert(post.drop_last() =~= pre);
                assert(post.last() == self.file_analyses@[i as int]);
            }
            let deps = &self.file_analyses[i].dependencies;
            let mut j: usize = 0;
            let ghost base_views = string_views(r@);
            while j < deps.len()
                invariant
                    j <= deps@.len(),
                    string_views(r@) =~= base_views + string_views(deps@).subrange(
                        0,
                        j as int,
                    ),
                decreases deps@.len() - j,
            {
                let ghost old_views = string_views(r@);
                r.push(deps[j].clone());
                proof {
                    assert(string_views(r@) =~= old_views.push(deps@[j as int]@));
                    assert(string_views(deps@).subrange(0, j + 1 as int) =~= string_views(
                        deps@,
                    ).subrange(0, j as int).push(string_views(deps@)[j as int]));
                }
                j += 1;
            }
            proof {
                assert(string_views(deps@).subrange(0, deps@.len() as int) =~= string_views(
                    deps@,
                ));
                assert(string_views(r@) =~= base_views + string_views(
                    self.file_analyses@[i as int].dependencies@,
                ));
            }
            i += 1;
        }
        proof {
            assert(self.file_analyses@.subrange(0, self.file_analyses@.len() as int)
                =~= self.file_analyses@);
        }
        r
    }

    /// Closes the session: the final document carries the project name,
    /// the synthesis text — or the fixed placeholder when the final call
    /// failed — the architecture narrative, the per-file analyses, their
    /// dependencies deduplicated in first-seen order, and the setup
    /// instructions.
    pub fn finish(self, final_text: Option<String>, setup_instructions: String) -> (doc:
        ProjectDocumentation)
        requires
            self.stage is Final,
        ensures
            doc.project_name@ == self.project_name@,
            doc.description@ == (match final_text {
                Some(t) => t@,
                None => "No documentation available."@,
            }),
            doc.architecture@ == self.structure_summary@,
            doc.file_analyses@ == self.file_analyses@,
            string_views(doc.dependencies@) == dedup_spec(all_deps(self.file_analyses@)),
            doc.setup_instructions@ == setup_instructions@,
    {
        let deps = self.collected_deps();
        let dependencies = dedup_strings(&deps);
        let description = match final_text {
            Some(t) => t,
            None => {
                let mut d = String::new();
                d.append("No documentation available.");
                d
            },
        };
        ProjectDocumentation {
            project_name: self.project_name,
            description,
            architecture: self.structure_summary,
            file_analyses: self.file_analyses,
            dependencies,
            setup_instructions,
        }
    }
}

/// Every dependency name of the collected analyses, in collection order.
pub open spec fn all_deps(docs: Seq<FileAnalysisDoc>) -> Seq<Seq<char>>
    decreases docs.len(),
{
    if docs.len() == 0 {
        Seq::<Seq<char>>::empty()
    } else {
        all_deps(docs.drop_last()) + string_views(docs.last().dependencies@)
    }
}

} // verus!
