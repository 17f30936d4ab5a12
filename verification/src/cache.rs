//! The content-addressed analysis cache. A record's identity is the hex
//! digest of its `(path, content)` pair; a pair whose key is present is
//! answered from the cache without any provider call, so each distinct
//! pair triggers at most one analysis for the lifetime of the cache. The
//! map itself is a concurrency-safe map with insert-if-absent semantics.

use vstd::prelude::*;
use sha2::Digest;
use crate::respond::sanitize_response;
use crate::respond::sanitized;
use crate::text::chars_string;
use crate::text::lines_of;
use crate::text::split_lines;
use crate::text::split_on;
use crate::text::split_on_exec;
use crate::text::str_chars;
use crate::text::string_views;
use crate::text::trim_chars;
use crate::text::trim_spec;

verus! {

/// One per-file analysis: the detected language, the provider's purpose
/// text, the parsed dependency list, the time of analysis, and the raw
/// content analyzed.
#[derive(Clone)]
pub struct FileAnalysis {
    pub language: String,
    pub file_purpose: String,
    pub dependencies: Vec<String>,
    pub analysis_time: String,
    pub contents: String,
}

/// The mathematical content of a record.
pub open spec fn record_view(r: FileAnalysis) -> (
    Seq<char>,
    Seq<char>,
    Seq<Seq<char>>,
    Seq<char>,
    Seq<char>,
) {
    (r.language@, r.file_purpose@, string_views(r.dependencies@), r.analysis_time@, r.contents@)
}

/// The digest that identifies a `(path, content)` pair.
pub uninterp spec fn digest_of(path: Seq<char>, content: Seq<char>) -> Seq<u8>;

/// Relies on sha2::Sha256 (the `Digest` trait): the digest depends on the
/// fed bytes alone, and is 32 bytes long.
#[verifier::external_body]
fn sha256_pair(path: &str, content: &str) -> (r: Vec<u8>)
    ensures
        r@ == digest_of(path@, content@),
        r@.len() == 32,
{
    let mut h = sha2::Sha256::new();
    h.update(path.as_bytes());
    h.update(content.as_bytes());
    h.finalize().to_vec()
}

/// The lower-case hex digit for `d`.
pub open spec fn hex_char(d: int) -> char {
    if d < 10 {
        (48 + d) as char
    } else {
        (87 + d) as char
    }
}

/// The lower-case hex encoding of `bs`, two digits per byte.
pub open spec fn hex_of(bs: Seq<u8>) -> Seq<char>
    decreases bs.len(),
{
    if bs.len() == 0 {
        Seq::<char>::empty()
    } else {
        hex_of(bs.drop_last()) + seq![
            hex_char(bs.last() as int / 16),
            hex_char(bs.last() as int % 16),
        ]
    }
}

/// Encodes bytes as lower-case hex.
pub fn to_hex(bs: &Vec<u8>) -> (r: String)
    ensures
        r@ == hex_of(bs@),
{
    let mut out: Vec<char> = Vec::new();
    let mut i: usize = 0;
    proof {
        assert(bs@.subrange(0, 0) =~= Seq::<u8>::empty());
        assert(out@ =~= hex_of(bs@.subrange(0, 0)));
    }
    while i < bs.len()
        invariant
            i <= bs@.len(),
            out@ == hex_of(bs@.subrange(0, i as int)),
        decreases bs@.len() - i,
    {
        let ghost pre = bs@.subrange(0, i as int);
        let ghost post = bs@.subrange(0, i + 1 as int);
        proof {
            assert(post.drop_last() =~= pre);
            assert(post.last() == bs@[i as int]);
        }
        let b = bs[i];
        let hi: u8 = b / 16;
        let lo: u8 = b % 16;
        let hc: char = if hi < 10 {
            (48 + hi) as char
        } else {
            (87 + hi) as char
        };
        let lc: char = if lo < 10 {
            (48 + lo) as char
        } else {
            (87 + lo) as char
        };
        out.push(hc);
        out.push(lc);
        proof {
            assert(hc == hex_char(bs@[i as int] as int / 16));
            assert(lc == hex_char(bs@[i as int] as int % 16));
            assert(out@ =~= hex_of(pre) + seq![
                hex_char(post.last() as int / 16),
                hex_char(post.last() as int % 16),
            ]);
        }
        i += 1;
    }
    proof {
        assert(bs@.subrange(0, bs@.len() as int) =~= bs@);
    }
    chars_string(&out)
}

/// The cache key of a `(path, content)` pair: the hex form of its digest.
pub open spec fn cache_key_of(path: Seq<char>, content: Seq<char>) -> Seq<char> {
    hex_of(digest_of(path, content))
}

/// Computes the cache key of a pair.
pub fn compute_cache_key(path: &str, content: &str) -> (r: String)
    ensures
        r@ == cache_key_of(path@, content@),
{
    let digest = sha256_pair(path, content);
    to_hex(&digest)
}

/// The concurrency-safe analysis store: a shard-locked map from hex keys
/// to records, safe for reads and inserts from concurrent requests.
#[verifier::external_body]
pub struct CacheMap {
    inner: dashmap::DashMap<String, FileAnalysis>,
}

/// What the cache holds: the stored record content under each key.
pub uninterp spec fn cache_entries(m: CacheMap) -> Map<
    Seq<char>,
    (Seq<char>, Seq<char>, Seq<Seq<char>>, Seq<char>, Seq<char>),
>;

/// Whether the cache holds nothing.
pub open spec fn cache_is_empty(m: CacheMap) -> bool {
    cache_entries(m) =~= Map::empty()
}

impl CacheMap {
    /// Relies on dashmap::DashMap::new: the new map holds nothing.
    #[verifier::external_body]
    pub fn new() -> (r: Self)
        ensures
            cache_is_empty(r),
    {
        CacheMap { inner: dashmap::DashMap::new() }
    }

    /// Relies on dashmap::DashMap::get: yields a copy of the record stored
    /// under `key`, exactly when one is stored.
    #[verifier::external_body]
    pub fn get(&self, key: &String) -> (r: Option<FileAnalysis>)
        ensures
            ({
                match r {
                    Some(rec) => cache_entries(*self).dom().contains(key@) && record_view(rec)
                        == cache_entries(*self)[key@],
                    None => !cache_entries(*self).dom().contains(key@),
                }
            }),
    {
        self.inner.get(key).map(|e| e.value().clone())
    }

    /// Relies on dashmap::DashMap::insert: stores the record under `key`,
    /// replacing any previous one.
    #[verifier::external_body]
    pub fn insert(&mut self, key: String, value: FileAnalysis)
        ensures
            cache_entries(*final(self)) == cache_entries(*old(self)).insert(
                key@,
                record_view(value),
            ),
    {
        self.inner.insert(key, value);
    }
}

/// Relies on chrono::Utc::now and its RFC 3339 rendering; the result
/// depends on the clock, so nothing is promised of it.
#[verifier::external_body]
pub fn now_rfc3339() -> (r: String) {
    chrono::Utc::now().to_rfc3339()
}

/// `l` with its leading dashes removed.
pub open spec fn strip_dashes(l: Seq<char>) -> Seq<char>
    decreases l.len(),
{
    if l.len() > 0 && l[0] == '-' {
        strip_dashes(l.drop_first())
    } else {
        l
    }
}

/// The dependency names in a sanitized reply: each line that starts with
/// a dash, its dashes stripped and the rest trimmed, in order.
pub open spec fn dep_lines(text: Seq<char>) -> Seq<Seq<char>> {
    lines_of(text).filter(|l: Seq<char>| l.len() > 0 && l[0] == '-').map_values(
        |l: Seq<char>| trim_spec(strip_dashes(l)),
    )
}

/// The dependencies parsed from a raw provider reply: the reply is
/// sanitized first, then its dash lines are read.
pub open spec fn parsed_deps(raw: Seq<char>) -> Seq<Seq<char>> {
    dep_lines(sanitized(raw))
}

fn strip_dashes_exec(l: &Vec<char>) -> (r: Vec<char>)
    ensures
        r@ == strip_dashes(l@),
{
    let mut from: usize = 0;
    proof {
        assert(l@.skip(0) =~= l@);
    }
    while from < l.len() && l[from] == '-'
        invariant
            from <= l@.len(),
            strip_dashes(l@) == strip_dashes(l@.skip(from as int)),
        decreases l@.len() - from,
    {
        proof {
            let cur = l@.skip(from as int);
            assert(cur[0] == l@[from as int]);
            assert(cur.drop_first() =~= l@.skip(from + 1));
        }
        from += 1;
    }
    let mut r: Vec<char> = Vec::new();
    let mut i: usize = from;
    while i < l.len()
        invariant
            from <= i <= l@.len(),
            r@ =~= l@.subrange(from as int, i as int),
        decreases l@.len() - i,
    {
        r.push(l[i]);
        assert(l@.subrange(from as int, i + 1 as int) =~= l@.subrange(from as int, i as int).push(
            l@[i as int],
        ));
        i += 1;
    }
    proof {
        let cur = l@.skip(from as int);
        if from < l@.len() {
            assert(cur[0] == l@[from as int]);
            assert(strip_dashes(cur) == cur);
        } else {
            assert(cur.len() == 0);
            assert(strip_dashes(cur) == cur);
        }
        assert(r@ =~= cur);
    }
    r
}

/// Parses the dependency list out of a raw provider reply.
pub fn parse_dependencies(raw: &str) -> (r: Vec<String>)
    ensures
        string_views(r@) == parsed_deps(raw@),
{
    let clean = sanitize_response(raw);
    let chars = str_chars(clean.as_str());
    let lines = split_lines(&chars);
    let mut deps: Vec<String> = Vec::new();
    let mut i: usize = 0;
    proof {
        reveal(Seq::filter);
        assert(lines.deep_view().subrange(0, 0) =~= Seq::<Seq<char>>::empty());
        assert(string_views(deps@) =~= lines.deep_view().subrange(0, 0).filter(
            |l: Seq<char>| l.len() > 0 && l[0] == '-',
        ).map_values(|l: Seq<char>| trim_spec(strip_dashes(l))));
    }
    while i < lines.len()
        invariant
            lines.deep_view().len() == lines@.len(),
            i <= lines@.len(),
            string_views(deps@) == lines.deep_view().subrange(0, i as int).filter(
                |l: Seq<char>| l.len() > 0 && l[0] == '-',
            ).map_values(|l: Seq<char>| trim_spec(strip_dashes(l))),
        decreases lines@.len() - i,
    {
        let ghost pre = lines.deep_view().subrange(0, i as int);
        let ghost post = lines.deep_view().subrange(0, i + 1 as int);
        proof {
            reveal(Seq::filter);
            assert(post.drop_last() =~= pre);
            assert(post.last() == lines.deep_view()[i as int]);
            assert(lines.deep_view()[i as int] =~= lines@[i as int]@);
        }
        let line = &lines[i];
        if line.len() > 0 && line[0] == '-' {
            let stripped = strip_dashes_exec(line);
            let trimmed = trim_chars(&stripped);
            let ghost old_views = string_views(deps@);
            deps.push(chars_string(&trimmed));
            proof {
                assert(trimmed@ == trim_spec(strip_dashes(post.last())));
                assert(string_views(deps@) =~= old_views.push(
                    trim_spec(strip_dashes(post.last())),
                ));
                assert(post.last().len() > 0 && post.last()[0] == '-');
                assert(post.filter(|l: Seq<char>| l.len() > 0 && l[0] == '-') == pre.filter(
                    |l: Seq<char>| l.len() > 0 && l[0] == '-',
                ).push(post.last()));
                assert(pre.filter(|l: Seq<char>| l.len() > 0 && l[0] == '-').push(
                    post.last(),
                ).map_values(|l: Seq<char>| trim_spec(strip_dashes(l))) =~= pre.filter(
                    |l: Seq<char>| l.len() > 0 && l[0] == '-',
                ).map_values(|l: Seq<char>| trim_spec(strip_dashes(l))).push(
                    trim_spec(strip_dashes(post.last())),
                ));
            }
        } else {
            proof {
                assert(!(post.last().len() > 0 && post.last()[0] == '-'));
                assert(post.filter(|l: Seq<char>| l.len() > 0 && l[0] == '-') == pre.filter(
                    |l: Seq<char>| l.len() > 0 && l[0] == '-',
                ));
            }
        }
        i += 1;
    }
    proof {
        assert(lines.deep_view().subrange(0, lines@.len() as int) =~= lines.deep_view());
        assert(lines_of(clean@) == lines.deep_view());
    }
    deps
}

/// The file's language as read from its path: the extension of its last
/// path segment — what follows the segment's last dot, a leading dot not
/// counting — or `unknown` when it has none.
pub open spec fn ext_helper(name: Seq<char>, i: int) -> Option<Seq<char>>
    decreases i,
{
    if i <= 0 {
        None
    } else if name[i] == '.' {
        Some(name.skip(i + 1))
    } else {
        ext_helper(name, i - 1)
    }
}

pub open spec fn language_of(path: Seq<char>) -> Seq<char> {
    let segs = split_on(path, seq!['/']);
    let name = segs.last();
    match ext_helper(name, name.len() - 1) {
        Some(e) => e,
        None => "unknown"@,
    }
}

/// Detects the language of a file from its path.
pub fn detect_language(path: &str) -> (r: String)
    ensures
        r@ == language_of(path@),
{
    let chars = str_chars(path);
    let mut seps: Vec<char> = Vec::new();
    seps.push('/');
    proof {
        assert(seps@ =~= seq!['/']);
    }
    let segs = split_on_exec(&chars, &seps);
    proof {
        crate::text::lemma_split_on_nonempty(path@, seq!['/']);
    }
    let name = &segs[segs.len() - 1];
    let ghost nview = split_on(path@, seq!['/']).last();
    proof {
        assert(segs.deep_view()[segs@.len() - 1] =~= name@);
        assert(name@ == nview);
    }
    let mut i: usize = name.len();
    while i > 1
        invariant
            i <= name@.len(),
            name@ == nview,
            nview == split_on(path@, seq!['/']).last(),
            ext_helper(nview, nview.len() - 1) == ext_helper(nview, i - 1),
        decreases i,
    {
        i -= 1;
        if name[i] == '.' {
            let mut e: Vec<char> = Vec::new();
            let mut k: usize = i + 1;
            while k < name.len()
                invariant
                    name@ == nview,
                    nview == split_on(path@, seq!['/']).last(),
                    i + 1 < name@.len() || i + 1 == k,
                    ext_helper(nview, nview.len() - 1) == ext_helper(nview, i as int),
                    i + 1 <= k <= name@.len(),
                    name@[i as int] == '.',
                    1 <= i,
                    e@ =~= name@.subrange(i + 1, k as int),
                decreases name@.len() - k,
            {
                e.push(name[k]);
                assert(name@.subrange(i + 1, k + 1 as int) =~= name@.subrange(
                    i + 1,
                    k as int,
                ).push(name@[k as int]));
                k += 1;
            }
            proof {
                assert(e@ =~= nview.skip(i + 1));
                assert(ext_helper(nview, i as int) == Some(nview.skip(i + 1)));
            }
            return chars_string(&e);
        }
        proof {
            assert(ext_helper(nview, i as int) == ext_helper(nview, i - 1));
        }
    }
    proof {
        if nview.len() > 0 {
            assert(ext_helper(nview, 0) is None);
        }
        assert(ext_helper(nview, nview.len() - 1) is None);
    }
    let mut r = String::new();
    r.append("unknown");
    proof {
        reveal_strlit("unknown");
    }
    r
}

/// What an analysis lookup found: the stored record, or the key to store
/// a fresh analysis under after the provider has been asked.
pub enum AnalysisQuery {
    Cached(FileAnalysis),
    Needs { key: String },
}

/// Looks a pair up by its content digest. A hit returns the stored record
/// and requires no provider call; a miss returns the key the caller must
/// store the fresh analysis under.
pub fn prepare_analysis(cache: &CacheMap, path: &str, content: &str) -> (r: AnalysisQuery)
    ensures
        ({
            let k = cache_key_of(path@, content@);
            match r {
                AnalysisQuery::Cached(rec) => cache_entries(*cache).dom().contains(k)
                    && record_view(rec) == cache_entries(*cache)[k],
                AnalysisQuery::Needs { key } => key@ == k && !cache_entries(*cache).dom().contains(
                    k,
                ),
            }
        }),
{
    let key = compute_cache_key(path, content);
    match cache.get(&key) {
        Some(rec) => AnalysisQuery::Cached(rec),
        None => AnalysisQuery::Needs { key },
    }
}

/// Assembles a fresh analysis from the provider's two replies and stores
/// it under `key`: the language from the path, the sanitized purpose text,
/// the parsed dependencies, and the analyzed content.
pub fn finish_analysis(
    cache: &mut CacheMap,
    key: String,
    path: &str,
    content: &str,
    purpose_text: &str,
    deps_text: &str,
) -> (r: FileAnalysis)
    ensures
        r.language@ == language_of(path@),
        r.file_purpose@ == sanitized(purpose_text@),
        string_views(r.dependencies@) == parsed_deps(deps_text@),
        r.contents@ == content@,
        cache_entries(*final(cache)) == cache_entries(*old(cache)).insert(
            key@,
            record_view(r),
        ),
{
    let language = detect_language(path);
    let file_purpose = sanitize_response(purpose_text);
    let dependencies = parse_dependencies(deps_text);
    let analysis_time = now_rfc3339();
    let mut contents = String::new();
    contents.append(content);
    let record = FileAnalysis { language, file_purpose, dependencies, analysis_time, contents };
    let stored = FileAnalysis {
        language: record.language.clone(),
        file_purpose: record.file_purpose.clone(),
        dependencies: clone_strings(&record.dependencies),
        analysis_time: record.analysis_time.clone(),
        contents: record.contents.clone(),
    };
    proof {
        assert(record_view(stored) == record_view(record));
    }
    cache.insert(key, stored);
    record
}

/// A copy of a list of strings, with the same views.
fn clone_strings(v: &Vec<String>) -> (r: Vec<String>)
    ensures
        string_views(r@) == string_views(v@),
        r@.len() == v@.len(),
{
    let mut r: Vec<String> = Vec::new();
    let mut i: usize = 0;
    while i < v.len()
        invariant
            i <= v@.len(),
            r@.len() == i,
            forall|j: int| 0 <= j < i ==> (#[trigger] r@[j])@ == v@[j]@,
        decreases v@.len() - i,
    {
        r.push(v[i].clone());
        i += 1;
    }
    proof {
        assert(string_views(r@) =~= string_views(v@));
    }
    r
}

/// At-most-once per pair: once an analysis of `(path, content)` is stored,
/// the key its digest yields is present, so a later lookup of the same
/// pair is a cache hit and triggers no further provider call.
pub proof fn lemma_analyze_at_most_once(
    entries: Map<Seq<char>, (Seq<char>, Seq<char>, Seq<Seq<char>>, Seq<char>, Seq<char>)>,
    stored: (Seq<char>, Seq<char>, Seq<Seq<char>>, Seq<char>, Seq<char>),
    path: Seq<char>,
    content: Seq<char>,
)
    ensures
        entries.insert(cache_key_of(path, content), stored).dom().contains(
            cache_key_of(path, content),
        ),
        entries.insert(cache_key_of(path, content), stored)[cache_key_of(path, content)]
            == stored,
{
}

} // verus!
