//! Archive extraction: reading the entries of an uploaded zip archive and
//! turning them into a write plan whose every path has been sanitized, so
//! that writing the plan below a destination directory can never escape it.
//! Parsing the archive bytes is entrusted to the `zip` crate; everything
//! after the raw entries is verified.

use vstd::prelude::*;
use crate::errors::AppError;
use crate::paths::path_is_safe;
use crate::paths::lemma_sanitized_path_is_safe;
use crate::paths::sanitize_entry_name;
use crate::paths::sanitize_spec;
use crate::text::chars_string;
use crate::text::str_chars;

verus! {

/// One entry of an uploaded archive: a stored name that must never be
/// trusted as a filesystem path, a directory flag, and the entry's bytes
/// (empty for directories).
pub struct ArchiveEntry {
    pub name: String,
    pub is_dir: bool,
    pub data: Vec<u8>,
}

impl View for ArchiveEntry {
    type V = (Seq<char>, bool, Seq<u8>);

    open spec fn view(&self) -> (Seq<char>, bool, Seq<u8>) {
        (self.name@, self.is_dir, self.data@)
    }
}

#[verifier::external_type_specification]
#[verifier::external_body]
#[verifier::reject_recursive_types(R)]
pub struct ExZipArchive<R>(zip::ZipArchive<R>);

#[verifier::external_type_specification]
#[verifier::external_body]
#[verifier::reject_recursive_types(T)]
pub struct ExCursor<T>(std::io::Cursor<T>);

/// The entry table that parsing the archive yields — each entry's stored
/// name and directory flag, in archive order — or nothing when the bytes
/// are not a valid archive.
pub uninterp spec fn zip_entry_table(bytes: Seq<u8>) -> Option<Seq<(Seq<char>, bool)>>;

/// The bytes that reading entry `i` of the archive yields: empty for a
/// directory entry, nothing when the entry's data cannot be decompressed.
pub uninterp spec fn zip_entry_payload(bytes: Seq<u8>, i: int) -> Option<Seq<u8>>;

/// The entry table held by an opened archive value.
pub uninterp spec fn archive_entries(a: zip::ZipArchive<std::io::Cursor<Vec<u8>>>) -> Seq<
    (Seq<char>, bool),
>;

/// What reading entry `i` of an opened archive value yields.
pub uninterp spec fn archive_payload(a: zip::ZipArchive<std::io::Cursor<Vec<u8>>>, i: int) -> Option<
    Seq<u8>,
>;

/// Relies on zip::ZipArchive::new: parses the archive's central directory.
/// It succeeds exactly when the bytes form a valid archive, and the table
/// it holds is a function of the bytes alone.
#[verifier::external_body]
fn open_archive(bytes: Vec<u8>) -> (r: Result<
    zip::ZipArchive<std::io::Cursor<Vec<u8>>>,
    AppError,
>)
    ensures
        r is Ok <==> zip_entry_table(bytes@) is Some,
        r is Ok ==> archive_entries(r->Ok_0) == zip_entry_table(bytes@).unwrap(),
        r is Ok ==> forall|i: int|
            archive_payload(r->Ok_0, i) == zip_entry_payload(bytes@, i),
        r is Err ==> r->Err_0 is UploadError,
{
    match zip::ZipArchive::new(std::io::Cursor::new(bytes)) {
        Ok(a) => Ok(a),
        Err(e) => Err(AppError::UploadError(e.to_string())),
    }
}

/// Relies on zip::ZipArchive::len: the number of entries in the table.
#[verifier::external_body]
fn archive_len(a: &zip::ZipArchive<std::io::Cursor<Vec<u8>>>) -> (r: usize)
    ensures
        r == archive_entries(*a).len(),
{
    a.len()
}

/// Relies on zip::ZipArchive::by_index and the entry's `name` and `is_dir`
/// accessors, and on the standard reader for the entry's bytes: yields
/// entry `i`'s stored name, kind, and decompressed bytes. Reading moves
/// the archive's cursor but leaves its table and payloads unchanged.
#[verifier::external_body]
fn read_entry(a: &mut zip::ZipArchive<std::io::Cursor<Vec<u8>>>, i: usize) -> (r: Result<
    ArchiveEntry,
    AppError,
>)
    requires
        i < archive_entries(*old(a)).len(),
    ensures
        archive_entries(*final(a)) == archive_entries(*old(a)),
        forall|j: int| archive_payload(*final(a), j) == archive_payload(*old(a), j),
        r is Ok <==> archive_payload(*old(a), i as int) is Some,
        r is Ok ==> r->Ok_0@ == (
            archive_entries(*old(a))[i as int].0,
            archive_entries(*old(a))[i as int].1,
            archive_payload(*old(a), i as int).unwrap(),
        ),
        r is Err ==> r->Err_0 is UploadError,
{
    let mut file = match a.by_index(i) {
        Ok(f) => f,
        Err(e) => {
            return Err(AppError::UploadError(e.to_string()));
        },
    };
    let name = file.name().to_string();
    let is_dir = file.is_dir();
    let mut data: Vec<u8> = Vec::new();
    if !is_dir {
        if let Err(e) = std::io::Read::read_to_end(&mut file, &mut data) {
            return Err(AppError::UploadError(e.to_string()));
        }
    }
    Ok(ArchiveEntry { name, is_dir, data })
}

/// The views of the entries in a row of archive entries.
pub open spec fn entry_views(es: Seq<ArchiveEntry>) -> Seq<(Seq<char>, bool, Seq<u8>)> {
    es.map_values(|e: ArchiveEntry| e@)
}

/// The full contents of a valid archive: each table entry paired with its
/// payload.
pub open spec fn table_views(bytes: Seq<u8>) -> Seq<(Seq<char>, bool, Seq<u8>)> {
    Seq::new(
        zip_entry_table(bytes).unwrap().len(),
        |i: int|
            (
                zip_entry_table(bytes).unwrap()[i].0,
                zip_entry_table(bytes).unwrap()[i].1,
                zip_entry_payload(bytes, i).unwrap(),
            ),
    )
}

/// Reads every entry of the archive held in `bytes`. It fails exactly when
/// the bytes are not a valid archive or some entry cannot be read; on
/// success the entries are the archive's full contents, in archive order.
pub fn read_archive(bytes: Vec<u8>) -> (r: Result<Vec<ArchiveEntry>, AppError>)
    ensures
        r is Ok <==> zip_entry_table(bytes@) is Some && (forall|i: int|
            0 <= i < zip_entry_table(bytes@).unwrap().len() ==> zip_entry_payload(
                bytes@,
                i,
            ) is Some),
        r is Ok ==> entry_views(r->Ok_0@) == table_views(bytes@),
        r is Err ==> r->Err_0 is UploadError,
{
    let ghost bytes_view = bytes@;
    let mut a = match open_archive(bytes) {
        Ok(a) => a,
        Err(e) => {
            return Err(e);
        },
    };
    let n = archive_len(&a);
    let mut out: Vec<ArchiveEntry> = Vec::new();
    let mut i: usize = 0;
    while i < n
        invariant
            bytes_view == bytes@,
            n == archive_entries(a).len(),
            zip_entry_table(bytes_view) is Some,
            archive_entries(a) == zip_entry_table(bytes_view).unwrap(),
            forall|j: int| archive_payload(a, j) == zip_entry_payload(bytes_view, j),
            i <= n,
            out@.len() == i,
            forall|j: int| 0 <= j < i ==> (#[trigger] zip_entry_payload(bytes_view, j)) is Some,
            forall|j: int| 0 <= j < i ==> (#[trigger] out@[j])@ == table_views(bytes_view)[j],
        decreases n - i,
    {
        match read_entry(&mut a, i) {
            Ok(e) => {
                let ghost e_view = e@;
                let ghost old_out = out@;
                proof {
                    assert(e_view == table_views(bytes_view)[i as int]);
                    assert(zip_entry_payload(bytes_view, i as int) is Some);
                }
                out.push(e);
                proof {
                    assert forall|j: int|
                        0 <= j < i + 1 implies (#[trigger] zip_entry_payload(
                        bytes_view,
                        j,
                    )) is Some by {}
                    assert forall|j: int|
                        0 <= j < i + 1 implies (#[trigger] out@[j])@ == table_views(
                        bytes_view,
                    )[j] by {
                        if j == i {
                            assert(out@[j] == e);
                            assert(out@[j]@ == e_view);
                        } else {
                            assert(out@[j] == old_out[j]);
                        }
                    }
                }
            },
            Err(err) => {
                proof {
                    assert(zip_entry_payload(bytes_view, i as int) is None);
                    assert(0 <= i < zip_entry_table(bytes_view).unwrap().len());
                }
                return Err(err);
            },
        }
        i += 1;
    }
    proof {
        assert(entry_views(out@) =~= table_views(bytes_view));
    }
    Ok(out)
}

/// A plan of writes below a destination directory: directories to create,
/// files to write, and the relative paths of everything extracted, in
/// archive order. Every path has been sanitized.
pub struct ExtractionPlan {
    pub dirs: Vec<String>,
    pub files: Vec<(String, Vec<u8>)>,
    pub paths: Vec<String>,
}

/// The sanitized name of an entry view.
pub open spec fn sanitized_name(e: (Seq<char>, bool, Seq<u8>)) -> Seq<char> {
    sanitize_spec(e.0)
}

/// The relative paths a row of entries extracts to: the sanitized names,
/// in order, with entries whose names sanitize to nothing dropped.
pub open spec fn plan_paths(es: Seq<(Seq<char>, bool, Seq<u8>)>) -> Seq<Seq<char>> {
    es.map_values(|e: (Seq<char>, bool, Seq<u8>)| sanitized_name(e)).filter(
        |p: Seq<char>| p.len() > 0,
    )
}

/// The directories a row of entries creates.
pub open spec fn plan_dirs(es: Seq<(Seq<char>, bool, Seq<u8>)>) -> Seq<Seq<char>> {
    es.filter(|e: (Seq<char>, bool, Seq<u8>)| e.1 && sanitized_name(e).len() > 0).map_values(
        |e: (Seq<char>, bool, Seq<u8>)| sanitized_name(e),
    )
}

/// The file writes a row of entries performs: sanitized path and bytes.
pub open spec fn plan_files(es: Seq<(Seq<char>, bool, Seq<u8>)>) -> Seq<(Seq<char>, Seq<u8>)> {
    es.filter(|e: (Seq<char>, bool, Seq<u8>)| !e.1 && sanitized_name(e).len() > 0).map_values(
        |e: (Seq<char>, bool, Seq<u8>)| (sanitized_name(e), e.2),
    )
}

impl ExtractionPlan {
    /// Whether this plan matches a row of entries and holds only safe paths.
    pub open spec fn matches(&self, es: Seq<(Seq<char>, bool, Seq<u8>)>) -> bool {
        &&& self.paths@.map_values(|p: String| p@) == plan_paths(es)
        &&& self.dirs@.map_values(|p: String| p@) == plan_dirs(es)
        &&& self.files@.map_values(|f: (String, Vec<u8>)| (f.0@, f.1@)) == plan_files(es)
    }

    /// Whether every path the plan touches is safe below the destination.
    pub open spec fn all_safe(&self) -> bool {
        &&& forall|i: int| 0 <= i < self.paths@.len() ==> path_is_safe(#[trigger] self.paths@[i]@)
        &&& forall|i: int| 0 <= i < self.dirs@.len() ==> path_is_safe(#[trigger] self.dirs@[i]@)
        &&& forall|i: int|
            0 <= i < self.files@.len() ==> path_is_safe(#[trigger] self.files@[i].0@)
    }
}

/// Turns archive entries into a write plan, sanitizing every stored name.
/// Entries whose names sanitize to nothing are dropped; every path in the
/// plan is safe below the destination.
pub fn extraction_plan(entries: &Vec<ArchiveEntry>) -> (r: ExtractionPlan)
    ensures
        r.matches(entry_views(entries@)),
        r.all_safe(),
{
    let mut plan = ExtractionPlan { dirs: Vec::new(), files: Vec::new(), paths: Vec::new() };
    let mut i: usize = 0;
    let ghost fpath = |p: Seq<char>| p.len() > 0;
    let ghost fdir = |e: (Seq<char>, bool, Seq<u8>)| e.1 && sanitized_name(e).len() > 0;
    let ghost ffile = |e: (Seq<char>, bool, Seq<u8>)| !e.1 && sanitized_name(e).len() > 0;
    proof {
        reveal(Seq::filter);
        assert(entry_views(entries@.subrange(0, 0)) =~= Seq::<(Seq<char>, bool, Seq<u8>)>::empty());
        assert(plan.paths@.map_values(|p: String| p@) =~= plan_paths(
            entry_views(entries@.subrange(0, 0)),
        ));
        assert(plan.dirs@.map_values(|p: String| p@) =~= plan_dirs(
            entry_views(entries@.subrange(0, 0)),
        ));
        assert(plan.files@.map_values(|f: (String, Vec<u8>)| (f.0@, f.1@)) =~= plan_files(
            entry_views(entries@.subrange(0, 0)),
        ));
    }
    while i < entries.len()
        invariant
            i <= entries@.len(),
            plan.paths@.map_values(|p: String| p@) == plan_paths(
                entry_views(entries@.subrange(0, i as int)),
            ),
            plan.dirs@.map_values(|p: String| p@) == plan_dirs(
                entry_views(entries@.subrange(0, i as int)),
            ),
            plan.files@.map_values(|f: (String, Vec<u8>)| (f.0@, f.1@)) == plan_files(
                entry_views(entries@.subrange(0, i as int)),
            ),
            plan.all_safe(),
        decreases entries@.len() - i,
    {
        let ghost pre = entry_views(entries@.subrange(0, i as int));
        let ghost post = entry_views(entries@.subrange(0, i + 1 as int));
        let ghost ev = entries@[i as int]@;
        proof {
            assert(entries@.subrange(0, i + 1 as int).drop_last() =~= entries@.subrange(
                0,
                i as int,
            ));
            assert(post.drop_last() =~= pre);
            assert(post.last() == ev);
            reveal(Seq::filter);
        }
        let entry = &entries[i];
        let name_chars = str_chars(entry.name.as_str());
        let clean = sanitize_entry_name(&name_chars);
        let ghost sname = |e: (Seq<char>, bool, Seq<u8>)| sanitized_name(e);
        proof {
            assert(clean@ == sanitized_name(ev));
            lemma_sanitized_path_is_safe(ev.0);
            // the sanitized-name row of `post` extends that of `pre`
            assert(post.map_values(sname) =~= pre.map_values(sname).push(sanitized_name(ev)));
            assert(post.map_values(sname).drop_last() =~= pre.map_values(sname));
            // filters over `post` extend or repeat those over `pre`
            assert(post.drop_last() == pre);
            assert(post.filter(fdir) == if fdir(ev) {
                pre.filter(fdir).push(ev)
            } else {
                pre.filter(fdir)
            });
            assert(post.filter(ffile) == if ffile(ev) {
                pre.filter(ffile).push(ev)
            } else {
                pre.filter(ffile)
            });
            assert(post.map_values(sname).filter(fpath) == if fpath(sanitized_name(ev)) {
                pre.map_values(sname).filter(fpath).push(sanitized_name(ev))
            } else {
                pre.map_values(sname).filter(fpath)
            });
        }
        if clean.len() > 0 {
            let path = chars_string(&clean);
            let ghost old_paths = plan.paths@;
            plan.paths.push(path.clone());
            proof {
                assert(plan.paths@.map_values(|p: String| p@) =~= old_paths.map_values(
                    |p: String| p@,
                ).push(clean@));
            }
            if entry.is_dir {
                let ghost old_dirs = plan.dirs@;
                plan.dirs.push(path);
                proof {
                    assert(plan.dirs@.map_values(|p: String| p@) =~= old_dirs.map_values(
                        |p: String| p@,
                    ).push(clean@));
                    assert(pre.filter(fdir).push(ev).map_values(sname) =~= pre.filter(
                        fdir,
                    ).map_values(sname).push(sanitized_name(ev)));
                }
            } else {
                let data = entry.data.clone();
                proof {
                    assert(data@ =~= entry.data@);
                }
                let ghost old_files = plan.files@;
                plan.files.push((path, data));
                proof {
                    let fmap = |e: (Seq<char>, bool, Seq<u8>)| (sanitized_name(e), e.2);
                    assert(plan.files@.map_values(|f: (String, Vec<u8>)| (f.0@, f.1@))
                        =~= old_files.map_values(|f: (String, Vec<u8>)| (f.0@, f.1@)).push(
                        (clean@, ev.2),
                    ));
                    assert(pre.filter(ffile).push(ev).map_values(fmap) =~= pre.filter(
                        ffile,
                    ).map_values(fmap).push((sanitized_name(ev), ev.2)));
                }
            }
        }
        i += 1;
    }
    proof {
        assert(entries@.subrange(0, entries@.len() as int) =~= entries@);
    }
    plan
}

/// Unpacks the raw bytes of an uploaded archive into a write plan. It
/// fails exactly when the bytes are not a valid archive or an entry cannot
/// be read; on success every planned path is sanitized and safe below the
/// destination directory, and the plan covers the archive's entries in
/// order.
pub fn extract(bytes: Vec<u8>) -> (r: Result<ExtractionPlan, AppError>)
    ensures
        r is Ok <==> zip_entry_table(bytes@) is Some && (forall|i: int|
            0 <= i < zip_entry_table(bytes@).unwrap().len() ==> zip_entry_payload(
                bytes@,
                i,
            ) is Some),
        r is Ok ==> r->Ok_0.matches(table_views(bytes@)) && r->Ok_0.all_safe(),
        r is Err ==> r->Err_0 is UploadError,
{
    let entries = match read_archive(bytes) {
        Ok(es) => es,
        Err(e) => {
            return Err(e);
        },
    };
    let plan = extraction_plan(&entries);
    Ok(plan)
}

} // verus!
