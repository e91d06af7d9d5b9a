//! The archive boundary: reading zip and tar+gzip sources and writing the
//! output zip, all over in-memory byte buffers.
//!
//! Every call into the archive crates stands behind a small trusted wrapper
//! here; the logic around those calls — format detection, the peek used to
//! validate candidate packs, path sanitization, and the assembly of a raw
//! directory tree out of archive entries — is verified.

use crate::errors::ZipperError;
use crate::pack::raw_seq_view;
use crate::pack::raw_view;
use crate::pack::RawData;
use crate::pack::RawDataV;
use crate::pack::RawNode;
use crate::pack::RawV;
use crate::strutil::copy_str;
use crate::strutil::push_char;
use crate::strutil::str_eq;
use crate::strutil::str_ends_with;
use crate::strutil::spec_ends_with;
use vstd::prelude::*;

verus! {

/// One entry read out of an archive: its stored path, whether it is a
/// directory entry, and its bytes (empty for directories).
#[derive(Debug, PartialEq, Eq)]
pub struct ArchiveItem {
    pub name: String,
    pub is_dir: bool,
    pub data: Vec<u8>,
}

pub open spec fn item_view(e: ArchiveItem) -> (Seq<char>, bool, Seq<u8>) {
    (e.name@, e.is_dir, e.data@)
}

pub open spec fn items_view(v: Vec<ArchiveItem>) -> Seq<(Seq<char>, bool, Seq<u8>)> {
    Seq::new(v@.len(), |i: int| item_view(v@[i]))
}

/// Writer of the output archive, held opaquely: the zip writer's type
/// carries trait bounds Verus cannot take in a declaration, so the whole
/// struct is hidden and trusted, with its contents named by `zw_entries`.
#[verifier::external_body]
pub struct PackWriter {
    inner: zip::ZipWriter<std::io::Cursor<Vec<u8>>>,
}

/// The entry list a zip archive's bytes decode to: for each entry in index
/// order, its stored name, whether it is a directory entry, and its
/// decompressed bytes; `None` when the bytes are no readable zip archive.
/// The decoding is a function of the bytes alone.
pub uninterp spec fn zip_entries_of(bytes: Seq<u8>) -> Option<Seq<(Seq<char>, bool, Seq<u8>)>>;

/// Does entry `i` of the archive's decoded entry list hold readable data?
/// Decompressing the same bytes always ends the same way, so this is a
/// function of the archive bytes and the index alone.
pub uninterp spec fn zip_data_ok(bytes: Seq<u8>, i: int) -> bool;

/// What looking one name up in a zip archive's index reports: whether the
/// named entry is a plain file and whether it is a directory; a function of
/// the bytes and the name alone.
pub uninterp spec fn zip_stat_of(bytes: Seq<u8>, name: Seq<char>) -> (bool, bool);

/// The entry list a (plain, uncompressed) tar stream decodes to, in stream
/// order; `None` when the bytes are no readable tar stream. A function of
/// the bytes alone.
pub uninterp spec fn tar_entries_of(bytes: Seq<u8>) -> Option<Seq<(Seq<char>, bool, Seq<u8>)>>;

/// What a gzip stream decompresses to; `None` when it is corrupt. A function
/// of the bytes alone.
pub uninterp spec fn gunzip_of(bytes: Seq<u8>) -> Option<Seq<u8>>;

/// The entries written into a zip writer so far, in order; directory
/// markers carry no bytes.
pub uninterp spec fn zw_entries(w: PackWriter) -> Seq<(Seq<char>, Option<Seq<u8>>)>;

/// Relies on `ToString` of std error types: wraps any error's message.
#[verifier::external_body]
fn err_io<E: std::string::ToString>(e: E) -> (r: ZipperError)
    ensures
        r is Io,
{
    ZipperError::Io(e.to_string())
}

/// Relies on flate2's `GzDecoder` with `Read::read_to_end`: decompresses a
/// whole gzip stream, failing exactly on corrupt input.
#[verifier::external_body]
fn gunzip(bytes: &[u8]) -> (r: Result<Vec<u8>, ZipperError>)
    ensures
        match r {
            Ok(o) => gunzip_of(bytes@) == Some(o@),
            Err(e) => gunzip_of(bytes@) is None && e is Io,
        },
{
    let mut decoder = flate2::read::GzDecoder::new(bytes);
    let mut out = Vec::new();
    match std::io::Read::read_to_end(&mut decoder, &mut out) {
        Ok(_) => Ok(out),
        Err(e) => Err(err_io(e)),
    }
}

/// Relies on `zip::ZipArchive::new` and `len` over an in-memory cursor:
/// parsing the central directory is deterministic, so the entry count is a
/// function of the bytes, and `Err` comes exactly when the bytes are no
/// readable zip archive.
#[verifier::external_body]
fn zip_entry_count(bytes: &Vec<u8>) -> (r: Result<usize, ZipperError>)
    ensures
        match r {
            Ok(n) => zip_entries_of(bytes@) matches Some(es) && n == es.len(),
            Err(e) => zip_entries_of(bytes@) is None && e is Io,
        },
{
    match zip::ZipArchive::new(std::io::Cursor::new(bytes.clone())) {
        Ok(archive) => Ok(archive.len()),
        Err(e) => Err(err_io(e)),
    }
}

/// Relies on `zip::ZipArchive::by_index` with `Read::read_to_end`: one
/// entry's stored name, directory flag (decided by the name's last
/// character) and decompressed bytes; fails exactly when that entry's data
/// is corrupt, which the bytes alone decide.
#[verifier::external_body]
fn zip_entry_data(bytes: &Vec<u8>, i: usize) -> (r: Result<ArchiveItem, ZipperError>)
    requires
        zip_entries_of(bytes@) matches Some(es) && i < es.len(),
    ensures
        match r {
            Ok(item) => zip_data_ok(bytes@, i as int) && item_view(item) == zip_entries_of(
                bytes@,
            ).unwrap()[i as int],
            Err(e) => !zip_data_ok(bytes@, i as int) && e is Io,
        },
{
    let mut archive = match zip::ZipArchive::new(std::io::Cursor::new(bytes.clone())) {
        Ok(archive) => archive,
        Err(e) => return Err(err_io(e)),
    };
    let mut entry = archive.by_index(i).map_err(err_io)?;
    let name = entry.name().to_string();
    let is_dir = entry.is_dir();
    let mut data = Vec::new();
    if !is_dir {
        std::io::Read::read_to_end(&mut entry, &mut data).map_err(err_io)?;
    }
    Ok(ArchiveItem { name, is_dir, data })
}

/// Relies on `zip::ZipArchive::by_name` over the archive's index: whether
/// the named entry is a plain file and whether it is a directory, without
/// touching any other entry; `(false, false)` when the bytes are no zip
/// archive or hold no such entry.
#[verifier::external_body]
fn zip_stat(bytes: &[u8], name: &str) -> (r: (bool, bool))
    ensures
        r == zip_stat_of(bytes@, name@),
{
    let cursor = std::io::Cursor::new(bytes);
    if let Ok(mut archive) = zip::ZipArchive::new(cursor) {
        if let Ok(entry) = archive.by_name(name) {
            return (entry.is_file(), entry.is_dir());
        }
    }
    (false, false)
}

/// Relies on `tar::Archive::entries` over an in-memory reader: drains the
/// stream into a list of (path, directory flag, bytes) triples, in stream
/// order; fails exactly when the stream is no readable tar.
#[verifier::external_body]
fn tar_entry_list(bytes: &Vec<u8>) -> (r: Result<Vec<ArchiveItem>, ZipperError>)
    ensures
        match r {
            Ok(v) => tar_entries_of(bytes@) == Some(items_view(v)),
            Err(e) => tar_entries_of(bytes@) is None && e is Io,
        },
{
    let mut archive = tar::Archive::new(std::io::Cursor::new(bytes.as_slice()));
    let mut out = Vec::new();
    for entry in archive.entries().map_err(err_io)? {
        let mut e = entry.map_err(err_io)?;
        let name = e.path().map_err(err_io)?.to_string_lossy().into_owned();
        let is_dir = e.header().entry_type().is_dir();
        let mut data = Vec::new();
        std::io::Read::read_to_end(&mut e, &mut data).map_err(err_io)?;
        out.push(ArchiveItem { name, is_dir, data });
    }
    Ok(out)
}

/// Compression method for the output archive. These are the methods the
/// archive crate offers as built here; bzip2 sits behind an optional
/// capability of that crate which this build does not enable.
#[derive(Debug, Clone, Copy, PartialEq, Eq, Structural)]
pub enum CompressionChoice {
    Stored,
    Deflated,
}

/// Caller-supplied output configuration: method, and POSIX mode bits where
/// the target has them.
#[derive(Debug, Clone, Copy, PartialEq, Eq, Structural)]
pub struct ZipConfig {
    pub method: CompressionChoice,
    pub unix_mode: Option<u32>,
}

/// Does a stored entry name denote a directory? The archive crate decides
/// by the name's last character, on writing and reading alike.
pub open spec fn is_dir_name(n: Seq<char>) -> bool {
    n.len() > 0 && (n[n.len() - 1] == '/' || n[n.len() - 1] == '\\')
}

/// The name a directory entry is stored under: the given path with a `/`
/// appended unless it already ends in a separator.
pub open spec fn spec_dir_entry_name(p: Seq<char>) -> Seq<char> {
    if is_dir_name(p) {
        p
    } else {
        p + seq!['/']
    }
}

/// The entry list that reading a finished archive back reports: every stored
/// name as written, in order, the directory flag decided by the name, and
/// directory entries carrying no bytes.
pub open spec fn spec_read_back(ws: Seq<(Seq<char>, Option<Seq<u8>>)>) -> Seq<
    (Seq<char>, bool, Seq<u8>),
> {
    Seq::new(
        ws.len(),
        |i: int|
            (
                ws[i].0,
                is_dir_name(ws[i].0),
                if is_dir_name(ws[i].0) {
                    Seq::<u8>::empty()
                } else {
                    match ws[i].1 {
                        Some(d) => d,
                        None => Seq::<u8>::empty(),
                    }
                },
            ),
    )
}

/// Relies on `zip::ZipWriter::new` over an in-memory cursor: a writer with
/// nothing written yet.
#[verifier::external_body]
fn zw_new() -> (r: PackWriter)
    ensures
        zw_entries(r) == Seq::<(Seq<char>, Option<Seq<u8>>)>::empty(),
{
    PackWriter { inner: zip::ZipWriter::new(std::io::Cursor::new(Vec::new())) }
}

/// Relies on `zip::ZipWriter::add_directory`: appends one directory marker,
/// stored under the path with a `/` appended unless it already ends in a
/// separator.
#[verifier::external_body]
fn zw_add_directory(w: &mut PackWriter, path: &str, cfg: &ZipConfig) -> (r: Result<(), ZipperError>)
    ensures
        match r {
            Ok(_) => zw_entries(*final(w)) == zw_entries(*old(w)).push(
                (spec_dir_entry_name(path@), Option::<Seq<u8>>::None),
            ),
            Err(e) => e is Io,
        },
{
    let method = match cfg.method {
        CompressionChoice::Stored => zip::CompressionMethod::Stored,
        CompressionChoice::Deflated => zip::CompressionMethod::Deflated,
    };
    let mut options = zip::write::SimpleFileOptions::default().compression_method(method);
    if let Some(mode) = cfg.unix_mode {
        options = options.unix_permissions(mode);
    }
    w.inner.add_directory(path, options).map(|_| ()).map_err(err_io)
}

/// Relies on `zip::ZipWriter::start_file` with `Write::write_all`: appends
/// one file entry with its bytes.
#[verifier::external_body]
fn zw_write_file(w: &mut PackWriter, path: &str, data: &Vec<u8>, cfg: &ZipConfig) -> (r: Result<(), ZipperError>)
    ensures
        match r {
            Ok(_) => zw_entries(*final(w)) == zw_entries(*old(w)).push((path@, Some(data@))),
            Err(e) => e is Io,
        },
{
    let method = match cfg.method {
        CompressionChoice::Stored => zip::CompressionMethod::Stored,
        CompressionChoice::Deflated => zip::CompressionMethod::Deflated,
    };
    let mut options = zip::write::SimpleFileOptions::default().compression_method(method);
    if let Some(mode) = cfg.unix_mode {
        options = options.unix_permissions(mode);
    }
    w.inner.start_file(path, options).map_err(err_io)?;
    std::io::Write::write_all(&mut w.inner, data.as_slice()).map_err(err_io)
}

/// Relies on `zip::ZipWriter::finish`: writes the central directory and
/// hands back the archive's bytes. Reading those bytes back yields exactly
/// the written entries, in order, every one of them readable: names are
/// stored verbatim (duplicates were already rejected at write time), the
/// directory flag is decided by the name on both sides, and compression
/// round-trips each file's bytes.
#[verifier::external_body]
fn zw_finish(w: PackWriter) -> (r: Result<Vec<u8>, ZipperError>)
    ensures
        match r {
            Ok(bytes) => {
                &&& zip_entries_of(bytes@) == Some(spec_read_back(zw_entries(w)))
                &&& forall|i: int| 0 <= i < zw_entries(w).len() ==> zip_data_ok(bytes@, i)
            },
            Err(e) => e is Io,
        },
{
    match w.inner.finish() {
        Ok(cursor) => Ok(cursor.into_inner()),
        Err(e) => Err(err_io(e)),
    }
}

/// The archive format a source path's extension selects.
#[derive(Debug, Clone, PartialEq, Eq, Structural)]
pub enum CompressionFormat {
    Zip,
    Tar,
    Directory,
    Unknown,
}

/// The format a source file's name selects: `.zip` archives, `.tar.gz` or
/// `.gz` streams, anything else unrecognized. Directories are recognized by
/// the caller, not by name.
pub open spec fn spec_format_of(name: Seq<char>) -> CompressionFormat {
    if spec_ends_with(name, ".zip"@) {
        CompressionFormat::Zip
    } else if spec_ends_with(name, ".gz"@) {
        CompressionFormat::Tar
    } else {
        CompressionFormat::Unknown
    }
}

pub fn format_of_name(name: &str) -> (r: CompressionFormat)
    ensures
        r == spec_format_of(name@),
{
    if str_ends_with(name, ".zip") {
        CompressionFormat::Zip
    } else if str_ends_with(name, ".gz") {
        CompressionFormat::Tar
    } else {
        CompressionFormat::Unknown
    }
}

/// Reader of one archive source: its location and the format its name
/// selects.
#[derive(Debug, PartialEq, Eq)]
pub struct Zipper {
    pub reader_location: String,
    pub format: CompressionFormat,
}

/// Index of the first item named `name`, or `-1`.
pub open spec fn item_idx_of(es: Seq<(Seq<char>, bool, Seq<u8>)>, name: Seq<char>) -> int
    decreases es.len(),
{
    if es.len() == 0 {
        -1
    } else if es[0].0 == name {
        0
    } else if item_idx_of(es.drop_first(), name) < 0 {
        -1
    } else {
        item_idx_of(es.drop_first(), name) + 1
    }
}

pub proof fn lemma_item_idx_of(es: Seq<(Seq<char>, bool, Seq<u8>)>, name: Seq<char>)
    ensures
        item_idx_of(es, name) >= 0 ==> {
            &&& 0 <= item_idx_of(es, name) < es.len()
            &&& es[item_idx_of(es, name)].0 == name
            &&& forall|k: int| 0 <= k < item_idx_of(es, name) ==> es[k].0 != name
        },
        item_idx_of(es, name) < 0 ==> item_idx_of(es, name) == -1 && forall|k: int|
            0 <= k < es.len() ==> es[k].0 != name,
    decreases es.len(),
{
    if es.len() > 0 && es[0].0 != name {
        lemma_item_idx_of(es.drop_first(), name);
        let t = es.drop_first();
        if item_idx_of(es, name) < 0 {
            assert forall|k: int| 0 <= k < es.len() implies es[k].0 != name by {
                if k > 0 {
                    assert(t[k - 1] == es[k]);
                }
            }
        } else {
            let r = item_idx_of(t, name);
            assert(es[r + 1] == t[r]);
            assert forall|k: int| 0 <= k < item_idx_of(es, name) implies es[k].0 != name by {
                if k > 0 {
                    assert(t[k - 1] == es[k]);
                }
            }
        }
    }
}

/// What peeking one path in a tar+gzip source reports: the flags of the
/// first entry of that name, `(false, false)` when the source is corrupt or
/// holds no such entry.
pub open spec fn spec_tar_peek(bytes: Seq<u8>, path: Seq<char>) -> (bool, bool) {
    match gunzip_of(bytes) {
        None => (false, false),
        Some(t) => match tar_entries_of(t) {
            None => (false, false),
            Some(es) => {
                let j = item_idx_of(es, path);
                if j >= 0 {
                    (!es[j].1, es[j].1)
                } else {
                    (false, false)
                }
            },
        },
    }
}

/// What peeking one path in any source reports.
pub open spec fn spec_peek(format: CompressionFormat, bytes: Seq<u8>, path: Seq<char>) -> (
    bool,
    bool,
) {
    match format {
        CompressionFormat::Zip => zip_stat_of(bytes, path),
        CompressionFormat::Tar => spec_tar_peek(bytes, path),
        _ => (false, false),
    }
}

impl Zipper {
    /// A reader for a source path, with the format its name selects. The
    /// caller replaces the format with `Directory` where the path is one.
    pub fn new(reader_location: String) -> (r: Zipper)
        ensures
            r.reader_location@ == reader_location@,
            r.format == spec_format_of(reader_location@),
    {
        let format = format_of_name(reader_location.as_str());
        Zipper { reader_location, format }
    }

    /// Check one stored path inside the source's bytes without materializing
    /// anything but that entry: for a zip source the archive index is asked
    /// directly; for a tar+gzip source the stream is scanned for the entry.
    /// Returns whether the entry is a plain file and whether it is a
    /// directory.
    pub fn peak(&self, bytes: &[u8], path: &str) -> (r: (bool, bool))
        ensures
            r == spec_peek(self.format, bytes@, path@),
    {
        match &self.format {
            CompressionFormat::Zip => zip_stat(bytes, path),
            CompressionFormat::Tar => {
                let tar_bytes = match gunzip(bytes) {
                    Ok(t) => t,
                    Err(..) => {
                        return (false, false);
                    },
                };
                let items = match tar_entry_list(&tar_bytes) {
                    Ok(items) => items,
                    Err(..) => {
                        return (false, false);
                    },
                };
                let ghost esv = items_view(items);
                proof {
                    lemma_item_idx_of(esv, path@);
                }
                let mut i: usize = 0;
                while i < items.len()
                    invariant
                        self.format is Tar,
                        esv == items_view(items),
                        esv.len() == items@.len(),
                        i <= items@.len(),
                        forall|k: int| 0 <= k < i ==> esv[k].0 != path@,
                        spec_tar_peek(bytes@, path@) == (if item_idx_of(esv, path@) >= 0 {
                            (
                                !esv[item_idx_of(esv, path@)].1,
                                esv[item_idx_of(esv, path@)].1,
                            )
                        } else {
                            (false, false)
                        }),
                    decreases items@.len() - i,
                {
                    if str_eq(items[i].name.as_str(), path) {
                        proof {
                            assert(esv[i as int].0 == path@);
                            lemma_item_idx_of(esv, path@);
                        }
                        return (!items[i].is_dir, items[i].is_dir);
                    }
                    proof {
                        assert(esv[i as int].0 != path@);
                    }
                    i += 1;
                }
                proof {
                    lemma_item_idx_of(esv, path@);
                    assert(item_idx_of(esv, path@) < 0);
                }
                (false, false)
            },
            _ => (false, false),
        }
    }
}


/// Index of the first `/` in `s`, or `-1`.
pub open spec fn first_slash(s: Seq<char>) -> int
    decreases s.len(),
{
    if s.len() == 0 {
        -1
    } else if s[0] == '/' {
        0
    } else if first_slash(s.drop_first()) < 0 {
        -1
    } else {
        first_slash(s.drop_first()) + 1
    }
}

pub proof fn lemma_first_slash(s: Seq<char>)
    ensures
        first_slash(s) >= 0 ==> {
            &&& 0 <= first_slash(s) < s.len()
            &&& s[first_slash(s)] == '/'
            &&& forall|k: int| 0 <= k < first_slash(s) ==> s[k] != '/'
        },
        first_slash(s) < 0 ==> first_slash(s) == -1 && forall|k: int|
            0 <= k < s.len() ==> s[k] != '/',
    decreases s.len(),
{
    if s.len() > 0 && s[0] != '/' {
        lemma_first_slash(s.drop_first());
        let t = s.drop_first();
        if first_slash(s) < 0 {
            assert forall|k: int| 0 <= k < s.len() implies s[k] != '/' by {
                if k > 0 {
                    assert(t[k - 1] == s[k]);
                }
            }
        } else {
            let r = first_slash(t);
            assert(s[r + 1] == t[r]);
            assert forall|k: int| 0 <= k < first_slash(s) implies s[k] != '/' by {
                if k > 0 {
                    assert(t[k - 1] == s[k]);
                }
            }
        }
    }
}

/// The `/`-separated components of a stored path, empty ones included.
pub open spec fn spec_split(s: Seq<char>) -> Seq<Seq<char>>
    decreases s.len(),
    when true
    via spec_split_decreases
{
    let i = first_slash(s);
    if i < 0 {
        seq![s]
    } else {
        seq![s.subrange(0, i)] + spec_split(s.skip(i + 1))
    }
}

#[via_fn]
proof fn spec_split_decreases(s: Seq<char>) {
    lemma_first_slash(s);
}

/// A component that names a real tree level: not empty, not `.`, not `..`.
/// Dropping the rest is the path sanitization that keeps extracted entries
/// inside the tree root.
pub open spec fn keep_component(c: Seq<char>) -> bool {
    c.len() > 0 && c != "."@ && c != ".."@
}

/// The kept components of a split path.
pub open spec fn spec_sanitize(comps: Seq<Seq<char>>) -> Seq<Seq<char>>
    decreases comps.len(),
{
    if comps.len() == 0 {
        Seq::empty()
    } else if keep_component(comps[0]) {
        seq![comps[0]] + spec_sanitize(comps.drop_first())
    } else {
        spec_sanitize(comps.drop_first())
    }
}

pub proof fn lemma_spec_sanitize_concat(a: Seq<Seq<char>>, b: Seq<Seq<char>>)
    ensures
        spec_sanitize(a + b) == spec_sanitize(a) + spec_sanitize(b),
    decreases a.len(),
{
    if a.len() == 0 {
        assert(a + b =~= b);
        assert(spec_sanitize(a) + spec_sanitize(b) =~= spec_sanitize(b));
    } else {
        lemma_spec_sanitize_concat(a.drop_first(), b);
        assert((a + b).drop_first() =~= a.drop_first() + b);
        if keep_component(a[0]) {
            assert((seq![a[0]] + spec_sanitize(a.drop_first())) + spec_sanitize(b) =~= seq![a[0]]
                + (spec_sanitize(a.drop_first()) + spec_sanitize(b)));
        }
    }
}

/// The sanitized components of one stored entry path.
pub open spec fn spec_path_components(s: Seq<char>) -> Seq<Seq<char>> {
    spec_sanitize(spec_split(s))
}

/// Split a stored path on `/` and keep only its real components.
fn path_components(s: &str) -> (r: Vec<String>)
    ensures
        r.deep_view() == spec_path_components(s@),
{
    let len = s.unicode_len();
    let mut comps: Vec<String> = Vec::new();
    let mut cur = String::new();
    let mut start: usize = 0;
    let mut i: usize = 0;
    proof {
        assert(s@.skip(0) =~= s@);
        assert(comps.deep_view() =~= Seq::<Seq<char>>::empty());
        assert(Seq::<Seq<char>>::empty() + spec_sanitize(spec_split(s@)) =~= spec_sanitize(
            spec_split(s@),
        ));
        assert(cur@ =~= s@.subrange(0, 0));
    }
    while i < len
        invariant
            len == s@.len(),
            start <= i <= len,
            cur@ == s@.subrange(start as int, i as int),
            forall|k: int| start <= k < i ==> s@[k] != '/',
            spec_path_components(s@) == comps.deep_view() + spec_sanitize(
                spec_split(s@.skip(start as int)),
            ),
        decreases len - i,
    {
        let c = s.get_char(i);
        if c == '/' {
            let ghost tail = s@.skip(start as int);
            proof {
                lemma_first_slash(tail);
                assert forall|k: int| 0 <= k < i - start implies tail[k] != '/' by {
                    assert(tail[k] == s@[start + k]);
                }
                assert(tail[i - start] == s@[i as int]);
                if first_slash(tail) < 0 {
                    assert(tail[i - start] != '/');
                }
                assert(first_slash(tail) == i - start) by {
                    let f = first_slash(tail);
                    if f < i - start {
                        assert(tail[f] == '/');
                    }
                    if f > i - start {
                        assert(tail[i - start] != '/');
                    }
                }
                assert(spec_split(tail) == seq![tail.subrange(0, i - start)] + spec_split(
                    tail.skip(i - start + 1),
                ));
                assert(tail.subrange(0, i - start) =~= cur@);
                assert(tail.skip(i - start + 1) =~= s@.skip(i + 1));
                lemma_spec_sanitize_concat(
                    seq![cur@],
                    spec_split(s@.skip(i + 1)),
                );
                assert(seq![cur@].drop_first() =~= Seq::<Seq<char>>::empty());
                assert(spec_sanitize(seq![cur@]) == (if keep_component(cur@) {
                    seq![cur@] + spec_sanitize(Seq::<Seq<char>>::empty())
                } else {
                    spec_sanitize(Seq::<Seq<char>>::empty())
                }));
                if keep_component(cur@) {
                    assert(seq![cur@] + Seq::<Seq<char>>::empty() =~= seq![cur@]);
                }
            }
            let keep = cur.unicode_len() > 0 && !str_eq(cur.as_str(), ".") && !str_eq(
                cur.as_str(),
                "..",
            );
            let ghost old_dv = comps.deep_view();
            if keep {
                comps.push(cur);
                proof {
                    assert(comps.deep_view() =~= old_dv.push(cur@));
                    assert(old_dv.push(cur@) =~= old_dv + seq![cur@]);
                    assert((old_dv + seq![cur@]) + spec_sanitize(spec_split(s@.skip(i + 1)))
                        =~= old_dv + (seq![cur@] + spec_sanitize(spec_split(s@.skip(i + 1)))));
                }
            }
            cur = String::new();
            start = i + 1;
            proof {
                assert(cur@ =~= s@.subrange(start as int, start as int));
            }
        } else {
            push_char(&mut cur, c);
            proof {
                assert(s@.subrange(start as int, i + 1) =~= s@.subrange(
                    start as int,
                    i as int,
                ).push(s@[i as int]));
            }
        }
        i += 1;
    }
    let ghost tail = s@.skip(start as int);
    proof {
        lemma_first_slash(tail);
        assert forall|k: int| 0 <= k < tail.len() implies tail[k] != '/' by {
            assert(tail[k] == s@[start + k]);
        }
        if first_slash(tail) >= 0 {
            assert(tail[first_slash(tail)] == '/');
        }
        assert(spec_split(tail) == seq![tail]);
        assert(tail =~= cur@);
        assert(seq![cur@].drop_first() =~= Seq::<Seq<char>>::empty());
        assert(spec_sanitize(seq![cur@]) == (if keep_component(cur@) {
            seq![cur@] + spec_sanitize(Seq::<Seq<char>>::empty())
        } else {
            spec_sanitize(Seq::<Seq<char>>::empty())
        }));
        if keep_component(cur@) {
            assert(seq![cur@] + Seq::<Seq<char>>::empty() =~= seq![cur@]);
        }
    }
    let keep = cur.unicode_len() > 0 && !str_eq(cur.as_str(), ".") && !str_eq(cur.as_str(), "..");
    let ghost old_dv = comps.deep_view();
    if keep {
        comps.push(cur);
        proof {
            assert(comps.deep_view() =~= old_dv.push(cur@));
            assert(old_dv.push(cur@) =~= old_dv + seq![cur@]);
        }
    } else {
        proof {
            assert(old_dv + Seq::<Seq<char>>::empty() =~= old_dv);
        }
    }
    comps
}


/// Insertion of one sanitized entry path into a raw tree: missing parent
/// directories are created on demand, an entry landing on an existing node
/// replaces it (a directory marker leaves an existing directory alone), and
/// a non-directory standing where the path descends is replaced by a fresh
/// directory.
pub open spec fn spec_insert(
    nodes: Seq<RawV>,
    comps: Seq<Seq<char>>,
    data: Option<Seq<u8>>,
) -> Seq<RawV>
    decreases comps.len(),
{
    if comps.len() == 0 {
        nodes
    } else {
        let name = comps[0];
        let j = crate::pack::raw_idx_of(nodes, name);
        if comps.len() == 1 {
            match data {
                Some(bytes) => {
                    let node = RawV { name, data: RawDataV::File(bytes) };
                    if j < 0 {
                        nodes.push(node)
                    } else {
                        nodes.update(j, node)
                    }
                },
                None => {
                    if j >= 0 && nodes[j].data is Dir {
                        nodes
                    } else {
                        let node = RawV { name, data: RawDataV::Dir(Seq::empty()) };
                        if j < 0 {
                            nodes.push(node)
                        } else {
                            nodes.update(j, node)
                        }
                    }
                },
            }
        } else {
            let sub = if j >= 0 && nodes[j].data is Dir {
                nodes[j].data->Dir_0
            } else {
                Seq::empty()
            };
            let child = RawV {
                name,
                data: RawDataV::Dir(spec_insert(sub, comps.drop_first(), data)),
            };
            if j < 0 {
                nodes.push(child)
            } else {
                nodes.update(j, child)
            }
        }
    }
}

/// Insert one entry into a raw tree, creating parents on demand.
fn insert_entry(nodes: &mut Vec<RawNode>, comps: &Vec<String>, d: usize, data: Option<Vec<u8>>)
    requires
        d < comps@.len(),
    ensures
        raw_seq_view(final(nodes)@) == spec_insert(
            raw_seq_view(old(nodes)@),
            comps.deep_view().skip(d as int),
            crate::pack::opt_bytes_view(data),
        ),
    decreases comps@.len() - d,
{
    let ghost onv = nodes@;
    let ghost nv = raw_seq_view(onv);
    let ghost rest = comps.deep_view().skip(d as int);
    proof {
        crate::pack::lemma_raw_seq_view(onv);
        assert(rest[0] == comps.deep_view()[d as int]);
        assert(comps.deep_view()[d as int] == comps@[d as int]@);
        assert(rest.drop_first() =~= comps.deep_view().skip(d + 1));
    }
    let name = copy_str(comps[d].as_str());
    let found = crate::pack::find_raw(nodes, comps[d].as_str());
    if comps.len() - d == 1 {
        match data {
            Some(bytes) => {
                let node = RawNode { name, data: RawData::File(bytes) };
                let ghost nodev = raw_view(node);
                match found {
                    Some(j) => {
                        nodes.set(j, node);
                        proof {
                            crate::pack::lemma_raw_seq_view_update(onv, j as int, node);
                        }
                    },
                    None => {
                        nodes.push(node);
                        proof {
                            crate::pack::lemma_raw_seq_view_push(onv, node);
                        }
                    },
                }
            },
            None => {
                match found {
                    Some(j) => {
                        let replace: bool = match &nodes[j].data {
                            RawData::Dir(..) => false,
                            _ => true,
                        };
                        proof {
                            assert(nv[j as int] == raw_view(onv[j as int]));
                        }
                        if replace {
                            let node = RawNode { name, data: RawData::Dir(Vec::new()) };
                            proof {
                                assert(raw_view(node).data =~= RawDataV::Dir(Seq::empty()));
                            }
                            nodes.set(j, node);
                            proof {
                                crate::pack::lemma_raw_seq_view_update(onv, j as int, node);
                            }
                        }
                    },
                    None => {
                        let node = RawNode { name, data: RawData::Dir(Vec::new()) };
                        proof {
                            assert(raw_view(node).data =~= RawDataV::Dir(Seq::empty()));
                        }
                        nodes.push(node);
                        proof {
                            crate::pack::lemma_raw_seq_view_push(onv, node);
                        }
                    },
                }
            },
        }
    } else {
        match found {
            Some(j) => {
                let child = nodes.remove(j);
                proof {
                    assert(nv[j as int] == raw_view(onv[j as int]));
                    assert(raw_view(child) == nv[j as int]);
                }
                let mut sub: Vec<RawNode> = match child.data {
                    RawData::Dir(sub) => sub,
                    _ => Vec::new(),
                };
                proof {
                    crate::pack::lemma_raw_seq_view(sub@);
                    if nv[j as int].data is Dir {
                        assert(raw_seq_view(sub@) == nv[j as int].data->Dir_0);
                    } else {
                        assert(raw_seq_view(sub@) =~= Seq::<RawV>::empty());
                    }
                }
                insert_entry(&mut sub, comps, d + 1, data);
                let node = RawNode { name, data: RawData::Dir(sub) };
                proof {
                    assert(nodes@ == onv.remove(j as int));
                }
                nodes.insert(j, node);
                proof {
                    assert(nodes@ == onv.remove(j as int).insert(j as int, node));
                    assert(onv.remove(j as int).insert(j as int, node) =~= onv.update(
                        j as int,
                        node,
                    ));
                    crate::pack::lemma_raw_seq_view_update(onv, j as int, node);
                }
            },
            None => {
                let mut sub: Vec<RawNode> = Vec::new();
                proof {
                    crate::pack::lemma_raw_seq_view(sub@);
                    assert(raw_seq_view(sub@) =~= Seq::<RawV>::empty());
                }
                insert_entry(&mut sub, comps, d + 1, data);
                let node = RawNode { name, data: RawData::Dir(sub) };
                nodes.push(node);
                proof {
                    crate::pack::lemma_raw_seq_view_push(onv, node);
                }
            },
        }
    }
}

/// One archive entry folded into a raw tree: its path is sanitized, then a
/// directory marker or a file is inserted; an entry whose whole path is
/// sanitized away contributes nothing.
pub open spec fn spec_entry_step(nodes: Seq<RawV>, e: (Seq<char>, bool, Seq<u8>)) -> Seq<RawV> {
    let comps = spec_path_components(e.0);
    if comps.len() == 0 {
        nodes
    } else {
        spec_insert(nodes, comps, if e.1 { None } else { Some(e.2) })
    }
}

/// A whole entry list folded into a raw tree, in order.
pub open spec fn spec_materialize_from(
    nodes: Seq<RawV>,
    es: Seq<(Seq<char>, bool, Seq<u8>)>,
) -> Seq<RawV>
    decreases es.len(),
{
    if es.len() == 0 {
        nodes
    } else {
        spec_materialize_from(spec_entry_step(nodes, es[0]), es.drop_first())
    }
}

/// The raw tree an archive's entries materialize into.
pub open spec fn spec_materialize(es: Seq<(Seq<char>, bool, Seq<u8>)>) -> Seq<RawV> {
    spec_materialize_from(Seq::empty(), es)
}

/// Assemble archive entries into a raw directory tree.
fn materialize_items(items: Vec<ArchiveItem>) -> (r: Vec<RawNode>)
    ensures
        raw_seq_view(r@) == spec_materialize(items_view(items)),
{
    let ghost esv = items_view(items);
    let mut nodes: Vec<RawNode> = Vec::new();
    let mut k: usize = 0;
    proof {
        assert(esv.skip(0) =~= esv);
        assert(raw_seq_view(nodes@) =~= Seq::<RawV>::empty());
    }
    while k < items.len()
        invariant
            esv == items_view(items),
            esv.len() == items@.len(),
            k <= items@.len(),
            spec_materialize(esv) == spec_materialize_from(
                raw_seq_view(nodes@),
                esv.skip(k as int),
            ),
        decreases items@.len() - k,
    {
        let ghost rest = esv.skip(k as int);
        let ghost before = raw_seq_view(nodes@);
        proof {
            assert(rest[0] == esv[k as int]);
            assert(rest.drop_first() =~= esv.skip(k + 1));
            assert(esv[k as int] == item_view(items@[k as int]));
        }
        let item = &items[k];
        let comps = path_components(item.name.as_str());
        if comps.len() > 0 {
            let data: Option<Vec<u8>> = if item.is_dir {
                None
            } else {
                Some(crate::node::copy_bytes(&item.data))
            };
            proof {
                assert(comps.deep_view().skip(0) =~= comps.deep_view());
            }
            insert_entry(&mut nodes, &comps, 0, data);
            proof {
                assert(raw_seq_view(nodes@) == spec_entry_step(before, rest[0]));
            }
        } else {
            proof {
                assert(raw_seq_view(nodes@) == spec_entry_step(before, rest[0]));
            }
        }
        k += 1;
    }
    proof {
        assert(esv.skip(esv.len() as int) =~= Seq::<(Seq<char>, bool, Seq<u8>)>::empty());
    }
    nodes
}

/// The raw tree a source's bytes extract into, by format.
pub open spec fn spec_extracted(format: CompressionFormat, bytes: Seq<u8>) -> Option<Seq<RawV>> {
    match format {
        CompressionFormat::Zip => match zip_entries_of(bytes) {
            Some(es) => Some(spec_materialize(es)),
            None => None,
        },
        CompressionFormat::Tar => match gunzip_of(bytes) {
            None => None,
            Some(t) => match tar_entries_of(t) {
                Some(es) => Some(spec_materialize(es)),
                None => None,
            },
        },
        _ => None,
    }
}

/// Does unpacking this source succeed: the bytes decode in the format the
/// source's name selects, and (for a zip source) every entry's data is
/// readable.
pub open spec fn spec_extract_ok(format: CompressionFormat, bytes: Seq<u8>) -> bool {
    match format {
        CompressionFormat::Zip => {
            &&& zip_entries_of(bytes) is Some
            &&& forall|i: int|
                0 <= i < zip_entries_of(bytes).unwrap().len() ==> zip_data_ok(bytes, i)
        },
        CompressionFormat::Tar => spec_extracted(CompressionFormat::Tar, bytes) is Some,
        _ => false,
    }
}

impl Zipper {
    /// Unpack the source's bytes into a raw directory tree named after the
    /// source, sanitizing every entry path. Succeeds exactly when the bytes
    /// decode in the source's format with every entry readable; fails with
    /// `UnknownFormat` on an unrecognized extension and with `Io` on a
    /// corrupt archive or a damaged entry.
    pub fn extract(&self, bytes: Vec<u8>) -> (r: Result<RawNode, ZipperError>)
        ensures
            r is Ok <==> spec_extract_ok(self.format, bytes@),
            match r {
                Ok(root) => {
                    &&& spec_extracted(self.format, bytes@) matches Some(ns) && raw_view(root)
                        == (RawV {
                        name: crate::strutil::spec_last_segment(self.reader_location@),
                        data: RawDataV::Dir(ns),
                    })
                },
                Err(e) => {
                    &&& (self.format is Zip || self.format is Tar) ==> e is Io
                    &&& (self.format is Directory || self.format is Unknown) ==> e
                        is UnknownFormat
                },
            },
    {
        let name = crate::strutil::last_segment(self.reader_location.as_str());
        match &self.format {
            CompressionFormat::Zip => {
                let n = match zip_entry_count(&bytes) {
                    Ok(n) => n,
                    Err(e) => {
                        return Err(e);
                    },
                };
                let ghost contents = zip_entries_of(bytes@).unwrap();
                let mut items: Vec<ArchiveItem> = Vec::new();
                let mut i: usize = 0;
                proof {
                    assert(items_view(items) =~= contents.take(0));
                }
                while i < n
                    invariant
                        self.format is Zip,
                        zip_entries_of(bytes@) == Some(contents),
                        n == contents.len(),
                        i <= n,
                        items_view(items) == contents.take(i as int),
                        forall|k: int| 0 <= k < i ==> zip_data_ok(bytes@, k),
                    decreases n - i,
                {
                    let ghost before = items_view(items);
                    let item = match zip_entry_data(&bytes, i) {
                        Ok(item) => item,
                        Err(e) => {
                            return Err(e);
                        },
                    };
                    let ghost iv = item_view(item);
                    items.push(item);
                    proof {
                        assert(items_view(items) =~= before.push(iv));
                        assert(before.push(iv) =~= contents.take(i + 1));
                    }
                    i += 1;
                }
                proof {
                    assert(contents.take(n as int) =~= contents);
                }
                let nodes = materialize_items(items);
                let root = RawNode { name, data: RawData::Dir(nodes) };
                proof {
                    crate::pack::lemma_raw_seq_view(root.data->Dir_0@);
                    assert(raw_view(root) =~= RawV {
                        name: crate::strutil::spec_last_segment(self.reader_location@),
                        data: RawDataV::Dir(spec_materialize(contents)),
                    });
                }
                Ok(root)
            },
            CompressionFormat::Tar => {
                let tar_bytes = match gunzip(bytes.as_slice()) {
                    Ok(t) => t,
                    Err(e) => {
                        return Err(e);
                    },
                };
                let items = match tar_entry_list(&tar_bytes) {
                    Ok(items) => items,
                    Err(e) => {
                        return Err(e);
                    },
                };
                let ghost esv = items_view(items);
                let nodes = materialize_items(items);
                let root = RawNode { name, data: RawData::Dir(nodes) };
                proof {
                    crate::pack::lemma_raw_seq_view(root.data->Dir_0@);
                    assert(raw_view(root) =~= RawV {
                        name: crate::strutil::spec_last_segment(self.reader_location@),
                        data: RawDataV::Dir(spec_materialize(esv)),
                    });
                }
                Ok(root)
            },
            _ => Err(ZipperError::UnknownFormat(copy_str(self.reader_location.as_str()))),
        }
    }

    /// Unpack the source's bytes and build the datapack they hold: the
    /// extracted tree is handed to the pack builder unchanged. Succeeds
    /// exactly when the source unpacks and the unpacked tree is a
    /// well-formed pack root; every failure is the one conversion error.
    pub fn datapack(&self, bytes: Vec<u8>) -> (r: Result<
        crate::node::MergeOutcome<crate::pack::Datapack>,
        ZipperError,
    >)
        ensures
            r is Ok <==> (spec_extract_ok(self.format, bytes@) && crate::pack::spec_pack_ok(
                RawV {
                    name: crate::strutil::spec_last_segment(self.reader_location@),
                    data: RawDataV::Dir(
                        match spec_extracted(self.format, bytes@) {
                            Some(ns) => ns,
                            None => Seq::empty(),
                        },
                    ),
                },
            )),
            match r {
                Ok(o) => {
                    &&& spec_extracted(self.format, bytes@) matches Some(ns) && ({
                        let rootv = RawV {
                            name: crate::strutil::spec_last_segment(self.reader_location@),
                            data: RawDataV::Dir(ns),
                        };
                        &&& crate::pack::spec_pack_ok(rootv)
                        &&& crate::pack::spec_pack_result(
                            rootv,
                            self.reader_location@,
                            crate::pack::dp_view(o.result),
                            o.unit_delta,
                        )
                    })
                },
                Err(e) => e is UnableToConvertDatapack,
            },
    {
        let root = match self.extract(bytes) {
            Ok(root) => root,
            Err(..) => {
                return Err(ZipperError::UnableToConvertDatapack);
            },
        };
        match crate::pack::Datapack::generate(&root, self.reader_location.as_str()) {
            Ok(o) => Ok(o),
            Err(..) => Err(ZipperError::UnableToConvertDatapack),
        }
    }
}

/// The entry an archive writer stores for one flattened entry: files keep
/// their path, directory markers get the `/`-terminated name.
pub open spec fn spec_written_entry(e: (Seq<char>, Option<Seq<u8>>)) -> (
    Seq<char>,
    Option<Seq<u8>>,
) {
    match e.1 {
        Some(_) => e,
        None => (spec_dir_entry_name(e.0), Option::<Seq<u8>>::None),
    }
}

pub open spec fn spec_written_entries(es: Seq<(Seq<char>, Option<Seq<u8>>)>) -> Seq<
    (Seq<char>, Option<Seq<u8>>),
> {
    Seq::new(es.len(), |i: int| spec_written_entry(es[i]))
}

impl crate::pack::Datapack {
    /// Compile this pack into the bytes of a zip archive: the flattened
    /// entry list — pack descriptor first, every directory marker before its
    /// descendants — is written in order under the given configuration. On
    /// success the returned bytes decode back to exactly the written
    /// entries: the flattened list with every directory name
    /// `/`-terminated, every entry readable.
    pub fn compile(&self, cfg: &ZipConfig) -> (r: Result<Vec<u8>, ZipperError>)
        ensures
            match r {
                Ok(bytes) => ({
                    let written = spec_written_entries(
                        crate::compile::spec_flatten_pack(crate::pack::dp_view(*self)),
                    );
                    &&& zip_entries_of(bytes@) == Some(spec_read_back(written))
                    &&& forall|i: int| 0 <= i < written.len() ==> zip_data_ok(bytes@, i)
                }),
                Err(e) => e is Io,
            },
    {
        let entries = self.flatten();
        let ghost ev = crate::compile::entries_view(entries);
        let ghost wv = spec_written_entries(ev);
        let mut writer = zw_new();
        let mut i: usize = 0;
        proof {
            assert(zw_entries(writer) =~= wv.take(0));
        }
        while i < entries.len()
            invariant
                ev == crate::compile::entries_view(entries),
                wv == spec_written_entries(ev),
                wv.len() == ev.len(),
                ev.len() == entries@.len(),
                i <= entries@.len(),
                zw_entries(writer) == wv.take(i as int),
            decreases entries@.len() - i,
        {
            let ghost before = zw_entries(writer);
            proof {
                assert(ev[i as int] == crate::compile::entry_view(entries@[i as int]));
                assert(wv[i as int] == spec_written_entry(ev[i as int]));
            }
            let entry = &entries[i];
            let step = match &entry.data {
                Some(data) => zw_write_file(&mut writer, entry.path.as_str(), data, cfg),
                None => zw_add_directory(&mut writer, entry.path.as_str(), cfg),
            };
            match step {
                Ok(..) => {
                    proof {
                        assert(zw_entries(writer) =~= before.push(wv[i as int]));
                        assert(before.push(wv[i as int]) =~= wv.take(i + 1));
                    }
                },
                Err(e) => {
                    return Err(e);
                },
            }
            i += 1;
        }
        proof {
            assert(wv.take(wv.len() as int) =~= wv);
            assert(ev == crate::compile::spec_flatten_pack(crate::pack::dp_view(*self)));
        }
        zw_finish(writer)
    }
}

} // verus!
