//! Archive persistence: a database serializes into a directory-per-package
//! layout (`<name>-<version>/desc`, and `/files` in a files database), packed
//! with tar and compressed with gzip through trusted wrappers.
use vstd::prelude::*;
use vstd::slice::slice_to_vec;
use vstd::string::StringExecFns;
use vstd::string::StrSliceExecFns;
use vstd::utf8::{encode_utf8, decode_utf8, valid_utf8};
use std::io::Read;
use std::io::Write;
use crate::database::{RepositoryDatabase, DatabaseEntry, EntryView, ContentMode};
use crate::record::{PackageMetadata, FileManifest, MetaView, ManifestView, encode_meta,
    encode_manifest_spec, encode_metadata, encode_manifest, decode_meta, decode_manifest_spec,
    decode_metadata, decode_manifest};
use crate::lines::str_eq;

verus! {

/// Corrupt archive on load: the file could not be decompressed or unpacked,
/// a member was not a record the layout allows, or a record failed to decode.
#[derive(Clone, Copy, Debug, PartialEq, Eq, Structural)]
pub enum DatabaseError {
    Corrupt,
}

/// The gzip bytes that compressing a byte sequence yields (fixed compression
/// parameters, so a function of the input alone).
pub uninterp spec fn gzip_of(data: Seq<u8>) -> Seq<u8>;

/// The tar bytes that packing members (path and contents each) yields, with
/// fixed header fields, so a function of the members alone.
pub uninterp spec fn tar_of(members: Seq<(Seq<char>, Seq<u8>)>) -> Seq<u8>;

/// Relies on flate2's `GzEncoder` over an in-memory buffer: deterministic
/// gzip bytes of the input (default level, zero timestamp). Writing into a
/// `Vec` cannot fail, so neither can compressing.
#[verifier::external_body]
fn gzip_compress(data: &[u8]) -> (r: Vec<u8>)
    ensures
        r@ == gzip_of(data@),
{
    let mut enc = flate2::write::GzEncoder::new(Vec::new(), flate2::Compression::default());
    enc.write_all(data).unwrap();
    enc.finish().unwrap()
}

/// Relies on flate2's `GzDecoder`: decompressing what `GzEncoder` produced
/// succeeds and yields the original bytes.
#[verifier::external_body]
pub(crate) fn gzip_decompress(data: &[u8]) -> (r: Option<Vec<u8>>)
    ensures
        forall|orig: Seq<u8>| data@ == #[trigger] gzip_of(orig) ==> r is Some,
        r matches Some(b)
            ==> forall|orig: Seq<u8>| data@ == #[trigger] gzip_of(orig) ==> b@ == orig,
{
    let mut dec = flate2::read::GzDecoder::new(data);
    let mut out = Vec::new();
    match dec.read_to_end(&mut out) {
        Ok(_) => Some(out),
        Err(_) => None,
    }
}

/// A path component the archiver accepts: nonempty, not a dot component,
/// free of separators and NUL.
pub open spec fn safe_component(s: Seq<char>) -> bool {
    &&& s.len() > 0
    &&& s != "."@
    &&& s != ".."@
    &&& forall|i: int| 0 <= i < s.len() ==> #[trigger] s[i] != '/' && s[i] != '\0'
}

/// A member path of the form `dir/name`, both components safe: such a path
/// is relative with no dot components, which the archiver always packs.
pub open spec fn packable_path(p: Seq<char>) -> bool {
    exists|j: int| 0 <= j < p.len() && #[trigger] p[j] == '/'
        && safe_component(p.subrange(0, j))
        && safe_component(p.subrange(j + 1, p.len() as int))
}

/// Text free of path separators and NUL: a package name or version of this
/// form yields member paths the archiver always packs.
pub open spec fn clean_text(s: Seq<char>) -> bool {
    forall|i: int| 0 <= i < s.len() ==> #[trigger] s[i] != '/' && s[i] != '\0'
}

pub open spec fn clean_entry(e: EntryView) -> bool {
    clean_text(e.metadata.name) && clean_text(e.metadata.version)
}

pub open spec fn clean_entries(es: Seq<EntryView>) -> bool {
    forall|i: int| 0 <= i < es.len() ==> clean_entry(#[trigger] es[i])
}

/// Every member path is of the plain packable form.
pub open spec fn packable_members(ms: Seq<(Seq<char>, Seq<u8>)>) -> bool {
    forall|i: int| 0 <= i < ms.len() ==> packable_path(#[trigger] ms[i].0)
}

/// The members of an executable member list, as paths and bytes.
pub open spec fn members_view(ms: Seq<(String, Vec<u8>)>) -> Seq<(Seq<char>, Seq<u8>)> {
    Seq::new(ms.len(), |i: int| (ms[i].0@, ms[i].1@))
}

/// Relies on tar's `Builder` over an in-memory buffer: packs each member
/// under its path with fixed header fields; writing into a `Vec` cannot
/// fail. The builder normalizes other paths (dot components and doubled
/// separators are dropped, not stored), so both clauses speak only of
/// member lists whose paths are of the plain packable form, which the
/// builder stores verbatim and always accepts.
#[verifier::external_body]
fn tar_pack(members: &Vec<(String, Vec<u8>)>) -> (r: Option<Vec<u8>>)
    ensures
        packable_members(members_view(members@)) ==> r is Some,
        r matches Some(b) ==> (packable_members(members_view(members@))
            ==> b@ == tar_of(members_view(members@))),
{
    let mut builder = tar::Builder::new(Vec::new());
    for (path, data) in members.iter() {
        let mut header = tar::Header::new_gnu();
        header.set_size(data.len() as u64);
        header.set_mode(0o644);
        if builder.append_data(&mut header, path, data.as_slice()).is_err() {
            return None;
        }
    }
    builder.into_inner().ok()
}

/// Relies on tar's `Archive`: unpacking what `Builder` packed from plain
/// packable paths succeeds and yields the members in order (the reader
/// returns stored path bytes unnormalized, so only paths the builder stored
/// verbatim round-trip).
#[verifier::external_body]
pub(crate) fn tar_unpack(data: &[u8]) -> (r: Option<Vec<(String, Vec<u8>)>>)
    ensures
        forall|orig: Seq<(Seq<char>, Seq<u8>)>|
            (packable_members(orig) && data@ == #[trigger] tar_of(orig)) ==> r is Some,
        r matches Some(ms)
            ==> forall|orig: Seq<(Seq<char>, Seq<u8>)>|
                (packable_members(orig) && data@ == #[trigger] tar_of(orig))
                    ==> members_view(ms@) == orig,
{
    let mut archive = tar::Archive::new(data);
    let mut out: Vec<(String, Vec<u8>)> = Vec::new();
    for entry in archive.entries().ok()? {
        let mut entry = entry.ok()?;
        let path = entry.path().ok()?.to_str()?.to_owned();
        let mut buf = Vec::new();
        entry.read_to_end(&mut buf).ok()?;
        out.push((path, buf));
    }
    Some(out)
}

/// Relies on std's `String::from_utf8`: `Some` exactly on valid UTF-8,
/// decoding it.
#[verifier::external_body]
pub(crate) fn bytes_to_string(data: Vec<u8>) -> (r: Option<String>)
    ensures
        r matches Some(s) ==> valid_utf8(data@) && s@ == decode_utf8(data@),
        r is None ==> !valid_utf8(data@),
{
    String::from_utf8(data).ok()
}

/// Directory name `<name>-<version>` of one entry.
pub open spec fn dir_of(m: MetaView) -> Seq<char> {
    m.name + "-"@ + m.version
}

/// The archive members one entry contributes: its record under `desc`, and,
/// when manifests are carried and present, its file list under `files`.
pub open spec fn entry_members(e: EntryView, with_files: bool) -> Seq<(Seq<char>, Seq<u8>)> {
    let desc = (dir_of(e.metadata) + "/desc"@, encode_utf8(encode_meta(e.metadata)));
    match e.manifest {
        Some(f) => if with_files {
            seq![desc, (dir_of(e.metadata) + "/files"@, encode_utf8(encode_manifest_spec(f)))]
        } else {
            seq![desc]
        },
        None => seq![desc],
    }
}

/// The archive members of a whole database, in entry order.
pub open spec fn archive_members(es: Seq<EntryView>, with_files: bool) -> Seq<(Seq<char>, Seq<u8>)>
    decreases es.len(),
{
    if es.len() == 0 {
        Seq::empty()
    } else {
        entry_members(es[0], with_files) + archive_members(es.drop_first(), with_files)
    }
}

/// The bytes a database serializes to.
pub open spec fn archive_bytes(es: Seq<EntryView>, with_files: bool) -> Seq<u8> {
    gzip_of(tar_of(archive_members(es, with_files)))
}

proof fn lemma_archive_members_push(es: Seq<EntryView>, e: EntryView, with_files: bool)
    ensures
        archive_members(es.push(e), with_files) == archive_members(es, with_files)
            + entry_members(e, with_files),
    decreases es.len(),
{
    if es.len() == 0 {
        assert(es =~= Seq::<EntryView>::empty());
        assert(archive_members(es, with_files) == Seq::<(Seq<char>, Seq<u8>)>::empty());
        assert(es.push(e).drop_first() =~= Seq::<EntryView>::empty());
        assert(es.push(e)[0] == e);
        assert(archive_members(es.push(e), with_files)
            == entry_members(e, with_files)
                + archive_members(es.push(e).drop_first(), with_files));
        assert(archive_members(es.push(e), with_files)
            =~= archive_members(es, with_files) + entry_members(e, with_files));
    } else {
        lemma_archive_members_push(es.drop_first(), e, with_files);
        assert(es.push(e).drop_first() =~= es.drop_first().push(e));
        assert(es.push(e)[0] == es[0]);
        assert(archive_members(es.push(e), with_files)
            =~= entry_members(es[0], with_files)
                + (archive_members(es.drop_first(), with_files) + entry_members(e, with_files)));
        assert(archive_members(es, with_files) + entry_members(e, with_files)
            =~= entry_members(es[0], with_files)
                + (archive_members(es.drop_first(), with_files) + entry_members(e, with_files)));
    }
}

/// The record bytes a save writes decode back to exactly the entry's
/// records: the `desc` member of a valid entry decodes to its metadata, and
/// the `files` member of a files database decodes to its manifest.
pub proof fn lemma_saved_records_decode(e: EntryView, with_files: bool)
    requires
        crate::record::valid_meta(e.metadata),
        e.manifest matches Some(f) ==> crate::record::valid_manifest(f),
    ensures
        crate::record::decode_meta(decode_utf8(entry_members(e, with_files)[0].1))
            == Some(e.metadata),
        with_files && e.manifest is Some
            ==> crate::record::decode_manifest_spec(
                decode_utf8(entry_members(e, with_files)[1].1),
            ) == Some(e.manifest->Some_0),
{
    vstd::utf8::encode_utf8_decode_utf8(encode_meta(e.metadata));
    crate::record::lemma_metadata_round_trip(e.metadata);
    if with_files && e.manifest is Some {
        vstd::utf8::encode_utf8_decode_utf8(encode_manifest_spec(e.manifest->Some_0));
        crate::record::lemma_manifest_round_trip(e.manifest->Some_0);
    }
}

/// Every member path an entry contributes is one the archiver packs.
proof fn lemma_entry_paths_packable(e: EntryView, with_files: bool)
    requires
        clean_entry(e),
    ensures
        forall|k: int| 0 <= k < entry_members(e, with_files).len()
            ==> packable_path(#[trigger] entry_members(e, with_files)[k].0),
{
    reveal_strlit("-");
    reveal_strlit(".");
    reveal_strlit("..");
    reveal_strlit("desc");
    reveal_strlit("files");
    reveal_strlit("/desc");
    reveal_strlit("/files");
    let dir = dir_of(e.metadata);
    let j = dir.len() as int;
    assert(safe_component(dir)) by {
        assert(dir[e.metadata.name.len() as int] == '-');
        assert(dir.len() > 0);
        if dir == "."@ {
            assert(dir[0] == '.');
        }
        if dir == ".."@ {
            assert(dir[e.metadata.name.len() as int] == '.');
        }
        assert forall|i: int| 0 <= i < dir.len() implies #[trigger] dir[i] != '/' && dir[i] != '\0' by {
            if i < e.metadata.name.len() {
                assert(dir[i] == e.metadata.name[i]);
            } else if i > e.metadata.name.len() {
                assert(dir[i] == e.metadata.version[i - e.metadata.name.len() - 1]);
            }
        }
    }
    let pd = dir + "/desc"@;
    assert(packable_path(pd)) by {
        assert(pd[j] == '/');
        assert(pd.subrange(0, j) =~= dir);
        assert(pd.subrange(j + 1, pd.len() as int) =~= "desc"@);
        assert(safe_component("desc"@)) by {
            assert("desc"@.len() == 4);
            assert forall|i: int| 0 <= i < 4 implies #[trigger] "desc"@[i] != '/' && "desc"@[i] != '\0' by {
            }
        }
    }
    let pf = dir + "/files"@;
    assert(packable_path(pf)) by {
        assert(pf[j] == '/');
        assert(pf.subrange(0, j) =~= dir);
        assert(pf.subrange(j + 1, pf.len() as int) =~= "files"@);
        assert(safe_component("files"@)) by {
            assert("files"@.len() == 5);
            assert forall|i: int| 0 <= i < 5 implies #[trigger] "files"@[i] != '/' && "files"@[i] != '\0' by {
            }
        }
    }
    assert forall|k: int| 0 <= k < entry_members(e, with_files).len()
        implies packable_path(#[trigger] entry_members(e, with_files)[k].0) by {
        if k == 0 {
            assert(entry_members(e, with_files)[0].0 == pd);
        } else {
            assert(entry_members(e, with_files)[k].0 == pf);
        }
    }
}

/// Whether the text is free of path separators and NUL.
fn text_is_clean(s: &str) -> (r: bool)
    ensures
        r == clean_text(s@),
{
    let n = s.unicode_len();
    let mut i: usize = 0;
    while i < n
        invariant
            0 <= i <= n,
            n == s@.len(),
            forall|j: int| 0 <= j < i ==> #[trigger] s@[j] != '/' && s@[j] != '\0',
        decreases n - i,
    {
        let c = s.get_char(i);
        if c as u32 == 47 || c as u32 == 0 {
            proof {
                assert(s@[i as int] == '/' || s@[i as int] == '\0') by {
                    vstd::utf8::char_u32_cast(s@[i as int], s@[i as int] as u32);
                }
            }
            return false;
        }
        i = i + 1;
    }
    true
}

/// Every member path of a clean database's archive is packable.
pub proof fn lemma_archive_members_packable(es: Seq<EntryView>, with_files: bool)
    requires
        clean_entries(es),
    ensures
        packable_members(archive_members(es, with_files)),
    decreases es.len(),
{
    if es.len() > 0 {
        let head = entry_members(es[0], with_files);
        let tail = archive_members(es.drop_first(), with_files);
        assert(archive_members(es, with_files) == head + tail);
        assert(clean_entry(es[0]));
        lemma_entry_paths_packable(es[0], with_files);
        let rest = es.drop_first();
        assert forall|i: int| 0 <= i < rest.len() implies clean_entry(#[trigger] rest[i]) by {
            assert(rest[i] == es[i + 1]);
        }
        lemma_archive_members_packable(rest, with_files);
        assert forall|i: int| 0 <= i < archive_members(es, with_files).len()
            implies packable_path(#[trigger] archive_members(es, with_files)[i].0) by {
            if i < head.len() {
                assert(archive_members(es, with_files)[i] == head[i]);
            } else {
                assert(archive_members(es, with_files)[i] == tail[i - head.len()]);
            }
        }
    }
}

/// Serialize the database to its archive bytes: entries in their canonical
/// (name-sorted) order, manifests carried exactly in a files database.
/// Succeeds exactly for the databases whose names and versions are free of
/// path separators and NUL, the only texts the archive paths can carry
/// verbatim.
pub fn save_to_bytes(db: &RepositoryDatabase) -> (r: Option<Vec<u8>>)
    ensures
        r matches Some(b) ==> b@ == archive_bytes(
            db.entries_seq(),
            db.mode_spec() == ContentMode::SyncAndFiles,
        ),
        r is Some <==> clean_entries(db.entries_seq()),
{
    let with_files = match db.mode() {
        ContentMode::SyncAndFiles => true,
        ContentMode::SyncOnly => false,
    };
    let entries = db.entries();
    let n = entries.len();
    let mut c: usize = 0;
    while c < n
        invariant
            0 <= c <= n,
            n == entries@.len(),
            entries.deep_view() == db.entries_seq(),
            forall|j: int| 0 <= j < c ==> clean_entry(#[trigger] entries.deep_view()[j]),
        decreases n - c,
    {
        let e = &entries[c];
        if !text_is_clean(e.metadata.name.as_str()) || !text_is_clean(e.metadata.version.as_str()) {
            proof {
                assert(entries.deep_view()[c as int] == entries@[c as int]@);
                assert(!clean_entry(entries.deep_view()[c as int]));
            }
            return None;
        }
        proof {
            assert(entries.deep_view()[c as int] == entries@[c as int]@);
        }
        c = c + 1;
    }
    proof {
        assert(clean_entries(db.entries_seq()));
    }
    let mut members: Vec<(String, Vec<u8>)> = Vec::new();
    let mut i: usize = 0;
    proof {
        assert(members_view(members@) =~= Seq::<(Seq<char>, Seq<u8>)>::empty());
        assert(db.entries_seq().subrange(0, 0) =~= Seq::<EntryView>::empty());
        assert(archive_members(Seq::<EntryView>::empty(), with_files)
            == Seq::<(Seq<char>, Seq<u8>)>::empty());
    }
    while i < n
        invariant
            0 <= i <= n,
            n == entries@.len(),
            entries.deep_view() == db.entries_seq(),
            with_files == (db.mode_spec() == ContentMode::SyncAndFiles),
            members_view(members@) == archive_members(
                db.entries_seq().subrange(0, i as int),
                with_files,
            ),
            clean_entries(db.entries_seq()) ==> forall|k: int|
                0 <= k < members_view(members@).len()
                    ==> packable_path(#[trigger] members_view(members@)[k].0),
        decreases n - i,
    {
        let e = &entries[i];
        let ghost ev = entries.deep_view()[i as int];
        let ghost before = members_view(members@);
        let mut dir = String::new();
        dir.append(e.metadata.name.as_str());
        dir.append("-");
        dir.append(e.metadata.version.as_str());
        proof {
            reveal_strlit("-");
            assert(ev == entries@[i as int]@);
            assert(dir@ =~= dir_of(ev.metadata));
        }
        let mut desc_path = dir.clone();
        desc_path.append("/desc");
        let text = encode_metadata(&e.metadata);
        let desc_data = slice_to_vec(text.as_str().as_bytes());
        proof {
            reveal_strlit("/desc");
            assert(desc_path@ =~= dir_of(ev.metadata) + "/desc"@);
            assert(desc_data@ == encode_utf8(encode_meta(ev.metadata)));
        }
        members.push((desc_path, desc_data));
        let ghost after_desc = members_view(members@);
        proof {
            assert(after_desc =~= before.push((desc_path@, desc_data@)));
        }
        if with_files {
            match &e.manifest {
                Some(f) => {
                    let mut files_path = dir.clone();
                    files_path.append("/files");
                    let ftext = encode_manifest(f);
                    let files_data = slice_to_vec(ftext.as_str().as_bytes());
                    proof {
                        reveal_strlit("/files");
                        assert(files_path@ =~= dir_of(ev.metadata) + "/files"@);
                        assert(files_data@ == encode_utf8(encode_manifest_spec(ev.manifest->Some_0)));
                    }
                    proof {
                        assert(ev.manifest == Some(f@));
                    }
                    members.push((files_path, files_data));
                },
                None => {},
            }
        }
        proof {
            let t1 = (dir_of(ev.metadata) + "/desc"@, encode_utf8(encode_meta(ev.metadata)));
            if with_files && ev.manifest is Some {
                let t2 = (
                    dir_of(ev.metadata) + "/files"@,
                    encode_utf8(encode_manifest_spec(ev.manifest->Some_0)),
                );
                assert(entry_members(ev, with_files) =~= seq![t1, t2]);
                assert(members_view(members@) =~= after_desc.push(t2));
                assert(members_view(members@) =~= before + seq![t1, t2]);
            } else {
                assert(entry_members(ev, with_files) =~= seq![t1]);
                assert(members_view(members@) =~= before + seq![t1]);
            }
            assert(members_view(members@) =~= before + entry_members(ev, with_files));
            lemma_archive_members_push(db.entries_seq().subrange(0, i as int), ev, with_files);
            assert(db.entries_seq().subrange(0, i as int).push(ev)
                =~= db.entries_seq().subrange(0, i as int + 1));
            if clean_entries(db.entries_seq()) {
                assert(clean_entry(ev));
                lemma_entry_paths_packable(ev, with_files);
                assert forall|k: int| 0 <= k < members_view(members@).len()
                    implies packable_path(#[trigger] members_view(members@)[k].0) by {
                    if k < before.len() {
                        assert(members_view(members@)[k] == before[k]);
                    } else {
                        assert(members_view(members@)[k]
                            == entry_members(ev, with_files)[k - before.len()]);
                    }
                }
            }
        }
        i = i + 1;
    }
    proof {
        assert(db.entries_seq().subrange(0, n as int) =~= db.entries_seq());
    }
    proof {
        assert(packable_members(members_view(members@)));
    }
    let packed = match tar_pack(&members) {
        Some(b) => b,
        None => {
            // unreachable: every path of a clean database is packable
            proof {
                assert(false);
            }
            return None;
        },
    };
    Some(gzip_compress(packed.as_slice()))
}

pub open spec fn text_ends_with(s: Seq<char>, suffix: Seq<char>) -> bool {
    s.len() >= suffix.len() && s.skip(s.len() - suffix.len()) == suffix
}

/// Whether `s` ends with the suffix.
pub fn str_ends_with(s: &str, suffix: &str) -> (r: bool)
    ensures
        r == text_ends_with(s@, suffix@),
{
    let n = s.unicode_len();
    let m = suffix.unicode_len();
    if n < m {
        return false;
    }
    let tail = s.substring_char(n - m, n);
    proof {
        assert(s@.subrange(n as int - m as int, n as int) =~= s@.skip(s@.len() - suffix@.len()));
    }
    str_eq(tail, suffix)
}

/// The records an archive's members decode to, in member order: metadata
/// from each `…/desc` member, manifests from each `…/files` member. `None`
/// is a corrupt archive: a member outside the layout, or one whose record
/// is not valid UTF-8 or does not decode.
pub open spec fn load_records(ms: Seq<(Seq<char>, Seq<u8>)>) -> Option<
    (Seq<MetaView>, Seq<ManifestView>),
>
    decreases ms.len(),
{
    if ms.len() == 0 {
        Some((Seq::empty(), Seq::empty()))
    } else if !valid_utf8(ms[0].1) {
        None
    } else if text_ends_with(ms[0].0, "/desc"@) {
        match decode_meta(decode_utf8(ms[0].1)) {
            None => None,
            Some(m) => match load_records(ms.drop_first()) {
                None => None,
                Some(r) => Some((seq![m] + r.0, r.1)),
            },
        }
    } else if text_ends_with(ms[0].0, "/files"@) {
        match decode_manifest_spec(decode_utf8(ms[0].1)) {
            None => None,
            Some(f) => match load_records(ms.drop_first()) {
                None => None,
                Some(r) => Some((r.0, seq![f] + r.1)),
            },
        }
    } else {
        None
    }
}

/// The position of the first manifest carrying this name and version, if
/// any: the pair that identifies which metadata a manifest belongs to.
pub open spec fn first_manifest_index(
    fs: Seq<ManifestView>,
    name: Seq<char>,
    version: Seq<char>,
) -> Option<int>
    decreases fs.len(),
{
    if fs.len() == 0 {
        None
    } else if fs[0].name == name && fs[0].version == version {
        Some(0)
    } else {
        match first_manifest_index(fs.drop_first(), name, version) {
            None => None,
            Some(i) => Some(i + 1),
        }
    }
}

/// The mapping a load builds: each decoded metadata record is keyed by its
/// own name field (the directory name is advisory only), paired with the
/// first still-unclaimed manifest of its name and version.
pub open spec fn loaded_map(
    m0: Map<Seq<char>, EntryView>,
    ds: Seq<MetaView>,
    fs: Seq<ManifestView>,
) -> Map<Seq<char>, EntryView>
    decreases ds.len(),
{
    if ds.len() == 0 {
        m0
    } else {
        match first_manifest_index(fs, ds[0].name, ds[0].version) {
            Some(i) => loaded_map(
                m0.insert(ds[0].name, EntryView { metadata: ds[0], manifest: Some(fs[i]) }),
                ds.drop_first(),
                fs.remove(i),
            ),
            None => loaded_map(
                m0.insert(ds[0].name, EntryView { metadata: ds[0], manifest: None }),
                ds.drop_first(),
                fs,
            ),
        }
    }
}

proof fn lemma_first_manifest_index_at(
    fs: Seq<ManifestView>,
    name: Seq<char>,
    version: Seq<char>,
    j: int,
)
    requires
        0 <= j <= fs.len(),
        forall|k: int| 0 <= k < j
            ==> !((#[trigger] fs[k]).name == name && fs[k].version == version),
        j < fs.len() ==> fs[j].name == name && fs[j].version == version,
    ensures
        j < fs.len() ==> first_manifest_index(fs, name, version) == Some(j),
        j == fs.len() ==> first_manifest_index(fs, name, version) is None,
    decreases j,
{
    if j == 0 {
    } else {
        assert(!(fs[0].name == name && fs[0].version == version));
        let rest = fs.drop_first();
        assert forall|k: int| 0 <= k < j - 1
            implies !((#[trigger] rest[k]).name == name && rest[k].version == version) by {
            assert(rest[k] == fs[k + 1]);
        }
        assert(j - 1 < rest.len() ==> rest[j - 1].name == name && rest[j - 1].version == version);
        lemma_first_manifest_index_at(rest, name, version, j - 1);
    }
}

/// The first manifest of this name and version, as an index; `None` when
/// none carries the pair.
fn find_manifest_idx(manifests: &Vec<FileManifest>, name: &str, version: &str) -> (r: Option<
    usize,
>)
    ensures
        match r {
            Some(j) => j < manifests@.len()
                && first_manifest_index(manifests.deep_view(), name@, version@) == Some(j as int),
            None => first_manifest_index(manifests.deep_view(), name@, version@) is None,
        },
{
    let mut j: usize = 0;
    let n = manifests.len();
    while j < n
        invariant
            0 <= j <= n,
            n == manifests@.len(),
            forall|k: int| 0 <= k < j
                ==> !((#[trigger] manifests.deep_view()[k]).name == name@
                    && manifests.deep_view()[k].version == version@),
        decreases n - j,
    {
        if str_eq(manifests[j].name.as_str(), name)
            && str_eq(manifests[j].version.as_str(), version) {
            proof {
                assert(manifests.deep_view()[j as int].name == name@);
                assert(manifests.deep_view()[j as int].version == version@);
                lemma_first_manifest_index_at(manifests.deep_view(), name@, version@, j as int);
            }
            return Some(j);
        }
        proof {
            assert(manifests.deep_view()[j as int] == manifests@[j as int]@);
        }
        j = j + 1;
    }
    proof {
        lemma_first_manifest_index_at(manifests.deep_view(), name@, version@, n as int);
    }
    None
}

/// The metadata records of an entry sequence, in order.
pub open spec fn metas_of(es: Seq<EntryView>) -> Seq<MetaView> {
    Seq::new(es.len(), |i: int| es[i].metadata)
}

/// The manifests a files database serializes, in order; a sync database
/// serializes none.
pub open spec fn manifests_of(es: Seq<EntryView>, with_files: bool) -> Seq<ManifestView>
    decreases es.len(),
{
    if es.len() == 0 {
        Seq::empty()
    } else {
        let rest = manifests_of(es.drop_first(), with_files);
        match es[0].manifest {
            Some(f) => if with_files { seq![f] + rest } else { rest },
            None => rest,
        }
    }
}

proof fn lemma_load_records_append(a: Seq<(Seq<char>, Seq<u8>)>, b: Seq<(Seq<char>, Seq<u8>)>)
    ensures
        load_records(a + b) == match load_records(a) {
            None => None::<(Seq<MetaView>, Seq<ManifestView>)>,
            Some(ra) => match load_records(b) {
                None => None,
                Some(rb) => Some((ra.0 + rb.0, ra.1 + rb.1)),
            },
        },
    decreases a.len(),
{
    if a.len() == 0 {
        assert(a + b =~= b);
        match load_records(b) {
            None => {},
            Some(rb) => {
                assert(Seq::<MetaView>::empty() + rb.0 =~= rb.0);
                assert(Seq::<ManifestView>::empty() + rb.1 =~= rb.1);
            },
        }
    } else {
        let ab = a + b;
        assert(ab[0] == a[0]);
        assert(ab.drop_first() =~= a.drop_first() + b);
        lemma_load_records_append(a.drop_first(), b);
        if valid_utf8(a[0].1) {
            if text_ends_with(a[0].0, "/desc"@) {
                match decode_meta(decode_utf8(a[0].1)) {
                    None => {},
                    Some(m) => {
                        match load_records(a.drop_first()) {
                            None => {},
                            Some(ra2) => {
                                match load_records(b) {
                                    None => {},
                                    Some(rb) => {
                                        assert(seq![m] + (ra2.0 + rb.0)
                                            =~= (seq![m] + ra2.0) + rb.0);
                                    },
                                }
                            },
                        }
                    },
                }
            } else if text_ends_with(a[0].0, "/files"@) {
                match decode_manifest_spec(decode_utf8(a[0].1)) {
                    None => {},
                    Some(f) => {
                        match load_records(a.drop_first()) {
                            None => {},
                            Some(ra2) => {
                                match load_records(b) {
                                    None => {},
                                    Some(rb) => {
                                        assert(seq![f] + (ra2.1 + rb.1)
                                            =~= (seq![f] + ra2.1) + rb.1);
                                    },
                                }
                            },
                        }
                    },
                }
            }
        }
    }
}

proof fn lemma_entry_members_load(e: EntryView, with_files: bool)
    requires
        crate::record::valid_meta(e.metadata),
        e.manifest matches Some(f) ==> crate::record::valid_manifest(f),
    ensures
        load_records(entry_members(e, with_files)) == Some((
            seq![e.metadata],
            if with_files && e.manifest is Some {
                seq![e.manifest->Some_0]
            } else {
                Seq::<ManifestView>::empty()
            },
        )),
{
    reveal_strlit("/desc");
    reveal_strlit("/files");
    vstd::utf8::encode_utf8_valid_utf8(encode_meta(e.metadata));
    lemma_saved_records_decode(e, with_files);
    let pd = dir_of(e.metadata) + "/desc"@;
    let dd = encode_utf8(encode_meta(e.metadata));
    assert(text_ends_with(pd, "/desc"@)) by {
        assert(pd.skip(pd.len() - 5) =~= "/desc"@);
    }
    if with_files && e.manifest is Some {
        let f = e.manifest->Some_0;
        vstd::utf8::encode_utf8_valid_utf8(encode_manifest_spec(f));
        let pf = dir_of(e.metadata) + "/files"@;
        let fd = encode_utf8(encode_manifest_spec(f));
        assert(!text_ends_with(pf, "/desc"@)) by {
            if pf.len() >= 5 && pf.skip(pf.len() - 5) == "/desc"@ {
                assert(pf.skip(pf.len() - 5)[4] == pf[pf.len() - 1]);
                assert(pf[pf.len() - 1] == 's');
                assert("/desc"@[4] == 'c');
            }
        }
        assert(text_ends_with(pf, "/files"@)) by {
            assert(pf.skip(pf.len() - 6) =~= "/files"@);
        }
        let ms = entry_members(e, with_files);
        assert(ms =~= seq![(pd, dd), (pf, fd)]);
        assert(ms[0] == (pd, dd));
        assert(ms.drop_first() =~= seq![(pf, fd)]);
        assert(seq![(pf, fd)].drop_first() =~= Seq::<(Seq<char>, Seq<u8>)>::empty());
        assert(load_records(Seq::<(Seq<char>, Seq<u8>)>::empty())
            == Some((Seq::<MetaView>::empty(), Seq::<ManifestView>::empty())));
        assert(load_records(seq![(pf, fd)]) == Some((
            Seq::<MetaView>::empty(),
            seq![f] + Seq::<ManifestView>::empty(),
        )));
        assert(seq![f] + Seq::<ManifestView>::empty() =~= seq![f]);
        assert(load_records(ms) == Some((
            seq![e.metadata] + Seq::<MetaView>::empty(),
            seq![f],
        )));
        assert(seq![e.metadata] + Seq::<MetaView>::empty() =~= seq![e.metadata]);
    } else {
        let ms = entry_members(e, with_files);
        assert(ms =~= seq![(pd, dd)]);
        assert(ms[0] == (pd, dd));
        assert(ms.drop_first() =~= Seq::<(Seq<char>, Seq<u8>)>::empty());
        assert(load_records(ms) == Some((
            seq![e.metadata] + Seq::<MetaView>::empty(),
            Seq::<ManifestView>::empty(),
        )));
        assert(seq![e.metadata] + Seq::<MetaView>::empty() =~= seq![e.metadata]);
    }
}

/// What a saved archive's members decode back to: exactly the database's
/// metadata records in order and, in a files database, its manifests in
/// order — the load side of the persistence round trip.
pub proof fn lemma_archive_loads_back(es: Seq<EntryView>, with_files: bool)
    requires
        forall|i: int| 0 <= i < es.len()
            ==> crate::record::valid_meta((#[trigger] es[i]).metadata),
        forall|i: int| 0 <= i < es.len()
            ==> ((#[trigger] es[i]).manifest is Some
                ==> crate::record::valid_manifest(es[i].manifest->Some_0)),
    ensures
        load_records(archive_members(es, with_files))
            == Some((metas_of(es), manifests_of(es, with_files))),
    decreases es.len(),
{
    if es.len() == 0 {
        assert(archive_members(es, with_files) =~= Seq::<(Seq<char>, Seq<u8>)>::empty());
        assert(metas_of(es) =~= Seq::<MetaView>::empty());
    } else {
        let head = entry_members(es[0], with_files);
        let tail = archive_members(es.drop_first(), with_files);
        assert(archive_members(es, with_files) == head + tail);
        lemma_entry_members_load(es[0], with_files);
        let rest = es.drop_first();
        assert forall|i: int| 0 <= i < rest.len()
            implies crate::record::valid_meta((#[trigger] rest[i]).metadata)
                && ((#[trigger] rest[i]).manifest is Some
                    ==> crate::record::valid_manifest(rest[i].manifest->Some_0)) by {
            assert(rest[i] == es[i + 1]);
        }
        lemma_archive_loads_back(rest, with_files);
        lemma_load_records_append(head, tail);
        assert(seq![es[0].metadata] + metas_of(rest) =~= metas_of(es));
        if with_files && es[0].manifest is Some {
            assert(seq![es[0].manifest->Some_0] + manifests_of(rest, with_files)
                =~= manifests_of(es, with_files));
        } else {
            assert(Seq::<ManifestView>::empty() + manifests_of(rest, with_files)
                =~= manifests_of(es, with_files));
        }
    }
}

/// Populate a database from its on-disk archive bytes. `None` stands for a
/// path with no archive yet: that is a valid empty state, never an error,
/// and the database is left unchanged. For archive bytes, the mapping after
/// a successful load is `loaded_map` of the decoded records: every entry
/// keyed by its decoded name field (stated for archives over packable
/// member paths, the only ones the archiver stores verbatim). A corrupt
/// archive or record aborts the whole load and leaves the mapping
/// unchanged.
pub fn load_from_bytes(db: &mut RepositoryDatabase, data: Option<&[u8]>) -> (r: Result<
    (),
    DatabaseError,
>)
    requires
        old(db).wf(),
    ensures
        final(db).wf(),
        final(db).path_spec() == old(db).path_spec(),
        final(db).signer_spec() == old(db).signer_spec(),
        final(db).mode_spec() == old(db).mode_spec(),
        data is None ==> r is Ok && final(db)@ == old(db)@,
        r is Err ==> final(db)@ == old(db)@,
        forall|ms: Seq<(Seq<char>, Seq<u8>)>|
            (data is Some && packable_members(ms) && data->0@ == #[trigger] gzip_of(tar_of(ms)))
                ==> match load_records(ms) {
                    Some(recs) => r is Ok && final(db)@ == loaded_map(old(db)@, recs.0, recs.1),
                    None => r is Err,
                },
{
    let bytes = match data {
        None => {
            return Ok(());
        },
        Some(b) => b,
    };
    let raw = match gzip_decompress(bytes) {
        Some(b) => b,
        None => {
            proof {
                assert forall|ms: Seq<(Seq<char>, Seq<u8>)>|
                    !(data is Some && packable_members(ms)
                        && data->0@ == #[trigger] gzip_of(tar_of(ms))) by {
                    if data->0@ == gzip_of(tar_of(ms)) {
                        assert(bytes@ == gzip_of(tar_of(ms)));
                    }
                }
            }
            return Err(DatabaseError::Corrupt);
        },
    };
    let mut members = match tar_unpack(raw.as_slice()) {
        Some(ms) => ms,
        None => {
            proof {
                assert forall|ms: Seq<(Seq<char>, Seq<u8>)>|
                    !(data is Some && packable_members(ms)
                        && data->0@ == #[trigger] gzip_of(tar_of(ms))) by {
                    if packable_members(ms) && data->0@ == gzip_of(tar_of(ms)) {
                        assert(raw@ == tar_of(ms));
                    }
                }
            }
            return Err(DatabaseError::Corrupt);
        },
    };
    let ghost all = members_view(members@);
    proof {
        assert forall|ms: Seq<(Seq<char>, Seq<u8>)>|
            (data is Some && packable_members(ms) && data->0@ == #[trigger] gzip_of(tar_of(ms)))
            implies ms == all by {
            assert(bytes@ == gzip_of(tar_of(ms)));
            assert(raw@ == tar_of(ms));
        }
    }
    let mut descs: Vec<PackageMetadata> = Vec::new();
    let mut manifests: Vec<FileManifest> = Vec::new();
    proof {
        assert(descs.deep_view() =~= Seq::<MetaView>::empty());
        assert(manifests.deep_view() =~= Seq::<ManifestView>::empty());
        match load_records(all) {
            Some(r2) => {
                assert(descs.deep_view() + r2.0 =~= r2.0);
                assert(manifests.deep_view() + r2.1 =~= r2.1);
            },
            None => {},
        }
    }
    while members.len() > 0
        invariant
            *db == *old(db),
            old(db).wf(),
            data is Some,
            forall|ms: Seq<(Seq<char>, Seq<u8>)>|
                (packable_members(ms) && data->0@ == #[trigger] gzip_of(tar_of(ms)))
                    ==> ms == all,
            match load_records(members_view(members@)) {
                Some(r2) => load_records(all) == Some(
                    (descs.deep_view() + r2.0, manifests.deep_view() + r2.1),
                ),
                None => load_records(all) is None,
            },
        decreases members.len(),
    {
        let ghost cur = members_view(members@);
        let ghost ds0 = descs.deep_view();
        let ghost fs0 = manifests.deep_view();
        let (path, content) = members.remove(0);
        proof {
            assert(cur[0] == (path@, content@));
            assert(members_view(members@) =~= cur.drop_first());
        }
        let text = match bytes_to_string(content) {
            Some(t) => t,
            None => {
                proof {
                    assert(load_records(cur) is None);
                }
                return Err(DatabaseError::Corrupt);
            },
        };
        if str_ends_with(path.as_str(), "/desc") {
            match decode_metadata(text.as_str()) {
                Ok(m) => {
                    proof {
                        assert(decode_meta(decode_utf8(content@)) == Some(m@));
                    }
                    descs.push(m);
                    proof {
                        assert(descs.deep_view() =~= ds0.push(m@));
                        match load_records(members_view(members@)) {
                            Some(r2) => {
                                assert(load_records(cur) == Some((seq![m@] + r2.0, r2.1)));
                                assert(ds0 + (seq![m@] + r2.0) =~= descs.deep_view() + r2.0);
                            },
                            None => {
                                assert(load_records(cur) is None);
                            },
                        }
                    }
                },
                Err(_) => {
                    proof {
                        assert(decode_meta(decode_utf8(content@)) is None);
                        assert(load_records(cur) is None);
                    }
                    return Err(DatabaseError::Corrupt);
                },
            }
        } else if str_ends_with(path.as_str(), "/files") {
            match decode_manifest(text.as_str()) {
                Ok(f) => {
                    proof {
                        assert(decode_manifest_spec(decode_utf8(content@)) == Some(f@));
                    }
                    manifests.push(f);
                    proof {
                        assert(manifests.deep_view() =~= fs0.push(f@));
                        match load_records(members_view(members@)) {
                            Some(r2) => {
                                assert(load_records(cur) == Some((r2.0, seq![f@] + r2.1)));
                                assert(fs0 + (seq![f@] + r2.1) =~= manifests.deep_view() + r2.1);
                            },
                            None => {
                                assert(load_records(cur) is None);
                            },
                        }
                    }
                },
                Err(_) => {
                    proof {
                        assert(decode_manifest_spec(decode_utf8(content@)) is None);
                        assert(load_records(cur) is None);
                    }
                    return Err(DatabaseError::Corrupt);
                },
            }
        } else {
            proof {
                assert(load_records(cur) is None);
            }
            return Err(DatabaseError::Corrupt);
        }
    }
    let ghost all_descs = descs.deep_view();
    let ghost all_manifests = manifests.deep_view();
    proof {
        assert(members_view(members@).len() == 0);
        assert(members_view(members@) =~= Seq::<(Seq<char>, Seq<u8>)>::empty());
        match load_records(members_view(members@)) {
            Some(r2) => {
                assert(all_descs + r2.0 =~= all_descs);
                assert(all_manifests + r2.1 =~= all_manifests);
            },
            None => {},
        }
        assert(load_records(all) == Some((all_descs, all_manifests)));
    }
    while descs.len() > 0
        invariant
            db.wf(),
            db.path_spec() == old(db).path_spec(),
            db.signer_spec() == old(db).signer_spec(),
            db.mode_spec() == old(db).mode_spec(),
            data is Some,
            forall|ms: Seq<(Seq<char>, Seq<u8>)>|
                (packable_members(ms) && data->0@ == #[trigger] gzip_of(tar_of(ms)))
                    ==> ms == all,
            load_records(all) == Some((all_descs, all_manifests)),
            loaded_map(old(db)@, all_descs, all_manifests)
                == loaded_map(db@, descs.deep_view(), manifests.deep_view()),
        decreases descs.len(),
    {
        let ghost ds = descs.deep_view();
        let ghost fs = manifests.deep_view();
        let meta = descs.remove(0);
        proof {
            assert(ds[0] == meta@);
            assert(descs.deep_view() =~= ds.drop_first());
        }
        match find_manifest_idx(&manifests, meta.name.as_str(), meta.version.as_str()) {
            Some(j) => {
                proof {
                    assert(first_manifest_index(fs, meta@.name, meta@.version) == Some(j as int));
                }
                let f = manifests.remove(j);
                proof {
                    assert(f@ == fs[j as int]);
                    assert(manifests.deep_view() =~= fs.remove(j as int));
                }
                db.add(meta, Some(f));
                proof {
                    assert(loaded_map(old(db)@, all_descs, all_manifests)
                        == loaded_map(db@, descs.deep_view(), manifests.deep_view()));
                }
            },
            None => {
                proof {
                    assert(first_manifest_index(fs, meta@.name, meta@.version) is None);
                }
                db.add(meta, None);
                proof {
                    assert(loaded_map(old(db)@, all_descs, all_manifests)
                        == loaded_map(db@, descs.deep_view(), manifests.deep_view()));
                }
            },
        }
    }
    proof {
        assert(descs.deep_view() =~= Seq::<MetaView>::empty());
        assert(loaded_map(db@, descs.deep_view(), manifests.deep_view()) == db@);
    }
    Ok(())
}

} // verus!
