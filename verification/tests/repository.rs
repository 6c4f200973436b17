use repodb::archive::{load_from_bytes, save_to_bytes};
use std::io::Read;
use std::io::Write;
use repodb::database::{signature_path, ContentMode, RepositoryDatabase};
use repodb::record::{Architecture, FileManifest, PackageMetadata};

fn meta(name: &str, version: &str) -> PackageMetadata {
    PackageMetadata {
        name: name.to_string(),
        version: version.to_string(),
        arch: Architecture::X86_64,
        description: format!("{} description", name),
        checksum: "00ff".to_string(),
        size: 10,
        builddate: 100,
        packager: "tester".to_string(),
        depends: vec![],
        provides: vec![],
        conflicts: vec![],
        extras: vec![],
    }
}

fn manifest(name: &str, version: &str, files: &[&str]) -> FileManifest {
    FileManifest {
        name: name.to_string(),
        version: version.to_string(),
        files: files.iter().map(|f| f.to_string()).collect(),
    }
}

#[test]
fn add_then_contains_and_stores_exactly() {
    let mut db = RepositoryDatabase::new("r.db".to_string(), None, ContentMode::SyncOnly);
    let m = meta("foo", "1.0-1");
    db.add(m.clone(), None);
    assert!(db.contains("foo"));
    let entry = db.get("foo").expect("entry must be present after add");
    assert_eq!(entry.metadata, m);
    assert_eq!(entry.manifest, None);
}

#[test]
fn remove_is_idempotent() {
    let mut db = RepositoryDatabase::new("r.db".to_string(), None, ContentMode::SyncOnly);
    db.add(meta("foo", "1.0-1"), None);
    assert!(db.contains("foo"));
    db.remove("foo");
    assert!(!db.contains("foo"));
    assert_eq!(db.len(), 0);
    // removing an absent name is a no-op success
    db.remove("foo");
    assert!(!db.contains("foo"));
    assert_eq!(db.len(), 0);
}

#[test]
fn add_same_name_last_write_wins() {
    let mut db = RepositoryDatabase::new("r.db".to_string(), None, ContentMode::SyncOnly);
    db.add(meta("foo", "1.0-1"), None);
    let v2 = meta("foo", "2.0-1");
    db.add(v2.clone(), None);
    assert_eq!(db.len(), 1);
    let entry = db.get("foo").unwrap();
    assert_eq!(entry.metadata, v2);
    assert_eq!(entry.metadata.version, "2.0-1");
}

#[test]
fn load_on_nonexistent_archive_is_empty_not_error() {
    let mut db = RepositoryDatabase::new("r.db".to_string(), None, ContentMode::SyncOnly);
    let r = load_from_bytes(&mut db, None);
    assert!(r.is_ok());
    assert_eq!(db.len(), 0);
    assert!(!db.contains("foo"));
}

#[test]
fn end_to_end_save_and_reload_both_databases() {
    let m = meta("foo", "1.0-1");
    let f = manifest("foo", "1.0-1", &["usr/bin/foo"]);

    let mut sync_db = RepositoryDatabase::new("r.db".to_string(), None, ContentMode::SyncOnly);
    let mut files_db =
        RepositoryDatabase::new("r.files".to_string(), None, ContentMode::SyncAndFiles);
    sync_db.add(m.clone(), Some(f.clone()));
    files_db.add(m.clone(), Some(f.clone()));

    let sync_bytes = save_to_bytes(&sync_db).expect("sync database must serialize");
    let files_bytes = save_to_bytes(&files_db).expect("files database must serialize");

    let mut sync_re = RepositoryDatabase::new("r.db".to_string(), None, ContentMode::SyncOnly);
    load_from_bytes(&mut sync_re, Some(&sync_bytes)).expect("sync archive must load");
    assert_eq!(sync_re.len(), 1);
    let e = sync_re.get("foo").unwrap();
    assert_eq!(e.metadata, m);
    assert_eq!(e.manifest, None);

    let mut files_re =
        RepositoryDatabase::new("r.files".to_string(), None, ContentMode::SyncAndFiles);
    load_from_bytes(&mut files_re, Some(&files_bytes)).expect("files archive must load");
    assert_eq!(files_re.len(), 1);
    let e = files_re.get("foo").unwrap();
    assert_eq!(e.metadata, m);
    let got = e.manifest.as_ref().expect("files database must carry the manifest");
    assert_eq!(got, &f);
    assert_eq!(got.files, vec!["usr/bin/foo".to_string()]);
}

#[test]
fn save_bytes_are_deterministic_and_order_independent() {
    let mut a = RepositoryDatabase::new("r.db".to_string(), None, ContentMode::SyncOnly);
    a.add(meta("zed", "1-1"), None);
    a.add(meta("alpha", "1-1"), None);
    let mut b = RepositoryDatabase::new("r.db".to_string(), None, ContentMode::SyncOnly);
    b.add(meta("alpha", "1-1"), None);
    b.add(meta("zed", "1-1"), None);
    assert_eq!(save_to_bytes(&a).unwrap(), save_to_bytes(&b).unwrap());
}

#[test]
fn corrupt_archive_is_an_error() {
    let mut db = RepositoryDatabase::new("r.db".to_string(), None, ContentMode::SyncOnly);
    let garbage = vec![1u8, 2, 3, 4, 5];
    assert!(load_from_bytes(&mut db, Some(&garbage)).is_err());
}

#[test]
fn one_bad_record_aborts_the_whole_load() {
    // a valid gzip+tar archive whose single member is not a decodable record
    let mut builder = tar::Builder::new(Vec::new());
    let body = b"not a record";
    let mut header = tar::Header::new_gnu();
    header.set_size(body.len() as u64);
    header.set_mode(0o644);
    builder
        .append_data(&mut header, "foo-1.0-1/desc", &body[..])
        .unwrap();
    let packed = builder.into_inner().unwrap();
    let mut enc = flate2::write::GzEncoder::new(Vec::new(), flate2::Compression::default());
    enc.write_all(&packed).unwrap();
    let bytes = enc.finish().unwrap();

    let mut db = RepositoryDatabase::new("r.db".to_string(), None, ContentMode::SyncOnly);
    assert!(load_from_bytes(&mut db, Some(&bytes)).is_err());
}

#[test]
fn signer_configuration_decides_signing() {
    let unsigned = RepositoryDatabase::new("r.db".to_string(), None, ContentMode::SyncOnly);
    assert!(!unsigned.should_sign());
    let signed = RepositoryDatabase::new(
        "r.db".to_string(),
        Some("key-id".to_string()),
        ContentMode::SyncOnly,
    );
    assert!(signed.should_sign());
    assert_eq!(signed.signer().as_deref(), Some("key-id"));
    assert_eq!(signature_path("repo/r.db"), "repo/r.db.sig");
}

#[test]
fn archive_is_gzip_compressed_tar_in_layout_order() {
    let mut db = RepositoryDatabase::new("r.files".to_string(), None, ContentMode::SyncAndFiles);
    let m = meta("foo", "1.0-1");
    let f = manifest("foo", "1.0-1", &["usr/bin/foo"]);
    db.add(m.clone(), Some(f.clone()));
    let bytes = save_to_bytes(&db).unwrap();
    // the archive must be real gzip over a real tar stream, not the raw text
    assert_eq!(&bytes[0..2], &[0x1f, 0x8b]);
    let mut raw = Vec::new();
    flate2::read::GzDecoder::new(&bytes[..])
        .read_to_end(&mut raw)
        .expect("the saved archive must decompress as gzip");
    let mut archive = tar::Archive::new(&raw[..]);
    let mut names: Vec<String> = Vec::new();
    let mut first_body = String::new();
    for (i, entry) in archive.entries().unwrap().enumerate() {
        let mut entry = entry.unwrap();
        names.push(entry.path().unwrap().to_str().unwrap().to_string());
        if i == 0 {
            entry.read_to_string(&mut first_body).unwrap();
        }
    }
    assert_eq!(
        names,
        vec!["foo-1.0-1/desc".to_string(), "foo-1.0-1/files".to_string()]
    );
    assert_eq!(first_body, repodb::record::encode_metadata(&m));
}

#[test]
fn failed_load_leaves_database_unchanged() {
    let mut db = RepositoryDatabase::new("r.db".to_string(), None, ContentMode::SyncOnly);
    let m = meta("foo", "1.0-1");
    db.add(m.clone(), None);
    let garbage = vec![9u8, 9, 9];
    assert!(load_from_bytes(&mut db, Some(&garbage)).is_err());
    assert_eq!(db.len(), 1);
    assert_eq!(db.get("foo").unwrap().metadata, m);
}

#[test]
fn name_with_path_separator_cannot_serialize() {
    // archive member paths carry names verbatim only without separators
    let mut db = RepositoryDatabase::new("r.db".to_string(), None, ContentMode::SyncOnly);
    db.add(meta("bad/name", "1-1"), None);
    assert!(save_to_bytes(&db).is_none());
    let mut ok = RepositoryDatabase::new("r.db".to_string(), None, ContentMode::SyncOnly);
    ok.add(meta("good-name", "1-1"), None);
    assert!(save_to_bytes(&ok).is_some());
}
