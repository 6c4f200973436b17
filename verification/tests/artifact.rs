use repodb::loader::{artifact_checksum, load_package, ArtifactError};
use repodb::record::{encode_metadata, Architecture, PackageMetadata};
use std::io::Write;

fn pack_artifact(members: &[(&str, &[u8])]) -> Vec<u8> {
    let mut builder = tar::Builder::new(Vec::new());
    for (path, data) in members {
        let mut header = tar::Header::new_gnu();
        header.set_size(data.len() as u64);
        header.set_mode(0o644);
        builder.append_data(&mut header, path, *data).unwrap();
    }
    let packed = builder.into_inner().unwrap();
    let mut enc = flate2::write::GzEncoder::new(Vec::new(), flate2::Compression::default());
    enc.write_all(&packed).unwrap();
    enc.finish().unwrap()
}

fn control_record() -> PackageMetadata {
    PackageMetadata {
        name: "foo".to_string(),
        version: "1.0-1".to_string(),
        arch: Architecture::X86_64,
        description: "a tool".to_string(),
        checksum: String::new(),
        size: 0,
        builddate: 7,
        packager: "tester".to_string(),
        depends: vec!["libc".to_string()],
        provides: vec![],
        conflicts: vec![],
        extras: vec![],
    }
}

#[test]
fn checksum_matches_known_digest() {
    // sha256 of "abc", a published reference value
    assert_eq!(
        artifact_checksum(b"abc"),
        "ba7816bf8f01cfea414140de5dae2223b00361a396177a9cb410ff61f20015ad"
    );
    assert_eq!(
        artifact_checksum(b""),
        "e3b0c44298fc1c149afbf4c8996fb92427ae41e4649b934ca495991b7852b855"
    );
}

#[test]
fn load_package_yields_metadata_manifest_and_checksum() {
    let control = encode_metadata(&control_record());
    let artifact = pack_artifact(&[
        (".PKGINFO", control.as_bytes()),
        ("usr/bin/foo", b"#!/bin/sh\n"),
        ("usr/share/doc/foo", b"docs"),
    ]);
    let (meta, manifest, checksum) = load_package(&artifact).expect("artifact must load");
    assert_eq!(meta.name, "foo");
    assert_eq!(meta.version, "1.0-1");
    assert_eq!(meta.arch, Architecture::X86_64);
    assert_eq!(meta.depends, vec!["libc".to_string()]);
    // the loader fills in the artifact's own checksum and size
    assert_eq!(checksum, artifact_checksum(&artifact));
    assert_eq!(meta.checksum, checksum);
    assert_eq!(meta.size, artifact.len() as u64);
    assert_eq!(manifest.name, "foo");
    assert_eq!(manifest.version, "1.0-1");
    assert_eq!(
        manifest.files,
        vec!["usr/bin/foo".to_string(), "usr/share/doc/foo".to_string()]
    );
}

#[test]
fn artifact_without_control_entry_is_rejected() {
    let artifact = pack_artifact(&[("usr/bin/foo", b"x")]);
    assert_eq!(
        load_package(&artifact).unwrap_err(),
        ArtifactError::MissingControlEntry
    );
}

#[test]
fn artifact_with_bad_control_entry_is_rejected() {
    let artifact = pack_artifact(&[(".PKGINFO", b"gibberish")]);
    assert_eq!(
        load_package(&artifact).unwrap_err(),
        ArtifactError::MalformedControlEntry
    );
}

#[test]
fn unreadable_artifact_is_rejected() {
    assert_eq!(
        load_package(b"not gzip at all").unwrap_err(),
        ArtifactError::Unreadable
    );
}
