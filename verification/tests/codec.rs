use repodb::record::{
    arch_from_str, arch_to_str, decode_manifest, decode_metadata, encode_manifest,
    encode_metadata, Architecture, FileManifest, PackageMetadata, RecordError,
};
use repodb::sections::Section;
use repodb::numbers::{parse_decimal, to_decimal};

fn sample_metadata() -> PackageMetadata {
    PackageMetadata {
        name: "foo".to_string(),
        version: "1.0-1".to_string(),
        arch: Architecture::X86_64,
        description: "an example package".to_string(),
        checksum: "aa".to_string(),
        size: 1234,
        builddate: 1456714800,
        packager: "Someone <someone@example.com>".to_string(),
        depends: vec!["libc".to_string(), "zlib".to_string()],
        provides: vec![],
        conflicts: vec!["bar".to_string()],
        extras: vec![Section {
            key: "LICENSE".to_string(),
            values: vec!["MIT".to_string()],
        }],
    }
}

#[test]
fn metadata_round_trip() {
    let m = sample_metadata();
    let text = encode_metadata(&m);
    let back = decode_metadata(text.as_str()).expect("canonical text must decode");
    assert_eq!(back, m);
}

#[test]
fn metadata_round_trip_minimal() {
    let m = PackageMetadata {
        name: "a".to_string(),
        version: "0".to_string(),
        arch: Architecture::Independent,
        description: String::new(),
        checksum: String::new(),
        size: 0,
        builddate: 0,
        packager: String::new(),
        depends: vec![],
        provides: vec![],
        conflicts: vec![],
        extras: vec![],
    };
    let text = encode_metadata(&m);
    let back = decode_metadata(text.as_str()).expect("minimal record must decode");
    assert_eq!(back, m);
}

#[test]
fn encoding_is_deterministic_and_fixed_order() {
    let m = sample_metadata();
    let a = encode_metadata(&m);
    let b = encode_metadata(&m);
    assert_eq!(a, b);
    let expected = "%NAME%\nfoo\n\n%VERSION%\n1.0-1\n\n%ARCH%\nx86_64\n\n\
%DESC%\nan example package\n\n%CSIZE%\n1234\n\n%SHA256SUM%\naa\n\n\
%BUILDDATE%\n1456714800\n\n%PACKAGER%\nSomeone <someone@example.com>\n\n\
%DEPENDS%\nlibc\nzlib\n\n%CONFLICTS%\nbar\n\n%LICENSE%\nMIT\n\n";
    assert_eq!(a, expected);
}

#[test]
fn manifest_round_trip() {
    let f = FileManifest {
        name: "foo".to_string(),
        version: "1.0-1".to_string(),
        files: vec!["usr/bin/foo".to_string(), "usr/share/doc/foo".to_string()],
    };
    let text = encode_manifest(&f);
    let back = decode_manifest(text.as_str()).expect("canonical manifest must decode");
    assert_eq!(back, f);
}

#[test]
fn repeated_round_trips_are_stable() {
    let m = sample_metadata();
    let once = encode_metadata(&m);
    let decoded = decode_metadata(once.as_str()).unwrap();
    let twice = encode_metadata(&decoded);
    assert_eq!(once, twice);
}

#[test]
fn missing_name_is_malformed() {
    assert_eq!(decode_metadata(""), Err(RecordError::Malformed));
    assert_eq!(
        decode_metadata("%VERSION%\n1.0-1\n\n"),
        Err(RecordError::Malformed)
    );
}

#[test]
fn missing_version_is_malformed() {
    assert_eq!(
        decode_metadata("%NAME%\nfoo\n\n"),
        Err(RecordError::Malformed)
    );
}

#[test]
fn headerless_section_is_malformed() {
    assert_eq!(decode_metadata("foo\n\n"), Err(RecordError::Malformed));
    assert_eq!(
        decode_metadata("%NAME%\nfoo\n\nbar\n\n"),
        Err(RecordError::Malformed)
    );
}

#[test]
fn unknown_architecture_is_malformed() {
    assert_eq!(
        decode_metadata("%NAME%\nfoo\n\n%VERSION%\n1\n\n%ARCH%\nsparc\n\n"),
        Err(RecordError::Malformed)
    );
}

#[test]
fn unparsable_size_is_malformed() {
    assert_eq!(
        decode_metadata("%NAME%\nfoo\n\n%VERSION%\n1\n\n%CSIZE%\nbig\n\n"),
        Err(RecordError::Malformed)
    );
}

#[test]
fn unterminated_final_section_is_malformed() {
    // end of input reached while the last section still awaits its blank line
    assert_eq!(
        decode_metadata("%NAME%\nfoo\n\n%VERSION%\n1.0-1"),
        Err(RecordError::Malformed)
    );
    assert_eq!(
        decode_metadata("%NAME%\nfoo\n\n%VERSION%\n1.0-1\n"),
        Err(RecordError::Malformed)
    );
}

#[test]
fn unknown_keys_are_preserved_in_order() {
    let text = "%NAME%\nfoo\n\n%VERSION%\n1\n\n%ZZZ%\nlast\n\n%AAA%\nfirst\nsecond\n\n";
    let m = decode_metadata(text).unwrap();
    assert_eq!(m.extras.len(), 2);
    assert_eq!(m.extras[0].key, "ZZZ");
    assert_eq!(m.extras[0].values, vec!["last".to_string()]);
    assert_eq!(m.extras[1].key, "AAA");
    assert_eq!(
        m.extras[1].values,
        vec!["first".to_string(), "second".to_string()]
    );
    let re = encode_metadata(&m);
    assert!(re.ends_with("%ZZZ%\nlast\n\n%AAA%\nfirst\nsecond\n\n"));
}

#[test]
fn architecture_names() {
    assert_eq!(arch_to_str(Architecture::I686), "i686");
    assert_eq!(arch_to_str(Architecture::X86_64), "x86_64");
    assert_eq!(arch_to_str(Architecture::Independent), "any");
    assert_eq!(arch_from_str("i686"), Some(Architecture::I686));
    assert_eq!(arch_from_str("x86_64"), Some(Architecture::X86_64));
    assert_eq!(arch_from_str("any"), Some(Architecture::Independent));
    assert_eq!(arch_from_str("sparc"), None);
}

#[test]
fn decimal_text() {
    assert_eq!(to_decimal(0), "0");
    assert_eq!(to_decimal(42), "42");
    assert_eq!(to_decimal(u64::MAX), "18446744073709551615");
    assert_eq!(parse_decimal("0"), Some(0));
    assert_eq!(parse_decimal("18446744073709551615"), Some(u64::MAX));
    assert_eq!(parse_decimal("18446744073709551616"), None);
    assert_eq!(parse_decimal(""), None);
    assert_eq!(parse_decimal("12a"), None);
}
