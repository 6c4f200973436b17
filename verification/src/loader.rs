//! Package-artifact loader: a compressed artifact holding one control record
//! plus payload files becomes a metadata record, a file manifest, and the
//! artifact's content checksum.
use vstd::prelude::*;
use vstd::string::StringExecFns;
use vstd::utf8::{decode_utf8, valid_utf8};
use sha2::Digest;
use crate::archive::{gzip_of, tar_of, members_view, packable_members, bytes_to_string};
use crate::lines::str_eq;
use crate::record::{PackageMetadata, FileManifest, MetaView, ManifestView, decode_meta,
    decode_metadata};

verus! {

/// Why an artifact was rejected: it could not be opened or decompressed, its
/// control record is absent, or its control record does not decode.
#[derive(Clone, Copy, Debug, PartialEq, Eq, Structural)]
pub enum ArtifactError {
    Unreadable,
    MissingControlEntry,
    MalformedControlEntry,
}

/// The 32-byte digest of a byte sequence: a function of the bytes alone.
pub uninterp spec fn sha256_of(data: Seq<u8>) -> Seq<u8>;

/// Relies on sha2's `Sha256`: a 32-byte digest depending on the input bytes
/// alone.
#[verifier::external_body]
fn sha256_digest(data: &[u8]) -> (r: Vec<u8>)
    ensures
        r@ == sha256_of(data@),
        r@.len() == 32,
{
    sha2::Sha256::digest(data).to_vec()
}

/// The character for one hex digit (lowercase).
pub open spec fn hex_char(d: nat) -> char {
    if d < 10 {
        crate::numbers::digit_char(d)
    } else if d == 10 { 'a' }
    else if d == 11 { 'b' }
    else if d == 12 { 'c' }
    else if d == 13 { 'd' }
    else if d == 14 { 'e' }
    else { 'f' }
}

/// Lowercase hex text of a byte sequence: two digits for each byte.
pub open spec fn hex_of(bs: Seq<u8>) -> Seq<char>
    decreases bs.len(),
{
    if bs.len() == 0 {
        Seq::empty()
    } else {
        hex_of(bs.drop_last()) + seq![
            hex_char((bs.last() / 16) as nat),
            hex_char((bs.last() % 16) as nat),
        ]
    }
}

fn hex_digit_str(d: u8) -> (s: &'static str)
    requires
        d < 16,
    ensures
        s@ =~= seq![hex_char(d as nat)],
{
    if d < 10 {
        crate::numbers::digit_str(d as u64)
    } else {
        proof {
            reveal_strlit("a");
            reveal_strlit("b");
            reveal_strlit("c");
            reveal_strlit("d");
            reveal_strlit("e");
            reveal_strlit("f");
        }
        if d == 10 { "a" }
        else if d == 11 { "b" }
        else if d == 12 { "c" }
        else if d == 13 { "d" }
        else if d == 14 { "e" }
        else { "f" }
    }
}

/// Lowercase hex text of bytes.
pub fn to_hex(bs: &Vec<u8>) -> (s: String)
    ensures
        s@ == hex_of(bs@),
{
    let mut out = String::new();
    let mut i: usize = 0;
    proof {
        assert(bs@.subrange(0, 0) =~= Seq::<u8>::empty());
        assert(out@ =~= hex_of(bs@.subrange(0, 0)));
    }
    while i < bs.len()
        invariant
            0 <= i <= bs@.len(),
            out@ == hex_of(bs@.subrange(0, i as int)),
        decreases bs@.len() - i,
    {
        let b = bs[i];
        out.append(hex_digit_str(b / 16));
        out.append(hex_digit_str(b % 16));
        proof {
            let pre = bs@.subrange(0, i as int);
            let ext = bs@.subrange(0, i as int + 1);
            assert(ext.drop_last() =~= pre);
            assert(ext.last() == bs@[i as int]);
            assert(out@ =~= hex_of(ext));
        }
        i = i + 1;
    }
    proof {
        assert(bs@.subrange(0, bs@.len() as int) =~= bs@);
    }
    out
}

/// The contents of the first control entry among the members, if any.
pub open spec fn first_control(ms: Seq<(Seq<char>, Seq<u8>)>) -> Option<Seq<u8>>
    decreases ms.len(),
{
    if ms.len() == 0 {
        None
    } else if ms[0].0 == ".PKGINFO"@ {
        Some(ms[0].1)
    } else {
        first_control(ms.drop_first())
    }
}

/// The payload paths among the members, in archive order, the control entry
/// excluded.
pub open spec fn payload_paths(ms: Seq<(Seq<char>, Seq<u8>)>) -> Seq<Seq<char>>
    decreases ms.len(),
{
    if ms.len() == 0 {
        Seq::empty()
    } else if ms[0].0 == ".PKGINFO"@ {
        payload_paths(ms.drop_first())
    } else {
        seq![ms[0].0] + payload_paths(ms.drop_first())
    }
}

/// What loading a package from its archive members yields: its decoded
/// control record carrying the given checksum and size, and the manifest of
/// its payload paths. `None` is a missing or undecodable control record.
pub open spec fn package_spec(
    ms: Seq<(Seq<char>, Seq<u8>)>,
    csum: Seq<char>,
    size: u64,
) -> Option<(MetaView, ManifestView)> {
    match first_control(ms) {
        None => None,
        Some(bytes) => if !valid_utf8(bytes) {
            None
        } else {
            match decode_meta(decode_utf8(bytes)) {
                None => None,
                Some(m) => Some(
                    (
                        MetaView { checksum: csum, size: size, ..m },
                        ManifestView { name: m.name, version: m.version, files: payload_paths(ms) },
                    ),
                ),
            }
        },
    }
}

/// Turn unpacked artifact members into the package's records; errs exactly
/// where the control record is absent or does not decode.
pub fn parse_package_members(
    members: Vec<(String, Vec<u8>)>,
    checksum: String,
    size: u64,
) -> (r: Result<(PackageMetadata, FileManifest), ArtifactError>)
    ensures
        r matches Ok(p) ==> package_spec(members_view(members@), checksum@, size)
            == Some((p.0@, p.1@)),
        r matches Err(e) ==> {
            &&& package_spec(members_view(members@), checksum@, size) is None
            &&& e != ArtifactError::Unreadable
            &&& (e == ArtifactError::MissingControlEntry
                <==> first_control(members_view(members@)) is None)
        },
{
    let ghost all = members_view(members@);
    let mut rest = members;
    let mut control: Option<Vec<u8>> = None;
    let mut paths: Vec<String> = Vec::new();
    proof {
        assert(paths.deep_view() =~= Seq::<Seq<char>>::empty());
        assert(members_view(rest@) =~= all);
    }
    while rest.len() > 0
        invariant
            control matches Some(c) ==> first_control(all) == Some(c@),
            control is None ==> first_control(all) == first_control(members_view(rest@)),
            payload_paths(all) == paths.deep_view() + payload_paths(members_view(rest@)),
        decreases rest.len(),
    {
        let ghost cur = members_view(rest@);
        let (path, data) = rest.remove(0);
        proof {
            assert(cur[0] == (path@, data@));
            assert(members_view(rest@) =~= cur.drop_first());
        }
        if str_eq(path.as_str(), ".PKGINFO") {
            if control.is_none() {
                control = Some(data);
            }
        } else {
            let ghost before = paths.deep_view();
            paths.push(path);
            proof {
                assert(paths.deep_view() =~= before.push(path@));
                assert(before.push(path@) + payload_paths(cur.drop_first())
                    =~= before + (seq![path@] + payload_paths(cur.drop_first())));
            }
        }
    }
    proof {
        assert(members_view(rest@).len() == 0);
        assert(members_view(rest@) =~= Seq::<(Seq<char>, Seq<u8>)>::empty());
        assert(payload_paths(all) =~= paths.deep_view());
    }
    let control_bytes = match control {
        None => {
            return Err(ArtifactError::MissingControlEntry);
        },
        Some(c) => c,
    };
    let text = match bytes_to_string(control_bytes) {
        None => {
            return Err(ArtifactError::MalformedControlEntry);
        },
        Some(t) => t,
    };
    let mut meta = match decode_metadata(text.as_str()) {
        Err(_) => {
            return Err(ArtifactError::MalformedControlEntry);
        },
        Ok(m) => m,
    };
    let ghost decoded = meta@;
    let name = meta.name.clone();
    let version = meta.version.clone();
    meta.checksum = checksum;
    meta.size = size;
    let manifest = FileManifest { name, version, files: paths };
    proof {
        assert(meta@ =~~= (MetaView { checksum: checksum@, size: size, ..decoded }));
        assert(manifest@ =~~= (ManifestView {
            name: decoded.name,
            version: decoded.version,
            files: payload_paths(all),
        }));
    }
    Ok((meta, manifest))
}

/// The content checksum of an artifact's bytes, as lowercase hex digits.
pub fn artifact_checksum(data: &[u8]) -> (r: String)
    ensures
        r@ == hex_of(sha256_of(data@)),
{
    let digest = sha256_digest(data);
    to_hex(&digest)
}

/// Load a package artifact from its bytes: stream the whole artifact into
/// its checksum, decode the control record, and list the payload paths.
/// The metadata comes back carrying the artifact's checksum and size.
pub fn load_package(data: &[u8]) -> (r: Result<(PackageMetadata, FileManifest, String), ArtifactError>)
    ensures
        r matches Ok(t) ==> {
            &&& t.2@ == hex_of(sha256_of(data@))
            &&& t.0@.checksum == t.2@
            &&& t.0@.size == data@.len()
        },
        forall|ms: Seq<(Seq<char>, Seq<u8>)>|
            (packable_members(ms) && data@ == #[trigger] gzip_of(tar_of(ms)))
                ==> match r {
                    Ok(t) => package_spec(ms, hex_of(sha256_of(data@)), data@.len() as u64)
                        == Some((t.0@, t.1@)),
                    Err(e) => package_spec(ms, hex_of(sha256_of(data@)), data@.len() as u64)
                        is None && e != ArtifactError::Unreadable,
                },
{
    let digest = sha256_digest(data);
    let hex = to_hex(&digest);
    let size = data.len() as u64;
    let raw = match crate::archive::gzip_decompress(data) {
        Some(b) => b,
        None => {
            return Err(ArtifactError::Unreadable);
        },
    };
    let members = match crate::archive::tar_unpack(raw.as_slice()) {
        Some(ms) => ms,
        None => {
            return Err(ArtifactError::Unreadable);
        },
    };
    let hex_copy = hex.clone();
    match parse_package_members(members, hex_copy, size) {
        Ok((m, f)) => Ok((m, f, hex)),
        Err(e) => Err(e),
    }
}

} // verus!
