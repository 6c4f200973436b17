//! Canonical, lossless text codec for package metadata records and file
//! manifests: fixed key order on encode, unknown keys preserved in an extras
//! bucket re-emitted at the end of the record.
use vstd::prelude::*;
use vstd::string::StrSliceExecFns;
use vstd::string::StringExecFns;
use crate::lines::{line_ok, join_lines, split_lines, split_text, str_eq, lemma_split_join,
    lemma_join_lines_append};
use crate::numbers::{dec_digits, parse_u64, all_digits, is_digit, lemma_dec_digits_val,
    lemma_parse_dec_digits, to_decimal, parse_decimal};
use crate::sections::{Section, SectionView, wf_section, wf_value, section_lines,
    flatten_sections, parse_sections, lemma_parse_flatten, lemma_flatten_lines_ok,
    lemma_flatten_append, lemma_flatten_one, push_section, push_single, parse_record_lines};

verus! {

/// Target machine architecture of a package.
#[derive(Clone, Copy, Debug, PartialEq, Eq, Structural)]
pub enum Architecture {
    I686,
    X86_64,
    /// Architecture-independent package.
    Independent,
}

/// Malformed record text: an unterminated or headerless section, a missing
/// required key, or an unparsable value.
#[derive(Clone, Copy, Debug, PartialEq, Eq, Structural)]
pub enum RecordError {
    Malformed,
}

/// Metadata record of one package.
#[derive(Clone, Debug, PartialEq, Eq)]
pub struct PackageMetadata {
    pub name: String,
    pub version: String,
    pub arch: Architecture,
    pub description: String,
    /// Content checksum of the package artifact, as lowercase hex digits.
    pub checksum: String,
    /// Size in bytes of the package artifact.
    pub size: u64,
    pub builddate: u64,
    pub packager: String,
    pub depends: Vec<String>,
    pub provides: Vec<String>,
    pub conflicts: Vec<String>,
    /// Unknown keys found on decode, preserved verbatim in order.
    pub extras: Vec<Section>,
}

/// Mathematical form of a metadata record.
#[verifier::ext_equal]
pub struct MetaView {
    pub name: Seq<char>,
    pub version: Seq<char>,
    pub arch: Architecture,
    pub description: Seq<char>,
    pub checksum: Seq<char>,
    pub size: u64,
    pub builddate: u64,
    pub packager: Seq<char>,
    pub depends: Seq<Seq<char>>,
    pub provides: Seq<Seq<char>>,
    pub conflicts: Seq<Seq<char>>,
    pub extras: Seq<SectionView>,
}

impl View for PackageMetadata {
    type V = MetaView;

    open spec fn view(&self) -> MetaView {
        MetaView {
            name: self.name@,
            version: self.version@,
            arch: self.arch,
            description: self.description@,
            checksum: self.checksum@,
            size: self.size,
            builddate: self.builddate,
            packager: self.packager@,
            depends: self.depends.deep_view(),
            provides: self.provides.deep_view(),
            conflicts: self.conflicts.deep_view(),
            extras: self.extras.deep_view(),
        }
    }
}

impl DeepView for PackageMetadata {
    type V = MetaView;

    open spec fn deep_view(&self) -> MetaView {
        self@
    }
}

/// File manifest of one package: the relative paths its artifact contains.
#[derive(Clone, Debug, PartialEq, Eq)]
pub struct FileManifest {
    pub name: String,
    pub version: String,
    pub files: Vec<String>,
}

/// Mathematical form of a file manifest.
#[verifier::ext_equal]
pub struct ManifestView {
    pub name: Seq<char>,
    pub version: Seq<char>,
    pub files: Seq<Seq<char>>,
}

impl View for FileManifest {
    type V = ManifestView;

    open spec fn view(&self) -> ManifestView {
        ManifestView { name: self.name@, version: self.version@, files: self.files.deep_view() }
    }
}

impl DeepView for FileManifest {
    type V = ManifestView;

    open spec fn deep_view(&self) -> ManifestView {
        self@
    }
}

pub open spec fn arch_chars(a: Architecture) -> Seq<char> {
    match a {
        Architecture::I686 => "i686"@,
        Architecture::X86_64 => "x86_64"@,
        Architecture::Independent => "any"@,
    }
}

pub open spec fn arch_of_chars(s: Seq<char>) -> Option<Architecture> {
    if s == "i686"@ {
        Some(Architecture::I686)
    } else if s == "x86_64"@ {
        Some(Architecture::X86_64)
    } else if s == "any"@ {
        Some(Architecture::Independent)
    } else {
        None
    }
}

pub proof fn lemma_arch_round(a: Architecture)
    ensures
        arch_of_chars(arch_chars(a)) == Some(a),
{
    reveal_strlit("i686");
    reveal_strlit("x86_64");
    reveal_strlit("any");
    assert("i686"@.len() == 4);
    assert("x86_64"@.len() == 6);
    assert("any"@.len() == 3);
    match a {
        Architecture::I686 => {
            assert(arch_chars(a) == "i686"@);
        },
        Architecture::X86_64 => {
            assert(arch_chars(a) == "x86_64"@);
            assert(arch_chars(a) != "i686"@);
        },
        Architecture::Independent => {
            assert(arch_chars(a) == "any"@);
            assert(arch_chars(a) != "i686"@);
            assert(arch_chars(a) != "x86_64"@);
        },
    }
}

/// The architecture's text form, one of the closed set of markers.
pub fn arch_to_str(a: Architecture) -> (r: &'static str)
    ensures
        r@ == arch_chars(a),
{
    match a {
        Architecture::I686 => "i686",
        Architecture::X86_64 => "x86_64",
        Architecture::Independent => "any",
    }
}

/// Typed validation of an architecture name; `None` for an unrecognized one.
pub fn arch_from_str(s: &str) -> (r: Option<Architecture>)
    ensures
        r == arch_of_chars(s@),
{
    if str_eq(s, "i686") {
        Some(Architecture::I686)
    } else if str_eq(s, "x86_64") {
        Some(Architecture::X86_64)
    } else if str_eq(s, "any") {
        Some(Architecture::Independent)
    } else {
        None
    }
}

// --- the fixed key order of a metadata record ---

pub open spec fn known_key(k: Seq<char>) -> bool {
    ||| k == "NAME"@
    ||| k == "VERSION"@
    ||| k == "ARCH"@
    ||| k == "DESC"@
    ||| k == "CSIZE"@
    ||| k == "SHA256SUM"@
    ||| k == "BUILDDATE"@
    ||| k == "PACKAGER"@
    ||| k == "DEPENDS"@
    ||| k == "PROVIDES"@
    ||| k == "CONFLICTS"@
}

pub open spec fn single_sec(key: Seq<char>, v: Seq<char>) -> Seq<SectionView> {
    seq![SectionView { key: key, values: seq![v] }]
}

/// A single-value section, omitted when the value is empty.
pub open spec fn opt_single_sec(key: Seq<char>, v: Seq<char>) -> Seq<SectionView> {
    if v.len() == 0 {
        Seq::empty()
    } else {
        single_sec(key, v)
    }
}

/// A list section, omitted when the list is empty.
pub open spec fn opt_list_sec(key: Seq<char>, vs: Seq<Seq<char>>) -> Seq<SectionView> {
    if vs.len() == 0 {
        Seq::empty()
    } else {
        seq![SectionView { key: key, values: vs }]
    }
}

/// The sections of a metadata record, in the canonical order.
pub open spec fn meta_sections(m: MetaView) -> Seq<SectionView> {
    single_sec("NAME"@, m.name)
        + single_sec("VERSION"@, m.version)
        + single_sec("ARCH"@, arch_chars(m.arch))
        + opt_single_sec("DESC"@, m.description)
        + single_sec("CSIZE"@, dec_digits(m.size as nat))
        + opt_single_sec("SHA256SUM"@, m.checksum)
        + single_sec("BUILDDATE"@, dec_digits(m.builddate as nat))
        + opt_single_sec("PACKAGER"@, m.packager)
        + opt_list_sec("DEPENDS"@, m.depends)
        + opt_list_sec("PROVIDES"@, m.provides)
        + opt_list_sec("CONFLICTS"@, m.conflicts)
        + m.extras
}

/// Canonical text of a metadata record.
pub open spec fn encode_meta(m: MetaView) -> Seq<char> {
    join_lines(flatten_sections(meta_sections(m)))
}

/// Effect of one decoded section on the record under construction; `None` is
/// a malformed section for its key.
pub open spec fn apply_section(m: MetaView, s: SectionView) -> Option<MetaView> {
    if s.key == "NAME"@ {
        if s.values.len() == 1 { Some(MetaView { name: s.values[0], ..m }) } else { None }
    } else if s.key == "VERSION"@ {
        if s.values.len() == 1 { Some(MetaView { version: s.values[0], ..m }) } else { None }
    } else if s.key == "ARCH"@ {
        if s.values.len() == 1 {
            match arch_of_chars(s.values[0]) {
                Some(a) => Some(MetaView { arch: a, ..m }),
                None => None,
            }
        } else { None }
    } else if s.key == "DESC"@ {
        if s.values.len() == 1 { Some(MetaView { description: s.values[0], ..m }) } else { None }
    } else if s.key == "CSIZE"@ {
        if s.values.len() == 1 {
            match parse_u64(s.values[0]) {
                Some(n) => Some(MetaView { size: n, ..m }),
                None => None,
            }
        } else { None }
    } else if s.key == "SHA256SUM"@ {
        if s.values.len() == 1 { Some(MetaView { checksum: s.values[0], ..m }) } else { None }
    } else if s.key == "BUILDDATE"@ {
        if s.values.len() == 1 {
            match parse_u64(s.values[0]) {
                Some(n) => Some(MetaView { builddate: n, ..m }),
                None => None,
            }
        } else { None }
    } else if s.key == "PACKAGER"@ {
        if s.values.len() == 1 { Some(MetaView { packager: s.values[0], ..m }) } else { None }
    } else if s.key == "DEPENDS"@ {
        Some(MetaView { depends: s.values, ..m })
    } else if s.key == "PROVIDES"@ {
        Some(MetaView { provides: s.values, ..m })
    } else if s.key == "CONFLICTS"@ {
        Some(MetaView { conflicts: s.values, ..m })
    } else {
        Some(MetaView { extras: m.extras.push(s), ..m })
    }
}

pub open spec fn fold_sections(m: MetaView, ss: Seq<SectionView>) -> Option<MetaView>
    decreases ss.len(),
{
    if ss.len() == 0 {
        Some(m)
    } else {
        match apply_section(m, ss[0]) {
            None => None,
            Some(m2) => fold_sections(m2, ss.drop_first()),
        }
    }
}

/// The record every decode starts from.
pub open spec fn default_meta() -> MetaView {
    MetaView {
        name: Seq::empty(),
        version: Seq::empty(),
        arch: Architecture::Independent,
        description: Seq::empty(),
        checksum: Seq::empty(),
        size: 0,
        builddate: 0,
        packager: Seq::empty(),
        depends: Seq::empty(),
        provides: Seq::empty(),
        conflicts: Seq::empty(),
        extras: Seq::empty(),
    }
}

/// What decoding yields from a section list: `None` is malformed (a bad
/// section, or the required name or version key absent).
pub open spec fn meta_from_sections(ss: Seq<SectionView>) -> Option<MetaView> {
    match fold_sections(default_meta(), ss) {
        None => None,
        Some(m) => if m.name.len() > 0 && m.version.len() > 0 { Some(m) } else { None },
    }
}

/// What decoding a metadata record text yields; `None` is malformed.
pub open spec fn decode_meta(s: Seq<char>) -> Option<MetaView> {
    match parse_sections(split_lines(s)) {
        None => None,
        Some(ss) => meta_from_sections(ss),
    }
}

/// An extras section the codec preserves: a fresh key and nonempty,
/// newline-free value lines.
pub open spec fn valid_extra(s: SectionView) -> bool {
    &&& s.key.len() >= 1
    &&& line_ok(s.key)
    &&& !known_key(s.key)
    &&& forall|i: int| 0 <= i < s.values.len() ==> wf_value(#[trigger] s.values[i])
}

/// A metadata record the codec round-trips: required fields present, no field
/// holds a newline, list elements and extras lines nonempty.
pub open spec fn valid_meta(m: MetaView) -> bool {
    &&& wf_value(m.name)
    &&& wf_value(m.version)
    &&& line_ok(m.description)
    &&& line_ok(m.checksum)
    &&& line_ok(m.packager)
    &&& forall|i: int| 0 <= i < m.depends.len() ==> wf_value(#[trigger] m.depends[i])
    &&& forall|i: int| 0 <= i < m.provides.len() ==> wf_value(#[trigger] m.provides[i])
    &&& forall|i: int| 0 <= i < m.conflicts.len() ==> wf_value(#[trigger] m.conflicts[i])
    &&& forall|i: int| 0 <= i < m.extras.len() ==> valid_extra(#[trigger] m.extras[i])
}

// --- file manifests ---

/// The sections of a file manifest, in the canonical order.
pub open spec fn manifest_sections(v: ManifestView) -> Seq<SectionView> {
    single_sec("NAME"@, v.name)
        + single_sec("VERSION"@, v.version)
        + opt_list_sec("FILES"@, v.files)
}

/// Canonical text of a file manifest.
pub open spec fn encode_manifest_spec(v: ManifestView) -> Seq<char> {
    join_lines(flatten_sections(manifest_sections(v)))
}

pub open spec fn apply_manifest_section(w: ManifestView, s: SectionView) -> Option<ManifestView> {
    if s.key == "NAME"@ {
        if s.values.len() == 1 { Some(ManifestView { name: s.values[0], ..w }) } else { None }
    } else if s.key == "VERSION"@ {
        if s.values.len() == 1 { Some(ManifestView { version: s.values[0], ..w }) } else { None }
    } else if s.key == "FILES"@ {
        Some(ManifestView { files: s.values, ..w })
    } else {
        None
    }
}

pub open spec fn fold_manifest_sections(w: ManifestView, ss: Seq<SectionView>) -> Option<ManifestView>
    decreases ss.len(),
{
    if ss.len() == 0 {
        Some(w)
    } else {
        match apply_manifest_section(w, ss[0]) {
            None => None,
            Some(w2) => fold_manifest_sections(w2, ss.drop_first()),
        }
    }
}

pub open spec fn default_manifest() -> ManifestView {
    ManifestView { name: Seq::empty(), version: Seq::empty(), files: Seq::empty() }
}

pub open spec fn manifest_from_sections(ss: Seq<SectionView>) -> Option<ManifestView> {
    match fold_manifest_sections(default_manifest(), ss) {
        None => None,
        Some(w) => if w.name.len() > 0 && w.version.len() > 0 { Some(w) } else { None },
    }
}

/// What decoding a file-manifest text yields; `None` is malformed.
pub open spec fn decode_manifest_spec(s: Seq<char>) -> Option<ManifestView> {
    match parse_sections(split_lines(s)) {
        None => None,
        Some(ss) => manifest_from_sections(ss),
    }
}

/// A manifest the codec round-trips: required fields present, every path
/// nonempty and newline-free.
pub open spec fn valid_manifest(v: ManifestView) -> bool {
    &&& wf_value(v.name)
    &&& wf_value(v.version)
    &&& forall|i: int| 0 <= i < v.files.len() ==> wf_value(#[trigger] v.files[i])
}

// --- round-trip proofs ---

proof fn lemma_keys_ok()
    ensures
        "NAME"@.len() >= 1 && line_ok("NAME"@),
        "VERSION"@.len() >= 1 && line_ok("VERSION"@),
        "ARCH"@.len() >= 1 && line_ok("ARCH"@),
        "DESC"@.len() >= 1 && line_ok("DESC"@),
        "CSIZE"@.len() >= 1 && line_ok("CSIZE"@),
        "SHA256SUM"@.len() >= 1 && line_ok("SHA256SUM"@),
        "BUILDDATE"@.len() >= 1 && line_ok("BUILDDATE"@),
        "PACKAGER"@.len() >= 1 && line_ok("PACKAGER"@),
        "DEPENDS"@.len() >= 1 && line_ok("DEPENDS"@),
        "PROVIDES"@.len() >= 1 && line_ok("PROVIDES"@),
        "CONFLICTS"@.len() >= 1 && line_ok("CONFLICTS"@),
        "FILES"@.len() >= 1 && line_ok("FILES"@),
{
    reveal_strlit("NAME");
    reveal_strlit("VERSION");
    reveal_strlit("ARCH");
    reveal_strlit("DESC");
    reveal_strlit("CSIZE");
    reveal_strlit("SHA256SUM");
    reveal_strlit("BUILDDATE");
    reveal_strlit("PACKAGER");
    reveal_strlit("DEPENDS");
    reveal_strlit("PROVIDES");
    reveal_strlit("CONFLICTS");
    reveal_strlit("FILES");
}

proof fn lemma_arch_ok(a: Architecture)
    ensures
        arch_chars(a).len() >= 1,
        line_ok(arch_chars(a)),
{
    reveal_strlit("i686");
    reveal_strlit("x86_64");
    reveal_strlit("any");
}

proof fn lemma_digits_line_ok(s: Seq<char>)
    requires
        all_digits(s),
    ensures
        line_ok(s),
{
    assert forall|i: int| 0 <= i < s.len() implies #[trigger] s[i] != '\n' by {
        assert(is_digit(s[i]));
    }
}

pub open spec fn wf_sections(ss: Seq<SectionView>) -> bool {
    forall|i: int| 0 <= i < ss.len() ==> wf_section(#[trigger] ss[i])
}

proof fn lemma_wf_append(a: Seq<SectionView>, b: Seq<SectionView>)
    requires
        wf_sections(a),
        wf_sections(b),
    ensures
        wf_sections(a + b),
{
    assert forall|i: int| 0 <= i < (a + b).len() implies wf_section(#[trigger] (a + b)[i]) by {
        if i < a.len() {
            assert((a + b)[i] == a[i]);
        } else {
            assert((a + b)[i] == b[i - a.len()]);
        }
    }
}

/// Every section a valid metadata record produces is well formed.
proof fn lemma_meta_sections_wf(m: MetaView)
    requires
        valid_meta(m),
    ensures
        wf_sections(meta_sections(m)),
{
    lemma_keys_ok();
    lemma_arch_ok(m.arch);
    lemma_dec_digits_val(m.size as nat);
    lemma_dec_digits_val(m.builddate as nat);
    lemma_digits_line_ok(dec_digits(m.size as nat));
    lemma_digits_line_ok(dec_digits(m.builddate as nat));
    let k1 = single_sec("NAME"@, m.name);
    let k2 = single_sec("VERSION"@, m.version);
    let k3 = single_sec("ARCH"@, arch_chars(m.arch));
    let k4 = opt_single_sec("DESC"@, m.description);
    let k5 = single_sec("CSIZE"@, dec_digits(m.size as nat));
    let k6 = opt_single_sec("SHA256SUM"@, m.checksum);
    let k7 = single_sec("BUILDDATE"@, dec_digits(m.builddate as nat));
    let k8 = opt_single_sec("PACKAGER"@, m.packager);
    let k9 = opt_list_sec("DEPENDS"@, m.depends);
    let k10 = opt_list_sec("PROVIDES"@, m.provides);
    let k11 = opt_list_sec("CONFLICTS"@, m.conflicts);
    assert(wf_sections(k1));
    assert(wf_sections(k2));
    assert(wf_sections(k3));
    assert(wf_sections(k4));
    assert(wf_sections(k5));
    assert(wf_sections(k6));
    assert(wf_sections(k7));
    assert(wf_sections(k8));
    assert(wf_sections(k9));
    assert(wf_sections(k10));
    assert(wf_sections(k11));
    assert(wf_sections(m.extras)) by {
        assert forall|i: int| 0 <= i < m.extras.len() implies wf_section(#[trigger] m.extras[i]) by {
            assert(valid_extra(m.extras[i]));
        }
    }
    lemma_wf_append(k1, k2);
    lemma_wf_append(k1 + k2, k3);
    lemma_wf_append(k1 + k2 + k3, k4);
    lemma_wf_append(k1 + k2 + k3 + k4, k5);
    lemma_wf_append(k1 + k2 + k3 + k4 + k5, k6);
    lemma_wf_append(k1 + k2 + k3 + k4 + k5 + k6, k7);
    lemma_wf_append(k1 + k2 + k3 + k4 + k5 + k6 + k7, k8);
    lemma_wf_append(k1 + k2 + k3 + k4 + k5 + k6 + k7 + k8, k9);
    lemma_wf_append(k1 + k2 + k3 + k4 + k5 + k6 + k7 + k8 + k9, k10);
    lemma_wf_append(k1 + k2 + k3 + k4 + k5 + k6 + k7 + k8 + k9 + k10, k11);
    lemma_wf_append(k1 + k2 + k3 + k4 + k5 + k6 + k7 + k8 + k9 + k10 + k11, m.extras);
}

proof fn lemma_fold_append(m: MetaView, a: Seq<SectionView>, b: Seq<SectionView>)
    ensures
        fold_sections(m, a + b) == match fold_sections(m, a) {
            None => None::<MetaView>,
            Some(m2) => fold_sections(m2, b),
        },
    decreases a.len(),
{
    if a.len() == 0 {
        assert(a + b =~= b);
    } else {
        assert((a + b)[0] == a[0]);
        match apply_section(m, a[0]) {
            None => {},
            Some(m2) => {
                lemma_fold_append(m2, a.drop_first(), b);
                assert((a + b).drop_first() =~= a.drop_first() + b);
            },
        }
    }
}

proof fn lemma_fold_single(m: MetaView, s: SectionView)
    ensures
        fold_sections(m, seq![s]) == apply_section(m, s),
{
    assert(seq![s].drop_first() =~= Seq::<SectionView>::empty());
    match apply_section(m, s) {
        None => {},
        Some(m2) => {
            assert(fold_sections(m2, seq![s].drop_first()) == Some(m2));
        },
    }
}

/// Folding sections with unknown keys only appends them to the extras bucket.
proof fn lemma_fold_extras(m: MetaView, es: Seq<SectionView>)
    requires
        forall|i: int| 0 <= i < es.len() ==> !known_key(#[trigger] es[i].key),
    ensures
        fold_sections(m, es) == Some(MetaView { extras: m.extras + es, ..m }),
    decreases es.len(),
{
    if es.len() == 0 {
        assert(m.extras + es =~= m.extras);
        assert(MetaView { extras: m.extras + es, ..m } =~~= m);
    } else {
        let s0 = es[0];
        assert(!known_key(s0.key));
        let m2 = MetaView { extras: m.extras.push(s0), ..m };
        assert(apply_section(m, s0) == Some(m2));
        lemma_fold_extras(m2, es.drop_first());
        assert(m.extras.push(s0) + es.drop_first() =~= m.extras + es);
        assert(MetaView { extras: m2.extras + es.drop_first(), ..m2 }
            =~~= MetaView { extras: m.extras + es, ..m });
    }
}

/// Two texts differing at one place differ.
proof fn lemma_neq_at(a: Seq<char>, b: Seq<char>, i: int)
    requires
        0 <= i < a.len(),
        0 <= i < b.len(),
        a[i] != b[i],
    ensures
        a != b,
{
}

/// Decoding the canonical sections of a valid record yields the record.
proof fn lemma_meta_fields_round(m: MetaView)
    requires
        valid_meta(m),
    ensures
        meta_from_sections(meta_sections(m)) == Some(m),
{
    broadcast use vstd::string::group_string_axioms;

    lemma_keys_ok();
    reveal_strlit("NAME");
    reveal_strlit("VERSION");
    reveal_strlit("ARCH");
    reveal_strlit("DESC");
    reveal_strlit("CSIZE");
    reveal_strlit("SHA256SUM");
    reveal_strlit("BUILDDATE");
    reveal_strlit("PACKAGER");
    reveal_strlit("DEPENDS");
    reveal_strlit("PROVIDES");
    reveal_strlit("CONFLICTS");
    lemma_arch_round(m.arch);
    lemma_parse_dec_digits(m.size);
    lemma_parse_dec_digits(m.builddate);
    lemma_neq_at("ARCH"@, "NAME"@, 0);
    lemma_neq_at("DESC"@, "NAME"@, 0);
    lemma_neq_at("DESC"@, "ARCH"@, 0);
    lemma_neq_at("BUILDDATE"@, "SHA256SUM"@, 0);
    lemma_neq_at("DEPENDS"@, "VERSION"@, 0);
    lemma_neq_at("PROVIDES"@, "PACKAGER"@, 1);
    lemma_neq_at("CONFLICTS"@, "SHA256SUM"@, 0);
    lemma_neq_at("CONFLICTS"@, "BUILDDATE"@, 0);
    let m0 = default_meta();
    let k1 = single_sec("NAME"@, m.name);
    let k2 = single_sec("VERSION"@, m.version);
    let k3 = single_sec("ARCH"@, arch_chars(m.arch));
    let k4 = opt_single_sec("DESC"@, m.description);
    let k5 = single_sec("CSIZE"@, dec_digits(m.size as nat));
    let k6 = opt_single_sec("SHA256SUM"@, m.checksum);
    let k7 = single_sec("BUILDDATE"@, dec_digits(m.builddate as nat));
    let k8 = opt_single_sec("PACKAGER"@, m.packager);
    let k9 = opt_list_sec("DEPENDS"@, m.depends);
    let k10 = opt_list_sec("PROVIDES"@, m.provides);
    let k11 = opt_list_sec("CONFLICTS"@, m.conflicts);
    let m1 = MetaView { name: m.name, ..m0 };
    let m2 = MetaView { version: m.version, ..m1 };
    let m3 = MetaView { arch: m.arch, ..m2 };
    let m4 = MetaView { description: m.description, ..m3 };
    let m5 = MetaView { size: m.size, ..m4 };
    let m6 = MetaView { checksum: m.checksum, ..m5 };
    let m7 = MetaView { builddate: m.builddate, ..m6 };
    let m8 = MetaView { packager: m.packager, ..m7 };
    let m9 = MetaView { depends: m.depends, ..m8 };
    let m10 = MetaView { provides: m.provides, ..m9 };
    let m11 = MetaView { conflicts: m.conflicts, ..m10 };

    let p1 = k1;
    assert(k1 =~= seq![k1[0]]);
    lemma_fold_single(m0, k1[0]);
    assert(apply_section(m0, k1[0]) == Some(m1));
    assert(fold_sections(m0, k1) == Some(m1));
    assert(fold_sections(m0, p1) == Some(m1));
    let p2 = p1 + k2;
    lemma_fold_append(m0, p1, k2);
    assert(k2 =~= seq![k2[0]]);
    lemma_fold_single(m1, k2[0]);
    assert(apply_section(m1, k2[0]) == Some(m2));
    assert(fold_sections(m1, k2) == Some(m2));
    assert(fold_sections(m0, p2) == Some(m2));
    let p3 = p2 + k3;
    lemma_fold_append(m0, p2, k3);
    assert(k3 =~= seq![k3[0]]);
    lemma_fold_single(m2, k3[0]);
    assert(apply_section(m2, k3[0]) == Some(m3));
    assert(fold_sections(m2, k3) == Some(m3));
    assert(fold_sections(m0, p3) == Some(m3));
    let p4 = p3 + k4;
    lemma_fold_append(m0, p3, k4);
    if m.description.len() == 0 {
        assert(k4 =~= Seq::<SectionView>::empty());
        assert(fold_sections(m3, k4) == Some(m3));
        assert(m3 =~~= m4);
    } else {
        assert(k4 =~= seq![k4[0]]);
        lemma_fold_single(m3, k4[0]);
        assert(apply_section(m3, k4[0]) == Some(m4));
        assert(fold_sections(m3, k4) == Some(m4));
    }
    assert(fold_sections(m0, p4) == Some(m4));
    let p5 = p4 + k5;
    lemma_fold_append(m0, p4, k5);
    assert(k5 =~= seq![k5[0]]);
    lemma_fold_single(m4, k5[0]);
    assert(apply_section(m4, k5[0]) == Some(m5));
    assert(fold_sections(m4, k5) == Some(m5));
    assert(fold_sections(m0, p5) == Some(m5));
    let p6 = p5 + k6;
    lemma_fold_append(m0, p5, k6);
    if m.checksum.len() == 0 {
        assert(k6 =~= Seq::<SectionView>::empty());
        assert(fold_sections(m5, k6) == Some(m5));
        assert(m5 =~~= m6);
    } else {
        assert(k6 =~= seq![k6[0]]);
        lemma_fold_single(m5, k6[0]);
        assert(apply_section(m5, k6[0]) == Some(m6));
        assert(fold_sections(m5, k6) == Some(m6));
    }
    assert(fold_sections(m0, p6) == Some(m6));
    let p7 = p6 + k7;
    lemma_fold_append(m0, p6, k7);
    assert(k7 =~= seq![k7[0]]);
    lemma_fold_single(m6, k7[0]);
    assert(apply_section(m6, k7[0]) == Some(m7));
    assert(fold_sections(m6, k7) == Some(m7));
    assert(fold_sections(m0, p7) == Some(m7));
    let p8 = p7 + k8;
    lemma_fold_append(m0, p7, k8);
    if m.packager.len() == 0 {
        assert(k8 =~= Seq::<SectionView>::empty());
        assert(fold_sections(m7, k8) == Some(m7));
        assert(m7 =~~= m8);
    } else {
        assert(k8 =~= seq![k8[0]]);
        lemma_fold_single(m7, k8[0]);
        assert(apply_section(m7, k8[0]) == Some(m8));
        assert(fold_sections(m7, k8) == Some(m8));
    }
    assert(fold_sections(m0, p8) == Some(m8));
    let p9 = p8 + k9;
    lemma_fold_append(m0, p8, k9);
    if m.depends.len() == 0 {
        assert(k9 =~= Seq::<SectionView>::empty());
        assert(fold_sections(m8, k9) == Some(m8));
        assert(m8 =~~= m9);
    } else {
        assert(k9 =~= seq![k9[0]]);
        lemma_fold_single(m8, k9[0]);
        assert(apply_section(m8, k9[0]) == Some(m9));
        assert(fold_sections(m8, k9) == Some(m9));
    }
    assert(fold_sections(m0, p9) == Some(m9));
    let p10 = p9 + k10;
    lemma_fold_append(m0, p9, k10);
    if m.provides.len() == 0 {
        assert(k10 =~= Seq::<SectionView>::empty());
        assert(fold_sections(m9, k10) == Some(m9));
        assert(m9 =~~= m10);
    } else {
        assert(k10 =~= seq![k10[0]]);
        lemma_fold_single(m9, k10[0]);
        assert(apply_section(m9, k10[0]) == Some(m10));
        assert(fold_sections(m9, k10) == Some(m10));
    }
    assert(fold_sections(m0, p10) == Some(m10));
    let p11 = p10 + k11;
    lemma_fold_append(m0, p10, k11);
    if m.conflicts.len() == 0 {
        assert(k11 =~= Seq::<SectionView>::empty());
        assert(fold_sections(m10, k11) == Some(m10));
        assert(m10 =~~= m11);
    } else {
        assert(k11 =~= seq![k11[0]]);
        lemma_fold_single(m10, k11[0]);
        assert(apply_section(m10, k11[0]) == Some(m11));
        assert(fold_sections(m10, k11) == Some(m11));
    }
    assert(fold_sections(m0, p11) == Some(m11));
    lemma_fold_append(m0, p11, m.extras);
    assert(forall|i: int| 0 <= i < m.extras.len() ==> !known_key(#[trigger] m.extras[i].key)) by {
        assert(forall|i: int| 0 <= i < m.extras.len() ==> valid_extra(#[trigger] m.extras[i]));
    }
    lemma_fold_extras(m11, m.extras);
    let mfin = MetaView { extras: m11.extras + m.extras, ..m11 };
    assert(fold_sections(m11, m.extras) == Some(mfin));
    assert(m11.extras + m.extras =~= m.extras);
    assert(mfin =~~= m);
    assert(fold_sections(m0, p11 + m.extras) == Some(m));
    assert(meta_sections(m) == p11 + m.extras);
    assert(fold_sections(m0, meta_sections(m)) == Some(m));
}

/// Round trip: decoding the canonical text of a valid metadata record yields
/// exactly that record.
pub proof fn lemma_metadata_round_trip(m: MetaView)
    requires
        valid_meta(m),
    ensures
        decode_meta(encode_meta(m)) == Some(m),
{
    lemma_meta_sections_wf(m);
    let ss = meta_sections(m);
    let ls = flatten_sections(ss);
    lemma_flatten_lines_ok(ss);
    lemma_split_join(ls);
    lemma_parse_flatten(ss);
    lemma_meta_fields_round(m);
}

/// Every section a valid manifest produces is well formed.
proof fn lemma_manifest_sections_wf(v: ManifestView)
    requires
        valid_manifest(v),
    ensures
        wf_sections(manifest_sections(v)),
{
    lemma_keys_ok();
    let k1 = single_sec("NAME"@, v.name);
    let k2 = single_sec("VERSION"@, v.version);
    let k3 = opt_list_sec("FILES"@, v.files);
    assert(wf_sections(k1));
    assert(wf_sections(k2));
    assert(wf_sections(k3));
    lemma_wf_append(k1, k2);
    lemma_wf_append(k1 + k2, k3);
}

proof fn lemma_fold_manifest_append(w: ManifestView, a: Seq<SectionView>, b: Seq<SectionView>)
    ensures
        fold_manifest_sections(w, a + b) == match fold_manifest_sections(w, a) {
            None => None::<ManifestView>,
            Some(w2) => fold_manifest_sections(w2, b),
        },
    decreases a.len(),
{
    if a.len() == 0 {
        assert(a + b =~= b);
    } else {
        assert((a + b)[0] == a[0]);
        match apply_manifest_section(w, a[0]) {
            None => {},
            Some(w2) => {
                lemma_fold_manifest_append(w2, a.drop_first(), b);
                assert((a + b).drop_first() =~= a.drop_first() + b);
            },
        }
    }
}

proof fn lemma_fold_manifest_single(w: ManifestView, s: SectionView)
    ensures
        fold_manifest_sections(w, seq![s]) == apply_manifest_section(w, s),
{
    assert(seq![s][0] == s);
    assert(seq![s].drop_first() =~= Seq::<SectionView>::empty());
    match apply_manifest_section(w, s) {
        None => {},
        Some(w2) => {
            assert(fold_manifest_sections(w2, seq![s].drop_first()) == Some(w2));
        },
    }
}

proof fn lemma_manifest_fields_round(v: ManifestView)
    requires
        valid_manifest(v),
    ensures
        manifest_from_sections(manifest_sections(v)) == Some(v),
{
    broadcast use vstd::string::group_string_axioms;

    lemma_keys_ok();
    reveal_strlit("NAME");
    reveal_strlit("VERSION");
    reveal_strlit("FILES");
    let w0 = default_manifest();
    let k1 = single_sec("NAME"@, v.name);
    let k2 = single_sec("VERSION"@, v.version);
    let k3 = opt_list_sec("FILES"@, v.files);
    let w1 = ManifestView { name: v.name, ..w0 };
    let w2 = ManifestView { version: v.version, ..w1 };
    let p1 = k1;
    assert(k1 =~= seq![k1[0]]);
    lemma_fold_manifest_single(w0, k1[0]);
    assert(apply_manifest_section(w0, k1[0]) == Some(w1));
    assert(fold_manifest_sections(w0, p1) == Some(w1));
    let p2 = p1 + k2;
    lemma_fold_manifest_append(w0, p1, k2);
    assert(k2 =~= seq![k2[0]]);
    lemma_fold_manifest_single(w1, k2[0]);
    assert(apply_manifest_section(w1, k2[0]) == Some(w2));
    assert(fold_manifest_sections(w1, k2) == Some(w2));
    assert(fold_manifest_sections(w0, p2) == Some(w2));
    let p3 = p2 + k3;
    lemma_fold_manifest_append(w0, p2, k3);
    if v.files.len() == 0 {
        assert(k3 =~= Seq::<SectionView>::empty());
        assert(fold_manifest_sections(w2, k3) == Some(w2));
        assert(w2 =~~= v);
    } else {
        assert(k3 =~= seq![k3[0]]);
        lemma_fold_manifest_single(w2, k3[0]);
        assert(apply_manifest_section(w2, k3[0]) == Some(v)) by {
            assert(ManifestView { files: v.files, ..w2 } =~~= v);
        }
        assert(fold_manifest_sections(w2, k3) == Some(v));
    }
    assert(fold_manifest_sections(w0, p3) == Some(v));
    assert(manifest_sections(v) == p3);
}

/// Round trip: decoding the canonical text of a valid manifest yields exactly
/// that manifest.
pub proof fn lemma_manifest_round_trip(v: ManifestView)
    requires
        valid_manifest(v),
    ensures
        decode_manifest_spec(encode_manifest_spec(v)) == Some(v),
{
    lemma_manifest_sections_wf(v);
    let ss = manifest_sections(v);
    lemma_flatten_lines_ok(ss);
    lemma_split_join(flatten_sections(ss));
    lemma_parse_flatten(ss);
    lemma_manifest_fields_round(v);
}

// --- executable codec ---

proof fn lemma_join_flatten_append(a: Seq<SectionView>, b: Seq<SectionView>)
    ensures
        join_lines(flatten_sections(a + b)) == join_lines(flatten_sections(a))
            + join_lines(flatten_sections(b)),
{
    lemma_flatten_append(a, b);
    lemma_join_lines_append(flatten_sections(a), flatten_sections(b));
}

proof fn lemma_join_flatten_one(s: SectionView)
    ensures
        join_lines(flatten_sections(seq![s])) == join_lines(section_lines(s)),
{
    lemma_flatten_one(s);
}

/// Canonical text of a metadata record, byte-identical for structurally
/// equal records.
pub fn encode_metadata(m: &PackageMetadata) -> (s: String)
    ensures
        s@ == encode_meta(m@),
{
    let ghost k1 = single_sec("NAME"@, m@.name);
    let ghost k2 = single_sec("VERSION"@, m@.version);
    let ghost k3 = single_sec("ARCH"@, arch_chars(m@.arch));
    let ghost k4 = opt_single_sec("DESC"@, m@.description);
    let ghost k5 = single_sec("CSIZE"@, dec_digits(m@.size as nat));
    let ghost k6 = opt_single_sec("SHA256SUM"@, m@.checksum);
    let ghost k7 = single_sec("BUILDDATE"@, dec_digits(m@.builddate as nat));
    let ghost k8 = opt_single_sec("PACKAGER"@, m@.packager);
    let ghost k9 = opt_list_sec("DEPENDS"@, m@.depends);
    let ghost k10 = opt_list_sec("PROVIDES"@, m@.provides);
    let ghost k11 = opt_list_sec("CONFLICTS"@, m@.conflicts);
    let ghost p1 = k1;
    let ghost p2 = p1 + k2;
    let ghost p3 = p2 + k3;
    let ghost p4 = p3 + k4;
    let ghost p5 = p4 + k5;
    let ghost p6 = p5 + k6;
    let ghost p7 = p6 + k7;
    let ghost p8 = p7 + k8;
    let ghost p9 = p8 + k9;
    let ghost p10 = p9 + k10;
    let ghost p11 = p10 + k11;
    let mut out = String::new();
    push_single(&mut out, "NAME", self_str(&m.name));
    proof {
        let sec = SectionView { key: "NAME"@, values: seq![m@.name] };
        assert(k1 =~= seq![sec]);
        lemma_join_flatten_one(sec);
        assert(out@ == join_lines(flatten_sections(p1)));
    }
    push_single(&mut out, "VERSION", self_str(&m.version));
    proof {
        let sec = SectionView { key: "VERSION"@, values: seq![m@.version] };
        assert(k2 =~= seq![sec]);
        lemma_join_flatten_append(p1, k2);
        lemma_join_flatten_one(sec);
        assert(out@ == join_lines(flatten_sections(p2)));
    }
    push_single(&mut out, "ARCH", arch_to_str(m.arch));
    proof {
        let sec = SectionView { key: "ARCH"@, values: seq![arch_chars(m@.arch)] };
        assert(k3 =~= seq![sec]);
        lemma_join_flatten_append(p2, k3);
        lemma_join_flatten_one(sec);
        assert(out@ == join_lines(flatten_sections(p3)));
    }
    if !self_str(&m.description).is_empty() {
        push_single(&mut out, "DESC", self_str(&m.description));
        proof {
            let sec = SectionView { key: "DESC"@, values: seq![m@.description] };
            assert(k4 =~= seq![sec]);
            lemma_join_flatten_append(p3, k4);
            lemma_join_flatten_one(sec);
        }
    } else {
        proof {
            assert(k4 =~= Seq::<SectionView>::empty());
            lemma_join_flatten_append(p3, k4);
        }
    }
    proof {
        assert(out@ == join_lines(flatten_sections(p4)));
    }
    let csize = to_decimal(m.size);
    push_single(&mut out, "CSIZE", self_str(&csize));
    proof {
        let sec = SectionView { key: "CSIZE"@, values: seq![dec_digits(m@.size as nat)] };
        assert(k5 =~= seq![sec]);
        lemma_join_flatten_append(p4, k5);
        lemma_join_flatten_one(sec);
        assert(out@ == join_lines(flatten_sections(p5)));
    }
    if !self_str(&m.checksum).is_empty() {
        push_single(&mut out, "SHA256SUM", self_str(&m.checksum));
        proof {
            let sec = SectionView { key: "SHA256SUM"@, values: seq![m@.checksum] };
            assert(k6 =~= seq![sec]);
            lemma_join_flatten_append(p5, k6);
            lemma_join_flatten_one(sec);
        }
    } else {
        proof {
            assert(k6 =~= Seq::<SectionView>::empty());
            lemma_join_flatten_append(p5, k6);
        }
    }
    proof {
        assert(out@ == join_lines(flatten_sections(p6)));
    }
    let bdate = to_decimal(m.builddate);
    push_single(&mut out, "BUILDDATE", self_str(&bdate));
    proof {
        let sec = SectionView { key: "BUILDDATE"@, values: seq![dec_digits(m@.builddate as nat)] };
        assert(k7 =~= seq![sec]);
        lemma_join_flatten_append(p6, k7);
        lemma_join_flatten_one(sec);
        assert(out@ == join_lines(flatten_sections(p7)));
    }
    if !self_str(&m.packager).is_empty() {
        push_single(&mut out, "PACKAGER", self_str(&m.packager));
        proof {
            let sec = SectionView { key: "PACKAGER"@, values: seq![m@.packager] };
            assert(k8 =~= seq![sec]);
            lemma_join_flatten_append(p7, k8);
            lemma_join_flatten_one(sec);
        }
    } else {
        proof {
            assert(k8 =~= Seq::<SectionView>::empty());
            lemma_join_flatten_append(p7, k8);
        }
    }
    proof {
        assert(out@ == join_lines(flatten_sections(p8)));
    }
    if m.depends.len() > 0 {
        push_section(&mut out, "DEPENDS", &m.depends);
        proof {
            let sec = SectionView { key: "DEPENDS"@, values: m@.depends };
            assert(k9 =~= seq![sec]);
            lemma_join_flatten_append(p8, k9);
            lemma_join_flatten_one(sec);
        }
    } else {
        proof {
            assert(k9 =~= Seq::<SectionView>::empty());
            lemma_join_flatten_append(p8, k9);
        }
    }
    proof {
        assert(out@ == join_lines(flatten_sections(p9)));
    }
    if m.provides.len() > 0 {
        push_section(&mut out, "PROVIDES", &m.provides);
        proof {
            let sec = SectionView { key: "PROVIDES"@, values: m@.provides };
            assert(k10 =~= seq![sec]);
            lemma_join_flatten_append(p9, k10);
            lemma_join_flatten_one(sec);
        }
    } else {
        proof {
            assert(k10 =~= Seq::<SectionView>::empty());
            lemma_join_flatten_append(p9, k10);
        }
    }
    proof {
        assert(out@ == join_lines(flatten_sections(p10)));
    }
    if m.conflicts.len() > 0 {
        push_section(&mut out, "CONFLICTS", &m.conflicts);
        proof {
            let sec = SectionView { key: "CONFLICTS"@, values: m@.conflicts };
            assert(k11 =~= seq![sec]);
            lemma_join_flatten_append(p10, k11);
            lemma_join_flatten_one(sec);
        }
    } else {
        proof {
            assert(k11 =~= Seq::<SectionView>::empty());
            lemma_join_flatten_append(p10, k11);
        }
    }
    proof {
        assert(out@ == join_lines(flatten_sections(p11)));
    }
    let mut j: usize = 0;
    while j < m.extras.len()
        invariant
            0 <= j <= m.extras.len(),
            out@ == join_lines(flatten_sections(p11 + m@.extras.subrange(0, j as int))),
        decreases m.extras.len() - j,
    {
        let e = &m.extras[j];
        push_section(&mut out, self_str(&e.key), &e.values);
        proof {
            let sec = m@.extras[j as int];
            assert(sec == (SectionView { key: e.key@, values: e.values.deep_view() }));
            let pre = p11 + m@.extras.subrange(0, j as int);
            lemma_join_flatten_append(pre, seq![sec]);
            lemma_join_flatten_one(sec);
            assert(pre + seq![sec] =~= p11 + m@.extras.subrange(0, j as int + 1));
            assert(out@ == join_lines(flatten_sections(p11 + m@.extras.subrange(0, j as int + 1))));
        }
        j = j + 1;
    }
    proof {
        assert(m@.extras.subrange(0, m@.extras.len() as int) =~= m@.extras);
        assert(meta_sections(m@) == p11 + m@.extras);
    }
    out
}

/// Borrow a field's text.
fn self_str(s: &String) -> (r: &str)
    ensures
        r@ == s@,
{
    s.as_str()
}

/// Apply one decoded section to the record under construction; errs exactly
/// where the section is malformed for its key.
fn apply_meta_section(m: &mut PackageMetadata, sec: Section) -> (r: Result<(), RecordError>)
    ensures
        r matches Ok(()) ==> apply_section(old(m)@, sec@) == Some(final(m)@),
        r is Err ==> apply_section(old(m)@, sec@) is None,
{
    if str_eq(self_str(&sec.key), "NAME") {
        if sec.values.len() == 1 {
            let mut vals = sec.values;
            let v = vals.remove(0);
            m.name = v;
            proof {
                assert(m@ =~~= (MetaView { name: sec@.values[0], ..old(m)@ }));
            }
            Ok(())
        } else {
            Err(RecordError::Malformed)
        }
    } else if str_eq(self_str(&sec.key), "VERSION") {
        if sec.values.len() == 1 {
            let mut vals = sec.values;
            let v = vals.remove(0);
            m.version = v;
            proof {
                assert(m@ =~~= (MetaView { version: sec@.values[0], ..old(m)@ }));
            }
            Ok(())
        } else {
            Err(RecordError::Malformed)
        }
    } else if str_eq(self_str(&sec.key), "ARCH") {
        if sec.values.len() == 1 {
            let mut vals = sec.values;
            let v = vals.remove(0);
            match arch_from_str(self_str(&v)) {
                Some(a) => {
                    m.arch = a;
                    proof {
                        assert(m@ =~~= (MetaView { arch: a, ..old(m)@ }));
                    }
                    Ok(())
                },
                None => Err(RecordError::Malformed),
            }
        } else {
            Err(RecordError::Malformed)
        }
    } else if str_eq(self_str(&sec.key), "DESC") {
        if sec.values.len() == 1 {
            let mut vals = sec.values;
            let v = vals.remove(0);
            m.description = v;
            proof {
                assert(m@ =~~= (MetaView { description: sec@.values[0], ..old(m)@ }));
            }
            Ok(())
        } else {
            Err(RecordError::Malformed)
        }
    } else if str_eq(self_str(&sec.key), "CSIZE") {
        if sec.values.len() == 1 {
            let mut vals = sec.values;
            let v = vals.remove(0);
            match parse_decimal(self_str(&v)) {
                Some(n) => {
                    m.size = n;
                    proof {
                        assert(m@ =~~= (MetaView { size: n, ..old(m)@ }));
                    }
                    Ok(())
                },
                None => Err(RecordError::Malformed),
            }
        } else {
            Err(RecordError::Malformed)
        }
    } else if str_eq(self_str(&sec.key), "SHA256SUM") {
        if sec.values.len() == 1 {
            let mut vals = sec.values;
            let v = vals.remove(0);
            m.checksum = v;
            proof {
                assert(m@ =~~= (MetaView { checksum: sec@.values[0], ..old(m)@ }));
            }
            Ok(())
        } else {
            Err(RecordError::Malformed)
        }
    } else if str_eq(self_str(&sec.key), "BUILDDATE") {
        if sec.values.len() == 1 {
            let mut vals = sec.values;
            let v = vals.remove(0);
            match parse_decimal(self_str(&v)) {
                Some(n) => {
                    m.builddate = n;
                    proof {
                        assert(m@ =~~= (MetaView { builddate: n, ..old(m)@ }));
                    }
                    Ok(())
                },
                None => Err(RecordError::Malformed),
            }
        } else {
            Err(RecordError::Malformed)
        }
    } else if str_eq(self_str(&sec.key), "PACKAGER") {
        if sec.values.len() == 1 {
            let mut vals = sec.values;
            let v = vals.remove(0);
            m.packager = v;
            proof {
                assert(m@ =~~= (MetaView { packager: sec@.values[0], ..old(m)@ }));
            }
            Ok(())
        } else {
            Err(RecordError::Malformed)
        }
    } else if str_eq(self_str(&sec.key), "DEPENDS") {
        m.depends = sec.values;
        proof {
            assert(m@ =~~= (MetaView { depends: sec@.values, ..old(m)@ }));
        }
        Ok(())
    } else if str_eq(self_str(&sec.key), "PROVIDES") {
        m.provides = sec.values;
        proof {
            assert(m@ =~~= (MetaView { provides: sec@.values, ..old(m)@ }));
        }
        Ok(())
    } else if str_eq(self_str(&sec.key), "CONFLICTS") {
        m.conflicts = sec.values;
        proof {
            assert(m@ =~~= (MetaView { conflicts: sec@.values, ..old(m)@ }));
        }
        Ok(())
    } else {
        let ghost old_extras = m.extras.deep_view();
        m.extras.push(sec);
        proof {
            assert(!known_key(sec@.key));
            assert(m@.extras =~= old_extras.push(sec@));
            assert(m@ =~~= (MetaView { extras: old(m)@.extras.push(sec@), ..old(m)@ }));
        }
        Ok(())
    }
}

/// Decode a metadata record from its text; errs exactly where the text is
/// malformed (a headerless or ill-arity section, a final section left
/// unterminated by the end of the input, an unparsable number or
/// architecture, or the required name or version key absent).
pub fn decode_metadata(s: &str) -> (r: Result<PackageMetadata, RecordError>)
    ensures
        r matches Ok(pm) ==> decode_meta(s@) == Some(pm@),
        r is Err ==> decode_meta(s@) is None,
{
    let lines = split_text(s);
    let mut sections = match parse_record_lines(&lines) {
        Some(v) => v,
        None => {
            return Err(RecordError::Malformed);
        },
    };
    let ghost all = sections.deep_view();
    let mut meta = PackageMetadata {
        name: String::new(),
        version: String::new(),
        arch: Architecture::Independent,
        description: String::new(),
        checksum: String::new(),
        size: 0,
        builddate: 0,
        packager: String::new(),
        depends: Vec::new(),
        provides: Vec::new(),
        conflicts: Vec::new(),
        extras: Vec::new(),
    };
    proof {
        assert(meta@ =~~= default_meta());
    }
    while sections.len() > 0
        invariant
            parse_sections(split_lines(s@)) == Some(all),
            fold_sections(default_meta(), all) == fold_sections(meta@, sections.deep_view()),
        decreases sections.len(),
    {
        let ghost old_dv = sections.deep_view();
        let sec = sections.remove(0);
        proof {
            assert(sections.deep_view() =~= old_dv.drop_first());
            assert(old_dv[0] == sec@);
        }
        match apply_meta_section(&mut meta, sec) {
            Ok(()) => {},
            Err(e) => {
                proof {
                    assert(fold_sections(default_meta(), all) is None);
                }
                return Err(e);
            },
        }
    }
    proof {
        assert(sections.deep_view() =~= Seq::<SectionView>::empty());
        assert(fold_sections(default_meta(), all) == Some(meta@));
    }
    if self_str(&meta.name).is_empty() || self_str(&meta.version).is_empty() {
        return Err(RecordError::Malformed);
    }
    Ok(meta)
}

/// Canonical text of a file manifest.
pub fn encode_manifest(v: &FileManifest) -> (s: String)
    ensures
        s@ == encode_manifest_spec(v@),
{
    let ghost k1 = single_sec("NAME"@, v@.name);
    let ghost k2 = single_sec("VERSION"@, v@.version);
    let ghost k3 = opt_list_sec("FILES"@, v@.files);
    let ghost p1 = k1;
    let ghost p2 = p1 + k2;
    let ghost p3 = p2 + k3;
    let mut out = String::new();
    push_single(&mut out, "NAME", self_str(&v.name));
    proof {
        let sec = SectionView { key: "NAME"@, values: seq![v@.name] };
        assert(k1 =~= seq![sec]);
        lemma_join_flatten_one(sec);
        assert(out@ == join_lines(flatten_sections(p1)));
    }
    push_single(&mut out, "VERSION", self_str(&v.version));
    proof {
        let sec = SectionView { key: "VERSION"@, values: seq![v@.version] };
        assert(k2 =~= seq![sec]);
        lemma_join_flatten_append(p1, k2);
        lemma_join_flatten_one(sec);
        assert(out@ == join_lines(flatten_sections(p2)));
    }
    if v.files.len() > 0 {
        push_section(&mut out, "FILES", &v.files);
        proof {
            let sec = SectionView { key: "FILES"@, values: v@.files };
            assert(k3 =~= seq![sec]);
            lemma_join_flatten_append(p2, k3);
            lemma_join_flatten_one(sec);
        }
    } else {
        proof {
            assert(k3 =~= Seq::<SectionView>::empty());
            lemma_join_flatten_append(p2, k3);
        }
    }
    proof {
        assert(out@ == join_lines(flatten_sections(p3)));
        assert(manifest_sections(v@) == p3);
    }
    out
}

fn apply_manifest_exec(w: &mut FileManifest, sec: Section) -> (r: Result<(), RecordError>)
    ensures
        r matches Ok(()) ==> apply_manifest_section(old(w)@, sec@) == Some(final(w)@),
        r is Err ==> apply_manifest_section(old(w)@, sec@) is None,
{
    if str_eq(self_str(&sec.key), "NAME") {
        if sec.values.len() == 1 {
            let mut vals = sec.values;
            let v = vals.remove(0);
            w.name = v;
            proof {
                assert(w@ =~~= (ManifestView { name: sec@.values[0], ..old(w)@ }));
            }
            Ok(())
        } else {
            Err(RecordError::Malformed)
        }
    } else if str_eq(self_str(&sec.key), "VERSION") {
        if sec.values.len() == 1 {
            let mut vals = sec.values;
            let v = vals.remove(0);
            w.version = v;
            proof {
                assert(w@ =~~= (ManifestView { version: sec@.values[0], ..old(w)@ }));
            }
            Ok(())
        } else {
            Err(RecordError::Malformed)
        }
    } else if str_eq(self_str(&sec.key), "FILES") {
        w.files = sec.values;
        proof {
            assert(w@ =~~= (ManifestView { files: sec@.values, ..old(w)@ }));
        }
        Ok(())
    } else {
        Err(RecordError::Malformed)
    }
}

/// Decode a file manifest from its text; errs exactly where the text is
/// malformed.
pub fn decode_manifest(s: &str) -> (r: Result<FileManifest, RecordError>)
    ensures
        r matches Ok(fm) ==> decode_manifest_spec(s@) == Some(fm@),
        r is Err ==> decode_manifest_spec(s@) is None,
{
    let lines = split_text(s);
    let mut sections = match parse_record_lines(&lines) {
        Some(v) => v,
        None => {
            return Err(RecordError::Malformed);
        },
    };
    let ghost all = sections.deep_view();
    let mut mani = FileManifest { name: String::new(), version: String::new(), files: Vec::new() };
    proof {
        assert(mani@ =~~= default_manifest());
    }
    while sections.len() > 0
        invariant
            parse_sections(split_lines(s@)) == Some(all),
            fold_manifest_sections(default_manifest(), all)
                == fold_manifest_sections(mani@, sections.deep_view()),
        decreases sections.len(),
    {
        let ghost old_dv = sections.deep_view();
        let sec = sections.remove(0);
        proof {
            assert(sections.deep_view() =~= old_dv.drop_first());
            assert(old_dv[0] == sec@);
        }
        match apply_manifest_exec(&mut mani, sec) {
            Ok(()) => {},
            Err(e) => {
                proof {
                    assert(fold_manifest_sections(default_manifest(), all) is None);
                }
                return Err(e);
            },
        }
    }
    proof {
        assert(sections.deep_view() =~= Seq::<SectionView>::empty());
        assert(fold_manifest_sections(default_manifest(), all) == Some(mani@));
    }
    if self_str(&mani.name).is_empty() || self_str(&mani.version).is_empty() {
        return Err(RecordError::Malformed);
    }
    Ok(mani)
}

} // verus!
