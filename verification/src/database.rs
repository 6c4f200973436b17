//! In-memory repository database: a mapping from package name to entry,
//! mutated by add/remove, kept sorted by name so that serialization is
//! deterministic.
use vstd::prelude::*;
use vstd::string::StrSliceExecFns;
use crate::lines::str_eq;
use crate::record::{PackageMetadata, FileManifest, MetaView, ManifestView};

verus! {

/// Whether a database serializes file manifests besides metadata.
#[derive(Clone, Copy, Debug, PartialEq, Eq, Structural)]
pub enum ContentMode {
    SyncOnly,
    SyncAndFiles,
}

/// One package's stored data: its metadata and, in a files database, its
/// manifest.
#[derive(Clone, Debug, PartialEq, Eq)]
pub struct DatabaseEntry {
    pub metadata: PackageMetadata,
    pub manifest: Option<FileManifest>,
}

/// Mathematical form of an entry.
#[verifier::ext_equal]
pub struct EntryView {
    pub metadata: MetaView,
    pub manifest: Option<ManifestView>,
}

impl View for DatabaseEntry {
    type V = EntryView;

    open spec fn view(&self) -> EntryView {
        EntryView { metadata: self.metadata@, manifest: self.manifest.deep_view() }
    }
}

impl DeepView for DatabaseEntry {
    type V = EntryView;

    open spec fn deep_view(&self) -> EntryView {
        self@
    }
}

/// Strict lexicographic order on text, by character code.
pub open spec fn lex_lt(a: Seq<char>, b: Seq<char>) -> bool
    decreases a.len(),
{
    if b.len() == 0 {
        false
    } else if a.len() == 0 {
        true
    } else if a[0] != b[0] {
        (a[0] as u32) < (b[0] as u32)
    } else {
        lex_lt(a.drop_first(), b.drop_first())
    }
}

pub proof fn lemma_lex_irrefl(a: Seq<char>)
    ensures
        !lex_lt(a, a),
    decreases a.len(),
{
    if a.len() > 0 {
        lemma_lex_irrefl(a.drop_first());
    }
}

pub proof fn lemma_lex_total(a: Seq<char>, b: Seq<char>)
    ensures
        lex_lt(a, b) || lex_lt(b, a) || a == b,
    decreases a.len(),
{
    if a.len() == 0 && b.len() == 0 {
        assert(a =~= b);
    } else if a.len() > 0 && b.len() > 0 {
        if a[0] == b[0] {
            lemma_lex_total(a.drop_first(), b.drop_first());
            if a.drop_first() == b.drop_first() {
                assert(a =~= b) by {
                    assert(a.len() == b.len());
                    assert forall|i: int| 0 <= i < a.len() implies a[i] == b[i] by {
                        if i > 0 {
                            assert(a[i] == a.drop_first()[i - 1]);
                            assert(b[i] == b.drop_first()[i - 1]);
                        }
                    }
                }
            }
        } else {
            if (a[0] as u32) == (b[0] as u32) {
                vstd::utf8::char_u32_cast(a[0], a[0] as u32);
                vstd::utf8::char_u32_cast(b[0], b[0] as u32);
                assert(a[0] == b[0]);
            }
        }
    }
}

pub proof fn lemma_lex_trans(a: Seq<char>, b: Seq<char>, c: Seq<char>)
    requires
        lex_lt(a, b),
        lex_lt(b, c),
    ensures
        lex_lt(a, c),
    decreases a.len(),
{
    if b.len() == 0 || c.len() == 0 {
    } else if a.len() == 0 {
    } else {
        if a[0] == b[0] && b[0] == c[0] {
            lemma_lex_trans(a.drop_first(), b.drop_first(), c.drop_first());
        }
    }
}

/// Lexicographic comparison of two texts.
pub fn str_lt(a: &str, b: &str) -> (r: bool)
    ensures
        r == lex_lt(a@, b@),
{
    let na = a.unicode_len();
    let nb = b.unicode_len();
    let mut i: usize = 0;
    proof {
        assert(a@.skip(0) =~= a@);
        assert(b@.skip(0) =~= b@);
    }
    while i < na && i < nb
        invariant
            0 <= i,
            i <= na,
            i <= nb,
            na == a@.len(),
            nb == b@.len(),
            lex_lt(a@, b@) == lex_lt(a@.skip(i as int), b@.skip(i as int)),
        decreases na - i,
    {
        let ca = a.get_char(i);
        let cb = b.get_char(i);
        proof {
            assert(a@.skip(i as int)[0] == a@[i as int]);
            assert(b@.skip(i as int)[0] == b@[i as int]);
        }
        if ca as u32 != cb as u32 {
            proof {
                assert(a@[i as int] != b@[i as int]) by {
                    if a@[i as int] == b@[i as int] {
                        assert(ca as u32 == cb as u32);
                    }
                }
            }
            return (ca as u32) < (cb as u32);
        }
        proof {
            assert(a@.skip(i as int).drop_first() =~= a@.skip(i as int + 1));
            assert(b@.skip(i as int).drop_first() =~= b@.skip(i as int + 1));
        }
        i = i + 1;
    }
    proof {
        if i >= nb {
            assert(b@.skip(i as int).len() == 0);
        } else {
            assert(a@.skip(i as int).len() == 0);
            assert(b@.skip(i as int).len() > 0);
        }
    }
    na < nb
}

/// A name-sorted entry sequence after inserting `e`: the entry whose name
/// matches is replaced in place, a new name enters at its sorted position.
pub open spec fn insert_sorted(es: Seq<EntryView>, e: EntryView) -> Seq<EntryView>
    decreases es.len(),
{
    if es.len() == 0 {
        seq![e]
    } else if es[0].metadata.name == e.metadata.name {
        seq![e] + es.drop_first()
    } else if lex_lt(e.metadata.name, es[0].metadata.name) {
        seq![e] + es
    } else {
        seq![es[0]] + insert_sorted(es.drop_first(), e)
    }
}

/// An entry sequence with the first entry of the given name deleted.
pub open spec fn remove_name(es: Seq<EntryView>, k: Seq<char>) -> Seq<EntryView>
    decreases es.len(),
{
    if es.len() == 0 {
        Seq::empty()
    } else if es[0].metadata.name == k {
        es.drop_first()
    } else {
        seq![es[0]] + remove_name(es.drop_first(), k)
    }
}

proof fn lemma_insert_sorted_split(es: Seq<EntryView>, e: EntryView, p: int)
    requires
        0 <= p <= es.len(),
        forall|j: int| 0 <= j < p
            ==> lex_lt((#[trigger] es[j]).metadata.name, e.metadata.name),
        p < es.len() ==> !lex_lt(es[p].metadata.name, e.metadata.name),
    ensures
        insert_sorted(es, e) == if p < es.len() && es[p].metadata.name == e.metadata.name {
            es.subrange(0, p) + seq![e] + es.subrange(p + 1, es.len() as int)
        } else {
            es.subrange(0, p) + seq![e] + es.subrange(p, es.len() as int)
        },
    decreases p,
{
    if p == 0 {
        if es.len() == 0 {
            assert(insert_sorted(es, e) =~= es.subrange(0, 0) + seq![e] + es.subrange(0, 0));
        } else if es[0].metadata.name == e.metadata.name {
            assert(insert_sorted(es, e)
                =~= es.subrange(0, 0) + seq![e] + es.subrange(1, es.len() as int));
        } else {
            lemma_lex_total(e.metadata.name, es[0].metadata.name);
            assert(lex_lt(e.metadata.name, es[0].metadata.name));
            assert(insert_sorted(es, e)
                =~= es.subrange(0, 0) + seq![e] + es.subrange(0, es.len() as int));
        }
    } else {
        assert(lex_lt(es[0].metadata.name, e.metadata.name));
        assert(es[0].metadata.name != e.metadata.name) by {
            if es[0].metadata.name == e.metadata.name {
                lemma_lex_irrefl(e.metadata.name);
            }
        }
        assert(!lex_lt(e.metadata.name, es[0].metadata.name)) by {
            if lex_lt(e.metadata.name, es[0].metadata.name) {
                lemma_lex_trans(es[0].metadata.name, e.metadata.name, es[0].metadata.name);
                lemma_lex_irrefl(es[0].metadata.name);
            }
        }
        let rest = es.drop_first();
        assert forall|j: int| 0 <= j < p - 1
            implies lex_lt((#[trigger] rest[j]).metadata.name, e.metadata.name) by {
            assert(rest[j] == es[j + 1]);
        }
        assert(p - 1 < rest.len() ==> !lex_lt(rest[p - 1].metadata.name, e.metadata.name));
        lemma_insert_sorted_split(rest, e, p - 1);
        if p < es.len() && es[p].metadata.name == e.metadata.name {
            assert(rest.subrange(0, p - 1) + seq![e] + rest.subrange(p, rest.len() as int)
                == insert_sorted(rest, e));
            assert(seq![es[0]] + (rest.subrange(0, p - 1) + seq![e]
                + rest.subrange(p, rest.len() as int))
                =~= es.subrange(0, p) + seq![e] + es.subrange(p + 1, es.len() as int));
        } else {
            assert(rest.subrange(0, p - 1) + seq![e] + rest.subrange(p - 1, rest.len() as int)
                == insert_sorted(rest, e));
            assert(seq![es[0]] + (rest.subrange(0, p - 1) + seq![e]
                + rest.subrange(p - 1, rest.len() as int))
                =~= es.subrange(0, p) + seq![e] + es.subrange(p, es.len() as int));
        }
    }
}

proof fn lemma_remove_name_split(es: Seq<EntryView>, k: Seq<char>, i: int)
    requires
        0 <= i < es.len(),
        forall|j: int| 0 <= j < i ==> (#[trigger] es[j]).metadata.name != k,
        es[i].metadata.name == k,
    ensures
        remove_name(es, k) == es.subrange(0, i) + es.subrange(i + 1, es.len() as int),
    decreases i,
{
    if i == 0 {
        assert(remove_name(es, k) =~= es.subrange(0, 0) + es.subrange(1, es.len() as int));
    } else {
        let rest = es.drop_first();
        assert forall|j: int| 0 <= j < i - 1
            implies (#[trigger] rest[j]).metadata.name != k by {
            assert(rest[j] == es[j + 1]);
        }
        assert(rest[i - 1].metadata.name == k);
        lemma_remove_name_split(rest, k, i - 1);
        assert(seq![es[0]] + (rest.subrange(0, i - 1) + rest.subrange(i, rest.len() as int))
            =~= es.subrange(0, i) + es.subrange(i + 1, es.len() as int));
    }
}

proof fn lemma_remove_name_absent(es: Seq<EntryView>, k: Seq<char>)
    requires
        forall|j: int| 0 <= j < es.len() ==> (#[trigger] es[j]).metadata.name != k,
    ensures
        remove_name(es, k) == es,
    decreases es.len(),
{
    if es.len() > 0 {
        let rest = es.drop_first();
        assert forall|j: int| 0 <= j < rest.len()
            implies (#[trigger] rest[j]).metadata.name != k by {
            assert(rest[j] == es[j + 1]);
        }
        lemma_remove_name_absent(rest, k);
        assert(seq![es[0]] + rest =~= es);
    }
}

/// Some entry carries this name.
pub open spec fn has_name(es: Seq<DatabaseEntry>, k: Seq<char>) -> bool {
    exists|i: int| 0 <= i < es.len() && (#[trigger] es[i].metadata.name@) == k
}

/// The entry carrying this name (well defined under unique names).
pub open spec fn entry_at(es: Seq<DatabaseEntry>, k: Seq<char>) -> EntryView {
    es[choose|i: int| 0 <= i < es.len() && (#[trigger] es[i].metadata.name@) == k]@
}

/// Repository database bound to a target path, with an optional signer
/// identity and a content mode.
pub struct RepositoryDatabase {
    entries: Vec<DatabaseEntry>,
    path: String,
    signer: Option<String>,
    mode: ContentMode,
}

impl View for RepositoryDatabase {
    type V = Map<Seq<char>, EntryView>;

    /// The database as a mapping from package name to entry.
    closed spec fn view(&self) -> Map<Seq<char>, EntryView> {
        Map::new(
            |k: Seq<char>| has_name(self.entries@, k),
            |k: Seq<char>| entry_at(self.entries@, k),
        )
    }
}

impl RepositoryDatabase {
    /// Entries are strictly sorted by name: names are unique and
    /// serialization order is canonical.
    pub closed spec fn wf(&self) -> bool {
        forall|i: int, j: int| 0 <= i < j < self.entries@.len()
            ==> lex_lt(
                (#[trigger] self.entries@[i]).metadata.name@,
                (#[trigger] self.entries@[j]).metadata.name@,
            )
    }

    /// The entries in serialization order (sorted by name).
    pub closed spec fn entries_seq(&self) -> Seq<EntryView> {
        self.entries.deep_view()
    }

    pub closed spec fn path_spec(&self) -> Seq<char> {
        self.path@
    }

    pub closed spec fn signer_spec(&self) -> Option<Seq<char>> {
        self.signer.deep_view()
    }

    pub closed spec fn mode_spec(&self) -> ContentMode {
        self.mode
    }

    proof fn lemma_unique(&self)
        requires
            self.wf(),
        ensures
            forall|i: int, j: int|
                0 <= i < self.entries@.len() && 0 <= j < self.entries@.len() && i != j
                    ==> (#[trigger] self.entries@[i]).metadata.name@
                        != (#[trigger] self.entries@[j]).metadata.name@,
    {
        assert forall|i: int, j: int|
            0 <= i < self.entries@.len() && 0 <= j < self.entries@.len() && i != j
            implies (#[trigger] self.entries@[i]).metadata.name@
                != (#[trigger] self.entries@[j]).metadata.name@ by {
            if i < j {
                assert(lex_lt(self.entries@[i].metadata.name@, self.entries@[j].metadata.name@));
                if self.entries@[i].metadata.name@ == self.entries@[j].metadata.name@ {
                    lemma_lex_irrefl(self.entries@[i].metadata.name@);
                }
            } else {
                assert(lex_lt(self.entries@[j].metadata.name@, self.entries@[i].metadata.name@));
                if self.entries@[i].metadata.name@ == self.entries@[j].metadata.name@ {
                    lemma_lex_irrefl(self.entries@[i].metadata.name@);
                }
            }
        }
    }

    proof fn lemma_entry_at_index(&self, i: int)
        requires
            self.wf(),
            0 <= i < self.entries@.len(),
        ensures
            self@.contains_key(self.entries@[i].metadata.name@),
            self@[self.entries@[i].metadata.name@] == self.entries@[i]@,
    {
        let k = self.entries@[i].metadata.name@;
        assert(has_name(self.entries@, k));
        self.lemma_unique();
        let j = choose|j: int| 0 <= j < self.entries@.len()
            && (#[trigger] self.entries@[j].metadata.name@) == k;
        assert(j == i);
    }

    /// A fresh database bound to `path`, empty, with the given signer
    /// identity and content mode.
    pub fn new(path: String, signer: Option<String>, mode: ContentMode) -> (db: RepositoryDatabase)
        ensures
            db.wf(),
            db@ == Map::<Seq<char>, EntryView>::empty(),
            db.entries_seq() == Seq::<EntryView>::empty(),
            db.path_spec() == path@,
            db.signer_spec() == signer.deep_view(),
            db.mode_spec() == mode,
    {
        let db = RepositoryDatabase { entries: Vec::new(), path, signer, mode };
        proof {
            assert(db.entries_seq() =~= Seq::<EntryView>::empty());
            assert(db@ =~= Map::<Seq<char>, EntryView>::empty());
        }
        db
    }

    /// Whether an entry with this package name is present.
    pub fn contains(&self, name: &str) -> (r: bool)
        ensures
            r == self@.contains_key(name@),
    {
        let mut i: usize = 0;
        let n = self.entries.len();
        while i < n
            invariant
                0 <= i <= n,
                n == self.entries@.len(),
                forall|j: int| 0 <= j < i ==> (#[trigger] self.entries@[j].metadata.name@) != name@,
            decreases n - i,
        {
            if str_eq(self.entries[i].metadata.name.as_str(), name) {
                proof {
                    assert(has_name(self.entries@, name@));
                }
                return true;
            }
            i = i + 1;
        }
        proof {
            assert(!has_name(self.entries@, name@));
        }
        false
    }

    /// Look up the entry stored for a name.
    pub fn get(&self, name: &str) -> (r: Option<&DatabaseEntry>)
        requires
            self.wf(),
        ensures
            match r {
                Some(e) => self@.contains_key(name@) && e@ == self@[name@],
                None => !self@.contains_key(name@),
            },
    {
        let mut i: usize = 0;
        let n = self.entries.len();
        while i < n
            invariant
                0 <= i <= n,
                self.wf(),
                n == self.entries@.len(),
                forall|j: int| 0 <= j < i ==> (#[trigger] self.entries@[j].metadata.name@) != name@,
            decreases n - i,
        {
            if str_eq(self.entries[i].metadata.name.as_str(), name) {
                proof {
                    self.lemma_entry_at_index(i as int);
                }
                return Some(&self.entries[i]);
            }
            i = i + 1;
        }
        proof {
            assert(!has_name(self.entries@, name@));
        }
        None
    }

    /// The number of entries.
    pub fn len(&self) -> (r: usize)
        ensures
            r == self.entries_seq().len(),
    {
        self.entries.len()
    }

    /// The content mode the database was constructed with.
    pub fn mode(&self) -> (m: ContentMode)
        ensures
            m == self.mode_spec(),
    {
        self.mode
    }

    /// The archive path the database is bound to.
    pub fn path(&self) -> (r: &String)
        ensures
            r@ == self.path_spec(),
    {
        &self.path
    }

    /// The configured signer identity, if any.
    pub fn signer(&self) -> (r: &Option<String>)
        ensures
            r.deep_view() == self.signer_spec(),
    {
        &self.signer
    }

    /// Whether saving must also produce a signature sidecar: exactly when a
    /// signer identity is configured.
    pub fn should_sign(&self) -> (r: bool)
        ensures
            r == (self.signer_spec() is Some),
    {
        self.signer.is_some()
    }

    /// The entries in serialization order, for reading.
    pub fn entries(&self) -> (r: &Vec<DatabaseEntry>)
        ensures
            r.deep_view() == self.entries_seq(),
    {
        &self.entries
    }

    /// Insert or unconditionally overwrite the entry for the metadata's name:
    /// last write wins, no field merging across versions.
    pub fn add(&mut self, metadata: PackageMetadata, manifest: Option<FileManifest>)
        requires
            old(self).wf(),
        ensures
            final(self).wf(),
            final(self)@ == old(self)@.insert(
                metadata@.name,
                EntryView { metadata: metadata@, manifest: manifest.deep_view() },
            ),
            final(self).entries_seq() == insert_sorted(
                old(self).entries_seq(),
                EntryView { metadata: metadata@, manifest: manifest.deep_view() },
            ),
            final(self).path_spec() == old(self).path_spec(),
            final(self).signer_spec() == old(self).signer_spec(),
            final(self).mode_spec() == old(self).mode_spec(),
    {
        let ghost k = metadata@.name;
        let ghost ev = EntryView { metadata: metadata@, manifest: manifest.deep_view() };
        let ghost es0 = self.entries@;
        let n = self.entries.len();
        let mut p: usize = 0;
        while p < n && str_lt(self.entries[p].metadata.name.as_str(), metadata.name.as_str())
            invariant
                *self == *old(self),
                old(self).wf(),
                0 <= p <= n,
                n == self.entries@.len(),
                self.entries@ == es0,
                es0 == old(self).entries@,
                k == metadata@.name,
                forall|j: int| 0 <= j < p
                    ==> lex_lt((#[trigger] self.entries@[j].metadata.name@), metadata.name@),
            decreases n - p,
        {
            p = p + 1;
        }
        let replace = p < n && str_eq(self.entries[p].metadata.name.as_str(), metadata.name.as_str());
        if replace {
            self.entries.remove(p);
        }
        let ghost es1 = self.entries@;
        let e = DatabaseEntry { metadata, manifest };
        self.entries.insert(p, e);
        proof {
            let es2 = self.entries@;
            let old_db = *old(self);
            old_db.lemma_unique();
            assert(old_db.entries@ == es0);
            // the removal (if any) deleted exactly the one entry named k
            if replace {
                assert(es0[p as int].metadata.name@ == k);
                assert(es1 =~= es0.remove(p as int));
                assert(forall|j: int| 0 <= j < p ==> es1[j] == es0[j]);
                assert(forall|j: int| p <= j < es1.len() ==> es1[j] == es0[j + 1]);
            } else {
                assert(es1 == es0);
                if p < n {
                    assert(!lex_lt(es0[p as int].metadata.name@, k));
                    assert(es0[p as int].metadata.name@ != k);
                    lemma_lex_total(es0[p as int].metadata.name@, k);
                    assert(lex_lt(k, es0[p as int].metadata.name@));
                }
            }
            assert(forall|j: int| 0 <= j < p ==> es2[j] == es1[j]);
            assert(es2[p as int] == e);
            assert(forall|j: int| p < j < es2.len() ==> es2[j] == es1[j - 1]);
            // well-formedness: strictly sorted around position p
            assert forall|i: int, j: int| 0 <= i < j < es2.len()
                implies lex_lt(
                    (#[trigger] es2[i]).metadata.name@,
                    (#[trigger] es2[j]).metadata.name@,
                ) by {
                if i < p && j < p {
                    assert(lex_lt(es0[i].metadata.name@, es0[j].metadata.name@));
                } else if i < p && j == p {
                    assert(lex_lt(es2[i].metadata.name@, k));
                } else if i == p && j > p {
                    if replace {
                        assert(es2[j] == es0[j]);
                        assert(lex_lt(es0[p as int].metadata.name@, es0[j].metadata.name@));
                        assert(es0[p as int].metadata.name@ == k);
                    } else {
                        assert(es2[j] == es0[j - 1]);
                        assert(j - 1 >= p);
                        if j - 1 == p {
                            assert(lex_lt(k, es0[p as int].metadata.name@));
                        } else {
                            assert(lex_lt(k, es0[p as int].metadata.name@));
                            assert(lex_lt(es0[p as int].metadata.name@, es0[j - 1].metadata.name@));
                            lemma_lex_trans(k, es0[p as int].metadata.name@, es0[j - 1].metadata.name@);
                        }
                    }
                } else if i < p && j > p {
                    if replace {
                        assert(es2[i] == es0[i]);
                        assert(es2[j] == es0[j]);
                        assert(lex_lt(es0[i].metadata.name@, es0[j].metadata.name@));
                    } else {
                        assert(es2[i] == es0[i]);
                        assert(es2[j] == es0[j - 1]);
                        assert(lex_lt(es0[i].metadata.name@, es0[j - 1].metadata.name@));
                    }
                } else {
                    // i > p and j > p
                    if replace {
                        assert(es2[i] == es0[i]);
                        assert(es2[j] == es0[j]);
                        assert(lex_lt(es0[i].metadata.name@, es0[j].metadata.name@));
                    } else {
                        assert(es2[i] == es0[i - 1]);
                        assert(es2[j] == es0[j - 1]);
                        assert(lex_lt(es0[i - 1].metadata.name@, es0[j - 1].metadata.name@));
                    }
                }
            }
            // the mapping gained exactly the binding k -> ev
            let m0 = old_db@;
            let m2 = self@;
            assert forall|kk: Seq<char>| #[trigger] m2.contains_key(kk)
                implies m0.insert(k, ev).contains_key(kk) by {
                let j = choose|j: int| 0 <= j < es2.len()
                    && (#[trigger] es2[j].metadata.name@) == kk;
                if j != p {
                    let j0: int = if replace { j } else if j < p { j } else { j - 1 };
                    assert(es0[j0].metadata.name@ == kk);
                    assert(has_name(es0, kk));
                }
            }
            assert forall|kk: Seq<char>| #[trigger] m0.insert(k, ev).contains_key(kk)
                implies m2.contains_key(kk) by {
                if kk == k {
                    assert(es2[p as int].metadata.name@ == kk);
                    assert(has_name(es2, kk));
                } else {
                    assert(m0.contains_key(kk));
                    assert(has_name(es0, kk));
                    let j0 = choose|j: int| 0 <= j < es0.len()
                        && (#[trigger] es0[j].metadata.name@) == kk;
                    if replace {
                        assert(j0 != p);
                        if j0 < p {
                            assert(es2[j0].metadata.name@ == kk);
                        } else {
                            assert(es2[j0].metadata.name@ == kk);
                        }
                    } else {
                        if j0 < p {
                            assert(es2[j0].metadata.name@ == kk);
                        } else {
                            assert(es2[j0 + 1].metadata.name@ == kk);
                        }
                    }
                    assert(has_name(es2, kk));
                }
            }
            assert forall|kk: Seq<char>| #[trigger] m2.contains_key(kk)
                implies m2[kk] == m0.insert(k, ev)[kk] by {
                let new_db = *self;
                let j = choose|j: int| 0 <= j < es2.len()
                    && (#[trigger] es2[j].metadata.name@) == kk;
                new_db.lemma_entry_at_index(j);
                assert(m2[kk] == es2[j]@);
                if kk == k {
                    new_db.lemma_entry_at_index(p as int);
                    assert(m2[kk] == ev);
                } else {
                    assert(j != p);
                    let j0: int = if replace { j } else if j < p { j } else { j - 1 };
                    assert(es2[j] == es0[j0]);
                    old_db.lemma_entry_at_index(j0);
                    assert(m0[kk] == es0[j0]@);
                }
            }
            assert(m2 =~= m0.insert(k, ev));
            // the serialization order: e enters at its sorted position
            let esv0 = old_db.entries_seq();
            let esv2 = self.entries_seq();
            assert forall|j: int| 0 <= j < p
                implies lex_lt((#[trigger] esv0[j]).metadata.name, ev.metadata.name) by {
                assert(esv0[j] == es0[j]@);
            }
            assert((p as int) < esv0.len()
                ==> !lex_lt(esv0[p as int].metadata.name, ev.metadata.name)) by {
                if (p as int) < esv0.len() {
                    assert(esv0[p as int] == es0[p as int]@);
                }
            }
            lemma_insert_sorted_split(esv0, ev, p as int);
            assert(e@ == ev);
            if replace {
                assert(esv0[p as int].metadata.name == ev.metadata.name) by {
                    assert(esv0[p as int] == es0[p as int]@);
                }
                assert(esv2 =~= esv0.subrange(0, p as int) + seq![ev]
                    + esv0.subrange(p as int + 1, esv0.len() as int)) by {
                    assert forall|j: int| 0 <= j < esv2.len() implies esv2[j] == (
                        esv0.subrange(0, p as int) + seq![ev]
                            + esv0.subrange(p as int + 1, esv0.len() as int)
                    )[j] by {
                        assert(esv2[j] == es2[j]@);
                        if j < p {
                            assert(es2[j] == es0[j]);
                            assert(esv0[j] == es0[j]@);
                        } else if j == p {
                            assert(es2[j] == e);
                        } else {
                            assert(es2[j] == es0[j]);
                            assert(esv0[j] == es0[j]@);
                        }
                    }
                }
            } else {
                assert((p as int) < esv0.len()
                    ==> esv0[p as int].metadata.name != ev.metadata.name) by {
                    if (p as int) < esv0.len() {
                        assert(esv0[p as int] == es0[p as int]@);
                    }
                }
                assert(esv2 =~= esv0.subrange(0, p as int) + seq![ev]
                    + esv0.subrange(p as int, esv0.len() as int)) by {
                    assert forall|j: int| 0 <= j < esv2.len() implies esv2[j] == (
                        esv0.subrange(0, p as int) + seq![ev]
                            + esv0.subrange(p as int, esv0.len() as int)
                    )[j] by {
                        assert(esv2[j] == es2[j]@);
                        if j < p {
                            assert(es2[j] == es0[j]);
                            assert(esv0[j] == es0[j]@);
                        } else if j == p {
                            assert(es2[j] == e);
                        } else {
                            assert(es2[j] == es0[j - 1]);
                            assert(esv0[j - 1] == es0[j - 1]@);
                        }
                    }
                }
            }
        }
    }

    /// Delete the entry for a name; deleting an absent name is a no-op
    /// success, so removal is idempotent.
    pub fn remove(&mut self, name: &str)
        requires
            old(self).wf(),
        ensures
            final(self).wf(),
            final(self)@ == old(self)@.remove(name@),
            final(self).entries_seq() == remove_name(old(self).entries_seq(), name@),
            final(self).path_spec() == old(self).path_spec(),
            final(self).signer_spec() == old(self).signer_spec(),
            final(self).mode_spec() == old(self).mode_spec(),
    {
        let ghost es0 = self.entries@;
        let ghost old_db = *old(self);
        let n = self.entries.len();
        let mut i: usize = 0;
        while i < n
            invariant
                *self == *old(self),
                old(self).wf(),
                old_db == *old(self),
                0 <= i <= n,
                n == self.entries@.len(),
                self.entries@ == es0,
                es0 == old(self).entries@,
                forall|j: int| 0 <= j < i ==> (#[trigger] es0[j].metadata.name@) != name@,
            decreases n - i,
        {
            if str_eq(self.entries[i].metadata.name.as_str(), name) {
                self.entries.remove(i);
                proof {
                    old_db.lemma_unique();
                    assert(old_db.entries@ == es0);
                    let es1 = self.entries@;
                    assert(es1 =~= es0.remove(i as int));
                    assert(forall|j: int| 0 <= j < i ==> es1[j] == es0[j]);
                    assert(forall|j: int| i <= j < es1.len() ==> es1[j] == es0[j + 1]);
                    assert forall|a: int, b: int| 0 <= a < b < es1.len()
                        implies lex_lt(
                            (#[trigger] es1[a]).metadata.name@,
                            (#[trigger] es1[b]).metadata.name@,
                        ) by {
                        let a0: int = if a < i { a } else { a + 1 };
                        let b0: int = if b < i { b } else { b + 1 };
                        assert(lex_lt(es0[a0].metadata.name@, es0[b0].metadata.name@));
                    }
                    let m0 = old_db@;
                    let m1 = self@;
                    assert forall|kk: Seq<char>| #[trigger] m1.contains_key(kk)
                        implies m0.remove(name@).contains_key(kk) by {
                        let j = choose|j: int| 0 <= j < es1.len()
                            && (#[trigger] es1[j].metadata.name@) == kk;
                        let j0: int = if j < i { j } else { j + 1 };
                        assert(es0[j0].metadata.name@ == kk);
                        assert(j0 != i);
                        assert(kk != name@);
                    }
                    assert forall|kk: Seq<char>| #[trigger] m0.remove(name@).contains_key(kk)
                        implies m1.contains_key(kk) by {
                        assert(m0.contains_key(kk));
                        assert(has_name(es0, kk));
                        let j0 = choose|j: int| 0 <= j < es0.len()
                            && (#[trigger] es0[j].metadata.name@) == kk;
                        assert(kk != name@);
                        assert(j0 != i);
                        if j0 < i {
                            assert(es1[j0].metadata.name@ == kk);
                        } else {
                            assert(es1[j0 - 1].metadata.name@ == kk);
                        }
                        assert(has_name(es1, kk));
                    }
                    assert forall|kk: Seq<char>| #[trigger] m1.contains_key(kk)
                        implies m1[kk] == m0.remove(name@)[kk] by {
                        let new_db = *self;
                        let j = choose|j: int| 0 <= j < es1.len()
                            && (#[trigger] es1[j].metadata.name@) == kk;
                        new_db.lemma_entry_at_index(j);
                        let j0: int = if j < i { j } else { j + 1 };
                        assert(es1[j] == es0[j0]);
                        old_db.lemma_entry_at_index(j0);
                    }
                    assert(m1 =~= m0.remove(name@));
                    // the serialization order: the one entry of this name leaves
                    let esv0 = old_db.entries_seq();
                    let esv1 = self.entries_seq();
                    assert forall|j: int| 0 <= j < i
                        implies (#[trigger] esv0[j]).metadata.name != name@ by {
                        assert(esv0[j] == es0[j]@);
                    }
                    assert(esv0[i as int].metadata.name == name@) by {
                        assert(esv0[i as int] == es0[i as int]@);
                    }
                    lemma_remove_name_split(esv0, name@, i as int);
                    assert(esv1 =~= esv0.subrange(0, i as int)
                        + esv0.subrange(i as int + 1, esv0.len() as int)) by {
                        assert forall|j: int| 0 <= j < esv1.len() implies esv1[j] == (
                            esv0.subrange(0, i as int)
                                + esv0.subrange(i as int + 1, esv0.len() as int)
                        )[j] by {
                            assert(esv1[j] == es1[j]@);
                            if j < i {
                                assert(es1[j] == es0[j]);
                                assert(esv0[j] == es0[j]@);
                            } else {
                                assert(es1[j] == es0[j + 1]);
                                assert(esv0[j + 1] == es0[j + 1]@);
                            }
                        }
                    }
                }
                return;
            }
            i = i + 1;
        }
        proof {
            assert(!has_name(es0, name@));
            assert(!old_db@.contains_key(name@));
            assert(self@ =~= old_db@.remove(name@));
            let esv0 = old_db.entries_seq();
            assert forall|j: int| 0 <= j < esv0.len()
                implies (#[trigger] esv0[j]).metadata.name != name@ by {
                assert(esv0[j] == es0[j]@);
            }
            lemma_remove_name_absent(esv0, name@);
        }
    }
}

/// The entry views of a sequence of stored entries.
pub open spec fn views_of(es: Seq<DatabaseEntry>) -> Seq<EntryView> {
    Seq::new(es.len(), |i: int| es[i]@)
}

/// Entries strictly name-sorted, as a free-standing condition.
pub open spec fn sorted_by_name(es: Seq<DatabaseEntry>) -> bool {
    forall|i: int, j: int| 0 <= i < j < es.len()
        ==> lex_lt(
            (#[trigger] es[i]).metadata.name@,
            (#[trigger] es[j]).metadata.name@,
        )
}

proof fn lemma_sorted_distinct(es: Seq<DatabaseEntry>, i: int, j: int)
    requires
        sorted_by_name(es),
        0 <= i < es.len(),
        0 <= j < es.len(),
        i != j,
    ensures
        es[i].metadata.name@ != es[j].metadata.name@,
{
    if es[i].metadata.name@ == es[j].metadata.name@ {
        if i < j {
            assert(lex_lt(es[i].metadata.name@, es[j].metadata.name@));
        } else {
            assert(lex_lt(es[j].metadata.name@, es[i].metadata.name@));
        }
        lemma_lex_irrefl(es[i].metadata.name@);
    }
}

proof fn lemma_entry_at_of(es: Seq<DatabaseEntry>, idx: int)
    requires
        sorted_by_name(es),
        0 <= idx < es.len(),
    ensures
        entry_at(es, es[idx].metadata.name@) == es[idx]@,
{
    let k = es[idx].metadata.name@;
    assert(has_name(es, k));
    assert forall|i: int| 0 <= i < es.len() && (#[trigger] es[i].metadata.name@) == k
        implies i == idx by {
        if i != idx {
            lemma_sorted_distinct(es, idx, i);
        }
    }
    assert(entry_at(es, k) == es[idx]@);
}

/// A name-sorted entry sequence is determined by the mapping it carries.
proof fn lemma_sorted_canonical(xs: Seq<DatabaseEntry>, ys: Seq<DatabaseEntry>)
    requires
        sorted_by_name(xs),
        sorted_by_name(ys),
        forall|k: Seq<char>| #[trigger] has_name(xs, k) == has_name(ys, k),
        forall|k: Seq<char>| #[trigger] has_name(xs, k) ==> entry_at(xs, k) == entry_at(ys, k),
    ensures
        views_of(xs) == views_of(ys),
    decreases xs.len(),
{
    if xs.len() == 0 {
        if ys.len() > 0 {
            assert(has_name(ys, ys[0].metadata.name@));
            assert(has_name(xs, ys[0].metadata.name@));
        }
        assert(views_of(xs) =~= views_of(ys));
    } else {
        assert(has_name(xs, xs[0].metadata.name@));
        if ys.len() == 0 {
            assert(!has_name(ys, xs[0].metadata.name@));
        }
        let nx = xs[0].metadata.name@;
        let ny = ys[0].metadata.name@;
        assert(nx == ny) by {
            if nx != ny {
                assert(has_name(ys, nx));
                let j = choose|j: int| 0 <= j < ys.len()
                    && (#[trigger] ys[j].metadata.name@) == nx;
                assert(j != 0);
                assert(lex_lt(ny, nx));
                assert(has_name(xs, ny)) by {
                    assert(has_name(ys, ny));
                }
                let i = choose|i: int| 0 <= i < xs.len()
                    && (#[trigger] xs[i].metadata.name@) == ny;
                assert(i != 0);
                assert(lex_lt(nx, ny));
                lemma_lex_trans(nx, ny, nx);
                lemma_lex_irrefl(nx);
            }
        }
        lemma_entry_at_of(xs, 0);
        lemma_entry_at_of(ys, 0);
        assert(xs[0]@ == ys[0]@);
        let xt = xs.drop_first();
        let yt = ys.drop_first();
        assert forall|i: int, j: int| 0 <= i < j < xt.len()
            implies lex_lt(
                (#[trigger] xt[i]).metadata.name@,
                (#[trigger] xt[j]).metadata.name@,
            ) by {
            assert(xt[i] == xs[i + 1]);
            assert(xt[j] == xs[j + 1]);
        }
        assert forall|i: int, j: int| 0 <= i < j < yt.len()
            implies lex_lt(
                (#[trigger] yt[i]).metadata.name@,
                (#[trigger] yt[j]).metadata.name@,
            ) by {
            assert(yt[i] == ys[i + 1]);
            assert(yt[j] == ys[j + 1]);
        }
        assert forall|k: Seq<char>| #[trigger] has_name(xt, k) == has_name(yt, k) by {
            lemma_tail_has_name(xs, k);
            lemma_tail_has_name(ys, k);
        }
        assert forall|k: Seq<char>| #[trigger] has_name(xt, k)
            implies entry_at(xt, k) == entry_at(yt, k) by {
            lemma_tail_has_name(xs, k);
            lemma_tail_has_name(ys, k);
            lemma_tail_entry_at(xs, k);
            lemma_tail_entry_at(ys, k);
        }
        lemma_sorted_canonical(xt, yt);
        assert(views_of(xt).len() == xt.len());
        assert(views_of(yt).len() == yt.len());
        assert(xs.len() == ys.len());
        assert(views_of(xs) =~= views_of(ys)) by {
            assert(xs.len() == ys.len());
            assert forall|i: int| 0 <= i < xs.len()
                implies views_of(xs)[i] == views_of(ys)[i] by {
                if i == 0 {
                    assert(views_of(xs)[0] == xs[0]@);
                    assert(views_of(ys)[0] == ys[0]@);
                } else {
                    assert(views_of(xt)[i - 1] == views_of(yt)[i - 1]);
                    assert(views_of(xt)[i - 1] == xt[i - 1]@);
                    assert(views_of(yt)[i - 1] == yt[i - 1]@);
                    assert(xt[i - 1] == xs[i]);
                    assert(yt[i - 1] == ys[i]);
                    assert(views_of(xs)[i] == xs[i]@);
                    assert(views_of(ys)[i] == ys[i]@);
                }
            }
        }
    }
}

/// The tail holds a name exactly when the whole does and the head does not.
proof fn lemma_tail_has_name(es: Seq<DatabaseEntry>, k: Seq<char>)
    requires
        sorted_by_name(es),
        es.len() > 0,
    ensures
        has_name(es.drop_first(), k)
            == (has_name(es, k) && k != es[0].metadata.name@),
{
    let t = es.drop_first();
    if has_name(t, k) {
        let j = choose|j: int| 0 <= j < t.len() && (#[trigger] t[j].metadata.name@) == k;
        assert(t[j] == es[j + 1]);
        assert(es[j + 1].metadata.name@ == k);
        assert(has_name(es, k));
        lemma_sorted_distinct(es, 0, j + 1);
    }
    if has_name(es, k) && k != es[0].metadata.name@ {
        let i = choose|i: int| 0 <= i < es.len() && (#[trigger] es[i].metadata.name@) == k;
        assert(i != 0);
        assert(t[i - 1] == es[i]);
        assert(t[i - 1].metadata.name@ == k);
        assert(has_name(t, k));
    }
}

/// The tail's lookup agrees with the whole's, away from the head's name.
proof fn lemma_tail_entry_at(es: Seq<DatabaseEntry>, k: Seq<char>)
    requires
        sorted_by_name(es),
        es.len() > 0,
        has_name(es.drop_first(), k),
    ensures
        entry_at(es.drop_first(), k) == entry_at(es, k),
{
    let t = es.drop_first();
    let j = choose|j: int| 0 <= j < t.len() && (#[trigger] t[j].metadata.name@) == k;
    assert(t[j] == es[j + 1]);
    lemma_entry_at_of(es, j + 1);
    assert forall|i: int| 0 <= i < t.len() && (#[trigger] t[i].metadata.name@) == k
        implies i == j by {
        if i != j {
            assert(t[i] == es[i + 1]);
            lemma_sorted_distinct(es, j + 1, i + 1);
        }
    }
    assert(entry_at(t, k) == t[j]@);
    assert(entry_at(es, k) == es[j + 1]@);
}

/// Reproducibility: two well-formed databases holding the same mapping
/// serialize their entries in the same canonical order, however the mapping
/// was built.
pub proof fn lemma_equal_views_equal_entries(a: &RepositoryDatabase, b: &RepositoryDatabase)
    requires
        a.wf(),
        b.wf(),
        a@ == b@,
    ensures
        a.entries_seq() == b.entries_seq(),
{
    assert forall|k: Seq<char>| #[trigger] has_name(a.entries@, k)
        == has_name(b.entries@, k) by {
        assert(a@.contains_key(k) == has_name(a.entries@, k));
        assert(b@.contains_key(k) == has_name(b.entries@, k));
    }
    assert forall|k: Seq<char>| #[trigger] has_name(a.entries@, k)
        implies entry_at(a.entries@, k) == entry_at(b.entries@, k) by {
        assert(a@[k] == entry_at(a.entries@, k));
        assert(b@[k] == entry_at(b.entries@, k));
    }
    lemma_sorted_canonical(a.entries@, b.entries@);
    assert(a.entries_seq() =~= views_of(a.entries@));
    assert(b.entries_seq() =~= views_of(b.entries@));
}

/// The sidecar path of the detached signature written next to an archive.
pub fn signature_path(path: &str) -> (r: String)
    ensures
        r@ == path@ + ".sig"@,
{
    proof {
        reveal_strlit(".sig");
    }
    let mut s = path.to_owned();
    s.append(".sig");
    s
}

/// After a package is added, the database contains its name and stores
/// exactly its data.
pub proof fn lemma_add_gives_entry(m: Map<Seq<char>, EntryView>, k: Seq<char>, e: EntryView)
    ensures
        m.insert(k, e).contains_key(k),
        m.insert(k, e)[k] == e,
{
}

/// After a removal the name is gone, and removing it again leaves the same
/// database with no error.
pub proof fn lemma_remove_idempotent(m: Map<Seq<char>, EntryView>, k: Seq<char>)
    ensures
        !m.remove(k).contains_key(k),
        m.remove(k).remove(k) == m.remove(k),
{
    assert(m.remove(k).remove(k) =~= m.remove(k));
}

/// Adding a name twice keeps exactly one entry: the later one, with no
/// merging of fields across versions.
pub proof fn lemma_add_last_write_wins(
    m: Map<Seq<char>, EntryView>,
    k: Seq<char>,
    e1: EntryView,
    e2: EntryView,
)
    ensures
        m.insert(k, e1).insert(k, e2) == m.insert(k, e2),
{
    assert(m.insert(k, e1).insert(k, e2) =~= m.insert(k, e2));
}

} // verus!
