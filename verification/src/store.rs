use vstd::prelude::*;
use crate::error::StoreError;
use crate::filter::Entry;
use crate::header::FieldPath;
use crate::header::header_read;
use crate::header::header_write;
use crate::header::spec_read;
use crate::header::spec_write;
use crate::resolver::resolve;
use crate::resolver::spec_entry_path;
use crate::resolver::spec_resolve_parts;
use crate::resolver::spec_strip_slash;
use crate::value::SpecValue;
use crate::value::Value;
use crate::versions::sort_versions;
use crate::versions::spec_all_numeric;
use crate::versions::spec_version_le;
use crate::versions::views_of;
use vstd::string::StrSliceExecFns;

verus! {

/// How a store is set up: the directory all entries live under, and
/// whether retrieving a missing entry creates it empty instead of
/// failing.
#[derive(Debug)]
pub struct StoreConfiguration {
    pub root: String,
    pub implicit_create: bool,
}

/// One persisted entry: the physical path and the header-plus-content
/// payload under it.
struct StoredEntry {
    path: String,
    header: Value,
    content: Vec<u8>,
}

/// The model of one entry's payload.
#[verifier::ext_equal]
pub struct EntryModel {
    pub header: SpecValue,
    pub content: Seq<u8>,
}

/// The model of a whole store: the configuration, the persisted entries
/// keyed by physical path, and the set of paths held by live handles.
#[verifier::ext_equal]
pub struct StoreModel {
    pub root: Seq<char>,
    pub implicit_create: bool,
    pub entries: Map<Seq<char>, EntryModel>,
    pub locks: Set<Seq<char>>,
}

/// The model of a live handle: where it points and the in-memory
/// header-plus-content state it carries.
#[verifier::ext_equal]
pub struct HandleModel {
    pub id: Seq<char>,
    pub version: Seq<char>,
    pub path: Seq<char>,
    pub header: SpecValue,
    pub content: Seq<u8>,
}

/// The failures the store transitions distinguish.
pub enum SpecFault {
    NotFound,
    AlreadyExists,
    LockConflict,
    NoVersion,
}

/// Whether an executable error reports the fault a transition names.
pub open spec fn fault_matches(e: StoreError, f: SpecFault) -> bool {
    match f {
        SpecFault::NotFound => e matches StoreError::NotFound,
        SpecFault::AlreadyExists => e matches StoreError::AlreadyExists,
        SpecFault::LockConflict => e matches StoreError::LockConflict,
        SpecFault::NoVersion => e matches StoreError::NoVersion,
    }
}

/// A sane store model: a path is locked only while an entry exists
/// under it.
pub open spec fn model_inv(m: StoreModel) -> bool {
    forall|p: Seq<char>| m.locks.contains(p) ==> m.entries.contains_key(p)
}

/// The empty header document a fresh entry carries.
pub open spec fn spec_empty_header() -> SpecValue {
    SpecValue::Table(Seq::empty())
}

/// The model of one stored entry's payload.
spec fn entry_model(e: StoredEntry) -> EntryModel {
    EntryModel { header: e.header@, content: e.content@ }
}

/// The path-keyed map a sequence of stored entries denotes.
spec fn entries_map(s: Seq<StoredEntry>) -> Map<Seq<char>, EntryModel>
    decreases s.len(),
{
    if s.len() == 0 {
        Map::empty()
    } else {
        entries_map(s.drop_last()).insert(s.last().path@, entry_model(s.last()))
    }
}

/// The set of locked paths a sequence of lock tokens denotes.
spec fn locks_set(s: Seq<String>) -> Set<Seq<char>>
    decreases s.len(),
{
    if s.len() == 0 {
        Set::empty()
    } else {
        locks_set(s.drop_last()).insert(s.last()@)
    }
}

/// Pairwise-distinct entry paths.
spec fn paths_distinct(s: Seq<StoredEntry>) -> bool {
    forall|i: int, j: int|
        0 <= i < j < s.len() ==> (#[trigger] s[i]).path@ != (#[trigger] s[j]).path@
}

/// Pairwise-distinct lock tokens.
spec fn locks_distinct(s: Seq<String>) -> bool {
    forall|i: int, j: int| 0 <= i < j < s.len() ==> (#[trigger] s[i])@ != (#[trigger] s[j])@
}

proof fn lemma_entries_map_index(s: Seq<StoredEntry>)
    ensures
        forall|p: Seq<char>|
            #[trigger] entries_map(s).contains_key(p) <==> exists|i: int|
                0 <= i < s.len() && (#[trigger] s[i]).path@ == p,
        paths_distinct(s) ==> forall|i: int|
            0 <= i < s.len() ==> entries_map(s)[(#[trigger] s[i]).path@] == entry_model(s[i]),
    decreases s.len(),
{
    if s.len() > 0 {
        lemma_entries_map_index(s.drop_last());
        assert forall|p: Seq<char>| #[trigger]
            entries_map(s).contains_key(p) implies exists|i: int|
            0 <= i < s.len() && (#[trigger] s[i]).path@ == p by {
            if p == s.last().path@ {
                assert(s[s.len() - 1].path@ == p);
            } else {
                assert(entries_map(s.drop_last()).contains_key(p));
                let i = choose|i: int|
                    0 <= i < s.drop_last().len() && (#[trigger] s.drop_last()[i]).path@ == p;
                assert(0 <= i < s.len() && s[i].path@ == p);
            }
        };
        assert forall|p: Seq<char>|
            exists|i: int|
                0 <= i < s.len() && (#[trigger] s[i]).path@ == p implies #[trigger] entries_map(
            s,
        ).contains_key(p) by {
            let i = choose|i: int| 0 <= i < s.len() && (#[trigger] s[i]).path@ == p;
            if i < s.len() - 1 {
                assert(s.drop_last()[i].path@ == p);
                assert(entries_map(s.drop_last()).contains_key(p));
            }
        };
        if paths_distinct(s) {
            assert(paths_distinct(s.drop_last()));
            assert forall|i: int| 0 <= i < s.len() implies entries_map(s)[(#[trigger] s[i]).path@]
                == entry_model(s[i]) by {
                if i < s.len() - 1 {
                    assert(s.drop_last()[i] == s[i]);
                    assert(s[i].path@ != s.last().path@);
                }
            };
        }
    }
}

proof fn lemma_locks_index(s: Seq<String>)
    ensures
        forall|p: Seq<char>|
            #[trigger] locks_set(s).contains(p) <==> exists|i: int|
                0 <= i < s.len() && (#[trigger] s[i])@ == p,
    decreases s.len(),
{
    if s.len() > 0 {
        lemma_locks_index(s.drop_last());
        assert forall|p: Seq<char>| #[trigger] locks_set(s).contains(p) implies exists|i: int|
            0 <= i < s.len() && (#[trigger] s[i])@ == p by {
            if p == s.last()@ {
                assert(s[s.len() - 1]@ == p);
            } else {
                assert(locks_set(s.drop_last()).contains(p));
                let i = choose|i: int|
                    0 <= i < s.drop_last().len() && (#[trigger] s.drop_last()[i])@ == p;
                assert(0 <= i < s.len() && s[i]@ == p);
            }
        };
        assert forall|p: Seq<char>|
            exists|i: int| 0 <= i < s.len() && (#[trigger] s[i])@ == p implies #[trigger] locks_set(
            s,
        ).contains(p) by {
            let i = choose|i: int| 0 <= i < s.len() && (#[trigger] s[i])@ == p;
            if i < s.len() - 1 {
                assert(s.drop_last()[i]@ == p);
                assert(locks_set(s.drop_last()).contains(p));
            }
        };
    }
}

proof fn lemma_entries_map_push(s: Seq<StoredEntry>, e: StoredEntry)
    ensures
        entries_map(s.push(e)) == entries_map(s).insert(e.path@, entry_model(e)),
{
    assert(s.push(e).drop_last() =~= s);
    assert(s.push(e).last() == e);
}

proof fn lemma_locks_push(s: Seq<String>, x: String)
    ensures
        locks_set(s.push(x)) == locks_set(s).insert(x@),
{
    assert(s.push(x).drop_last() =~= s);
    assert(s.push(x).last() == x);
}

proof fn lemma_locks_push_distinct(s: Seq<String>, x: String)
    requires
        locks_distinct(s),
        !locks_set(s).contains(x@),
    ensures
        locks_distinct(s.push(x)),
{
    lemma_locks_index(s);
    assert forall|a: int, b: int|
        0 <= a < b < s.push(x).len() implies (#[trigger] s.push(x)[a])@ != (
    #[trigger] s.push(x)[b])@ by {
        if b == s.len() as int {
            if s.push(x)[a]@ == x@ {
                assert(s[a]@ == x@);
                assert(locks_set(s).contains(x@));
            }
        } else {
            assert(s.push(x)[a] == s[a]);
            assert(s.push(x)[b] == s[b]);
        }
    };
}

proof fn lemma_paths_push_distinct(s: Seq<StoredEntry>, e: StoredEntry)
    requires
        paths_distinct(s),
        !entries_map(s).contains_key(e.path@),
    ensures
        paths_distinct(s.push(e)),
{
    lemma_entries_map_index(s);
    assert forall|a: int, b: int|
        0 <= a < b < s.push(e).len() implies (#[trigger] s.push(e)[a]).path@ != (
    #[trigger] s.push(e)[b]).path@ by {
        if b == s.len() as int {
            if s.push(e)[a].path@ == e.path@ {
                assert(s[a].path@ == e.path@);
                assert(entries_map(s).contains_key(e.path@));
            }
        } else {
            assert(s.push(e)[a] == s[a]);
            assert(s.push(e)[b] == s[b]);
        }
    };
}

proof fn lemma_entries_map_remove(s: Seq<StoredEntry>, i: int)
    requires
        paths_distinct(s),
        0 <= i < s.len(),
    ensures
        entries_map(s.remove(i)) =~= entries_map(s).remove(s[i].path@),
    decreases s.len(),
{
    lemma_entries_map_index(s);
    lemma_entries_map_index(s.remove(i));
    lemma_entries_map_index(s.drop_last());
    if i == s.len() - 1 {
        assert(s.remove(i) =~= s.drop_last());
        assert(!entries_map(s.drop_last()).contains_key(s[i].path@));
        assert(entries_map(s.drop_last()).insert(
            s.last().path@,
            entry_model(s.last()),
        ).remove(s[i].path@) =~= entries_map(s.drop_last()));
    } else {
        assert(paths_distinct(s.drop_last()));
        lemma_entries_map_remove(s.drop_last(), i);
        assert(s.remove(i).drop_last() =~= s.drop_last().remove(i));
        assert(s.remove(i).last() == s.last());
        assert(entries_map(s.remove(i)) == entries_map(s.drop_last().remove(i)).insert(
            s.last().path@,
            entry_model(s.last()),
        ));
        assert(entries_map(s.drop_last().remove(i)) =~= entries_map(s.drop_last()).remove(
            s[i].path@,
        ));
        assert(entries_map(s.drop_last()).remove(s[i].path@).insert(
            s.last().path@,
            entry_model(s.last()),
        ) =~= entries_map(s.drop_last()).insert(s.last().path@, entry_model(s.last())).remove(
            s[i].path@,
        ));
    }
}

proof fn lemma_locks_remove(s: Seq<String>, i: int)
    requires
        locks_distinct(s),
        0 <= i < s.len(),
    ensures
        locks_set(s.remove(i)) =~= locks_set(s).remove(s[i]@),
    decreases s.len(),
{
    lemma_locks_index(s);
    lemma_locks_index(s.remove(i));
    lemma_locks_index(s.drop_last());
    if i == s.len() - 1 {
        assert(s.remove(i) =~= s.drop_last());
        assert(!locks_set(s.drop_last()).contains(s[i]@));
        assert(locks_set(s.drop_last()).insert(s.last()@).remove(s[i]@) =~= locks_set(
            s.drop_last(),
        ));
    } else {
        assert(locks_distinct(s.drop_last()));
        lemma_locks_remove(s.drop_last(), i);
        assert(s.remove(i).drop_last() =~= s.drop_last().remove(i));
        assert(s.remove(i).last() == s.last());
        assert(locks_set(s.drop_last().remove(i)) =~= locks_set(s.drop_last()).remove(s[i]@));
        assert(locks_set(s.drop_last()).remove(s[i]@).insert(s.last()@) =~= locks_set(
            s.drop_last(),
        ).insert(s.last()@).remove(s[i]@));
    }
}

/// The view of an optional version argument.
pub open spec fn view_opt(version: Option<&str>) -> Option<Seq<char>> {
    match version {
        Some(v) => Some(v@),
        None => None,
    }
}

/// The `retrieve` transition on the model: resolution, then lock
/// acquisition; a missing entry is created empty exactly when the
/// configuration allows implicit creation.
pub open spec fn spec_retrieve(m: StoreModel, id: Seq<char>, version: Option<Seq<char>>) -> (
    StoreModel,
    Result<HandleModel, SpecFault>,
) {
    match spec_resolve_parts(id, version) {
        None => (m, Err(SpecFault::NoVersion)),
        Some((sid, ver)) => {
            let p = spec_entry_path(m.root, sid, ver);
            if m.locks.contains(p) {
                (m, Err(SpecFault::LockConflict))
            } else if m.entries.contains_key(p) {
                (
                    StoreModel { locks: m.locks.insert(p), ..m },
                    Ok(
                        HandleModel {
                            id: sid,
                            version: ver,
                            path: p,
                            header: m.entries[p].header,
                            content: m.entries[p].content,
                        },
                    ),
                )
            } else if m.implicit_create {
                (
                    StoreModel {
                        entries: m.entries.insert(
                            p,
                            EntryModel { header: spec_empty_header(), content: Seq::empty() },
                        ),
                        locks: m.locks.insert(p),
                        ..m
                    },
                    Ok(
                        HandleModel {
                            id: sid,
                            version: ver,
                            path: p,
                            header: spec_empty_header(),
                            content: Seq::empty(),
                        },
                    ),
                )
            } else {
                (m, Err(SpecFault::NotFound))
            }
        },
    }
}

/// The `create` transition on the model: a fresh entry is persisted and
/// its lock handed out; a pair that already exists is refused.
pub open spec fn spec_create(
    m: StoreModel,
    id: Seq<char>,
    version: Seq<char>,
    header: SpecValue,
    content: Seq<u8>,
) -> (StoreModel, Result<HandleModel, SpecFault>) {
    let sid = spec_strip_slash(id);
    let p = spec_entry_path(m.root, sid, version);
    if m.entries.contains_key(p) {
        (m, Err(SpecFault::AlreadyExists))
    } else {
        (
            StoreModel {
                entries: m.entries.insert(p, EntryModel { header, content }),
                locks: m.locks.insert(p),
                ..m
            },
            Ok(HandleModel { id: sid, version, path: p, header, content }),
        )
    }
}

/// The `delete` transition on the model: a missing pair is `NotFound`, a
/// locked one `LockConflict`, any other is removed.
pub open spec fn spec_delete(m: StoreModel, id: Seq<char>, version: Seq<char>) -> (
    StoreModel,
    Result<(), SpecFault>,
) {
    let sid = spec_strip_slash(id);
    let p = spec_entry_path(m.root, sid, version);
    if !m.entries.contains_key(p) {
        (m, Err(SpecFault::NotFound))
    } else if m.locks.contains(p) {
        (m, Err(SpecFault::LockConflict))
    } else {
        (StoreModel { entries: m.entries.remove(p), ..m }, Ok(()))
    }
}

/// The `save` transition on the model: the handle's in-memory state
/// replaces the persisted payload under its path, provided the handle
/// still holds its lock.
pub open spec fn spec_save(m: StoreModel, h: HandleModel) -> (StoreModel, Result<(), SpecFault>) {
    if m.locks.contains(h.path) {
        (
            StoreModel {
                entries: m.entries.insert(h.path, EntryModel { header: h.header, content: h.content }),
                ..m
            },
            Ok(()),
        )
    } else {
        (m, Err(SpecFault::LockConflict))
    }
}

/// The `release` transition on the model: the lock goes away, unsaved
/// in-memory state is discarded, the persisted payload stays.
pub open spec fn spec_release(m: StoreModel, p: Seq<char>) -> StoreModel {
    StoreModel { locks: m.locks.remove(p), ..m }
}

/// An exclusive handle on one (id, version) pair: the only way to read
/// or change an entry's header and content.  Changes are in-memory until
/// `EntryStore::save`; releasing without saving discards them.
#[derive(Debug)]
pub struct LockedEntryHandle {
    id: String,
    version: String,
    path: String,
    header: Value,
    content: Vec<u8>,
}

impl View for LockedEntryHandle {
    type V = HandleModel;

    closed spec fn view(&self) -> HandleModel {
        HandleModel {
            id: self.id@,
            version: self.version@,
            path: self.path@,
            header: self.header@,
            content: self.content@,
        }
    }
}

impl LockedEntryHandle {
    /// The logical id this handle points at.
    pub fn id(&self) -> (r: &str)
        ensures
            r@ == self@.id,
    {
        self.id.as_str()
    }

    /// The version token this handle points at.
    pub fn version(&self) -> (r: &str)
        ensures
            r@ == self@.version,
    {
        self.version.as_str()
    }

    /// The in-memory header document.
    pub fn header(&self) -> (r: &Value)
        ensures
            r@ == self@.header,
    {
        &self.header
    }

    /// The in-memory raw content.
    pub fn content(&self) -> (r: &Vec<u8>)
        ensures
            r@ == self@.content,
    {
        &self.content
    }

    /// Replaces the in-memory content.
    pub fn set_content(&mut self, content: Vec<u8>)
        ensures
            final(self)@ == (HandleModel { content: content@, ..old(self)@ }),
    {
        self.content = content;
    }

    /// Replaces the whole in-memory header document.
    pub fn set_header(&mut self, header: Value)
        ensures
            final(self)@ == (HandleModel { header: header@, ..old(self)@ }),
    {
        self.header = header;
    }

    /// Reads the in-memory header at a dotted path; a miss is `None`,
    /// never an error.
    pub fn read_header_field<'a>(&'a self, path: &FieldPath) -> (r: Option<&'a Value>)
        ensures
            match r {
                Some(x) => spec_read(self@.header, path@) == Some(x@),
                None => spec_read(self@.header, path@) is None,
            },
    {
        header_read(&self.header, path)
    }

    /// A materialized snapshot of the handle's current in-memory state,
    /// for the filter engine: filters never touch the store itself.
    pub fn snapshot(&self) -> (r: Entry)
        ensures
            r.id@ == self@.id,
            r.version@ == self@.version,
            r.header@ == self@.header,
            r.content@ == self@.content,
    {
        Entry {
            id: clone_string_s(&self.id),
            version: clone_string_s(&self.version),
            header: self.header.clone(),
            content: clone_bytes(&self.content),
        }
    }

    /// Writes the in-memory header at a dotted path, creating
    /// intermediate tables; on structural incompatibility the header is
    /// left as it was and the fault is reported.
    pub fn write_header_field(&mut self, path: &FieldPath, nv: Value) -> (r: Result<
        (),
        StoreError,
    >)
        ensures
            match r {
                Ok(()) => spec_write(old(self)@.header, path@, nv@) is Some && final(self)@ == (
                HandleModel { header: spec_write(old(self)@.header, path@, nv@).unwrap(), ..old(
                    self,
                )@ }),
                Err(e) => spec_write(old(self)@.header, path@, nv@) is None && final(self)@ == old(
                    self,
                )@ && e matches StoreError::ConfigTypeError(_, _),
            },
    {
        match header_write(&self.header, path, nv) {
            Ok(w) => {
                self.header = w;
                Ok(())
            },
            Err(e) => Err(e),
        }
    }
}

/// The store root: creation, retrieval, deletion and enumeration of
/// entries, and the registry of live locks.
pub struct EntryStore {
    root: String,
    implicit_create: bool,
    entries: Vec<StoredEntry>,
    locks: Vec<String>,
}

impl View for EntryStore {
    type V = StoreModel;

    closed spec fn view(&self) -> StoreModel {
        StoreModel {
            root: self.root@,
            implicit_create: self.implicit_create,
            entries: entries_map(self.entries@),
            locks: locks_set(self.locks@),
        }
    }
}

impl EntryStore {
    /// A store is well formed when entry paths are pairwise distinct,
    /// lock tokens are pairwise distinct, and locks point at existing
    /// entries.  Every operation keeps this.
    pub closed spec fn wf(&self) -> bool {
        paths_distinct(self.entries@) && locks_distinct(self.locks@) && model_inv(self@)
    }

    /// A fresh, empty store under the given configuration.
    pub fn new(config: StoreConfiguration) -> (r: EntryStore)
        ensures
            r.wf(),
            r@.root == config.root@,
            r@.implicit_create == config.implicit_create,
            r@.entries == Map::<Seq<char>, EntryModel>::empty(),
            r@.locks == Set::<Seq<char>>::empty(),
    {
        EntryStore {
            root: config.root,
            implicit_create: config.implicit_create,
            entries: Vec::new(),
            locks: Vec::new(),
        }
    }

    /// Whether implicit creation is switched on.
    pub fn implicit_create_allowed(&self) -> (r: bool)
        ensures
            r == self@.implicit_create,
    {
        self.implicit_create
    }

    /// Finds the entry under `path`, if any.
    #[verifier::loop_isolation(false)]
    fn find_entry(&self, path: &str) -> (r: Option<usize>)
        ensures
            match r {
                Some(i) => i < self.entries@.len() && self.entries@[i as int].path@ == path@
                    && self@.entries.contains_key(path@),
                None => !self@.entries.contains_key(path@),
            },
    {
        proof {
            lemma_entries_map_index(self.entries@);
        }
        let mut i: usize = 0;
        while i < self.entries.len()
            invariant
                i <= self.entries@.len(),
                forall|j: int| 0 <= j < i ==> (#[trigger] self.entries@[j]).path@ != path@,
            decreases self.entries@.len() - i,
        {
            if crate::strutil::str_eq(self.entries[i].path.as_str(), path) {
                return Some(i);
            }
            i = i + 1;
        }
        None
    }

    /// Finds the lock token for `path`, if any.
    #[verifier::loop_isolation(false)]
    fn find_lock(&self, path: &str) -> (r: Option<usize>)
        ensures
            match r {
                Some(i) => i < self.locks@.len() && self.locks@[i as int]@ == path@
                    && self@.locks.contains(path@),
                None => !self@.locks.contains(path@),
            },
    {
        proof {
            lemma_locks_index(self.locks@);
        }
        let mut i: usize = 0;
        while i < self.locks.len()
            invariant
                i <= self.locks@.len(),
                forall|j: int| 0 <= j < i ==> (#[trigger] self.locks@[j])@ != path@,
            decreases self.locks@.len() - i,
        {
            if crate::strutil::str_eq(self.locks[i].as_str(), path) {
                return Some(i);
            }
            i = i + 1;
        }
        None
    }

    /// Resolves the pair, acquires its lock and hands back an exclusive
    /// handle.  Never waits: a held lock is an immediate `LockConflict`.
    /// A missing entry is created empty exactly when the configuration
    /// allows implicit creation, else reported `NotFound`.
    pub fn retrieve(&mut self, id: &str, version: Option<&str>) -> (r: Result<
        LockedEntryHandle,
        StoreError,
    >)
        requires
            old(self).wf(),
        ensures
            final(self).wf(),
            final(self)@ == spec_retrieve(old(self)@, id@, view_opt(version)).0,
            match (r, spec_retrieve(old(self)@, id@, view_opt(version)).1) {
                (Ok(h), Ok(hm)) => h@ == hm,
                (Err(e), Err(f)) => fault_matches(e, f),
                _ => false,
            },
    {
        let loc = match resolve(self.root.as_str(), id, version) {
            Ok(loc) => loc,
            Err(e) => {
                return Err(e);
            },
        };
        if self.find_lock(loc.path.as_str()).is_some() {
            return Err(StoreError::LockConflict);
        }
        match self.find_entry(loc.path.as_str()) {
            Some(i) => {
                let ghost m = self@;
                let header = self.entries[i].header.clone();
                let content = clone_bytes(&self.entries[i].content);
                let handle = LockedEntryHandle {
                    id: loc.id,
                    version: loc.version,
                    path: clone_string_s(&loc.path),
                    header,
                    content,
                };
                self.locks.push(loc.path);
                proof {
                    lemma_locks_push(old(self).locks@, self.locks@.last());
                    lemma_entries_map_index(self.entries@);
                    assert(self@ =~= (StoreModel { locks: m.locks.insert(handle@.path), ..m }));
                    assert(self.locks@ =~= old(self).locks@.push(self.locks@.last()));
                    lemma_locks_push_distinct(old(self).locks@, self.locks@.last());
                }
                Ok(handle)
            },
            None => {
                if self.implicit_create {
                    let ghost m = self@;
                    let entry = StoredEntry {
                        path: clone_string_s(&loc.path),
                        header: Value::Table(Vec::new()),
                        content: Vec::new(),
                    };
                    let handle = LockedEntryHandle {
                        id: loc.id,
                        version: loc.version,
                        path: clone_string_s(&loc.path),
                        header: Value::Table(Vec::new()),
                        content: Vec::new(),
                    };
                    proof {
                        lemma_entries_map_index(self.entries@);
                    }
                    self.entries.push(entry);
                    self.locks.push(loc.path);
                    proof {
                        lemma_entries_map_push(old(self).entries@, self.entries@.last());
                        lemma_locks_push(old(self).locks@, self.locks@.last());
                        assert(self.entries@.last().header@ =~= spec_empty_header());
                        assert(self@ =~= (StoreModel {
                            entries: m.entries.insert(
                                handle@.path,
                                EntryModel { header: spec_empty_header(), content: Seq::empty() },
                            ),
                            locks: m.locks.insert(handle@.path),
                            ..m
                        }));
                        assert(self.entries@ =~= old(self).entries@.push(self.entries@.last()));
                        assert(self.locks@ =~= old(self).locks@.push(self.locks@.last()));
                        lemma_paths_push_distinct(old(self).entries@, self.entries@.last());
                        lemma_locks_push_distinct(old(self).locks@, self.locks@.last());
                    }
                    Ok(handle)
                } else {
                    Err(StoreError::NotFound)
                }
            },
        }
    }

    /// Persists a fresh entry under (id, version) and hands back its
    /// handle, already holding the lock; an existing pair is refused
    /// with `AlreadyExists` and nothing changes.
    pub fn create(&mut self, id: &str, version: &str, header: Value, content: Vec<u8>) -> (r:
        Result<LockedEntryHandle, StoreError>)
        requires
            old(self).wf(),
        ensures
            final(self).wf(),
            final(self)@ == spec_create(old(self)@, id@, version@, header@, content@).0,
            match (r, spec_create(old(self)@, id@, version@, header@, content@).1) {
                (Ok(h), Ok(hm)) => h@ == hm,
                (Err(e), Err(f)) => fault_matches(e, f),
                _ => false,
            },
    {
        let loc = match resolve(self.root.as_str(), id, Some(version)) {
            Ok(loc) => loc,
            Err(_) => {
                // resolution with an explicit version cannot fail
                return Err(StoreError::AlreadyExists);
            },
        };
        if self.find_entry(loc.path.as_str()).is_some() {
            return Err(StoreError::AlreadyExists);
        }
        let ghost m = self@;
        let handle = LockedEntryHandle {
            id: loc.id,
            version: loc.version,
            path: clone_string_s(&loc.path),
            header: header.clone(),
            content: clone_bytes(&content),
        };
        let entry = StoredEntry { path: clone_string_s(&loc.path), header, content };
        proof {
            lemma_entries_map_index(self.entries@);
            lemma_locks_index(self.locks@);
        }
        self.entries.push(entry);
        self.locks.push(loc.path);
        proof {
            lemma_entries_map_push(old(self).entries@, self.entries@.last());
            lemma_locks_push(old(self).locks@, self.locks@.last());
            assert(self@ =~= spec_create(m, id@, version@, handle@.header, handle@.content).0);
            assert(self.entries@ =~= old(self).entries@.push(self.entries@.last()));
            assert(self.locks@ =~= old(self).locks@.push(self.locks@.last()));
            lemma_paths_push_distinct(old(self).entries@, self.entries@.last());
            lemma_locks_push_distinct(old(self).locks@, self.locks@.last());
        }
        Ok(handle)
    }

    /// Removes the entry under (id, version): `NotFound` when absent,
    /// `LockConflict` while a live handle holds it; otherwise the entry
    /// is gone and every other entry is untouched.
    pub fn delete(&mut self, id: &str, version: &str) -> (r: Result<(), StoreError>)
        requires
            old(self).wf(),
        ensures
            final(self).wf(),
            final(self)@ == spec_delete(old(self)@, id@, version@).0,
            match (r, spec_delete(old(self)@, id@, version@).1) {
                (Ok(()), Ok(())) => true,
                (Err(e), Err(f)) => fault_matches(e, f),
                _ => false,
            },
    {
        let loc = match resolve(self.root.as_str(), id, Some(version)) {
            Ok(loc) => loc,
            Err(_) => {
                // resolution with an explicit version cannot fail
                return Err(StoreError::NotFound);
            },
        };
        match self.find_entry(loc.path.as_str()) {
            None => Err(StoreError::NotFound),
            Some(i) => {
                if self.find_lock(loc.path.as_str()).is_some() {
                    return Err(StoreError::LockConflict);
                }
                let ghost m = self@;
                proof {
                    lemma_entries_map_index(self.entries@);
                    lemma_locks_index(self.locks@);
                }
                self.entries.remove(i);
                proof {
                    lemma_entries_map_remove(old(self).entries@, i as int);
                    assert(self@ =~= (StoreModel {
                        entries: m.entries.remove(old(self).entries@[i as int].path@),
                        ..m
                    }));
                    assert forall|a: int, b: int|
                        0 <= a < b < self.entries@.len() implies (#[trigger] self.entries@[a]).path@
                        != (#[trigger] self.entries@[b]).path@ by {
                        assert(self.entries@[a] == if a < i as int {
                            old(self).entries@[a]
                        } else {
                            old(self).entries@[a + 1]
                        });
                        assert(self.entries@[b] == if b < i as int {
                            old(self).entries@[b]
                        } else {
                            old(self).entries@[b + 1]
                        });
                    };
                    lemma_entries_map_index(self.entries@);
                }
                Ok(())
            },
        }
    }

    /// Persists the handle's in-memory header and content back under its
    /// path.  The handle stays live and keeps its lock.
    pub fn save(&mut self, handle: &LockedEntryHandle) -> (r: Result<(), StoreError>)
        requires
            old(self).wf(),
        ensures
            final(self).wf(),
            final(self)@ == spec_save(old(self)@, handle@).0,
            match (r, spec_save(old(self)@, handle@).1) {
                (Ok(()), Ok(())) => true,
                (Err(e), Err(f)) => fault_matches(e, f),
                _ => false,
            },
    {
        if self.find_lock(handle.path.as_str()).is_none() {
            return Err(StoreError::LockConflict);
        }
        match self.find_entry(handle.path.as_str()) {
            None => {
                proof {
                    assert(false);
                }
                Err(StoreError::NotFound)
            },
            Some(i) => {
                let ghost m = self@;
                proof {
                    lemma_entries_map_index(self.entries@);
                }
                let old_entry = self.entries.remove(i);
                let entry = StoredEntry {
                    path: old_entry.path,
                    header: handle.header.clone(),
                    content: clone_bytes(&handle.content),
                };
                proof {
                    lemma_entries_map_remove(old(self).entries@, i as int);
                    assert forall|a: int, b: int|
                        0 <= a < b < self.entries@.len() implies (#[trigger] self.entries@[a]).path@
                        != (#[trigger] self.entries@[b]).path@ by {
                        assert(self.entries@[a] == if a < i as int {
                            old(self).entries@[a]
                        } else {
                            old(self).entries@[a + 1]
                        });
                        assert(self.entries@[b] == if b < i as int {
                            old(self).entries@[b]
                        } else {
                            old(self).entries@[b + 1]
                        });
                    };
                }
                let ghost mid_entries = self.entries@;
                self.entries.push(entry);
                proof {
                    lemma_entries_map_push(mid_entries, self.entries@.last());
                    assert(self@.entries =~= m.entries.insert(
                        handle@.path,
                        EntryModel { header: handle@.header, content: handle@.content },
                    ));
                    assert(self@ =~= spec_save(m, handle@).0);
                    lemma_entries_map_index(self.entries@);
                    assert(paths_distinct(self.entries@));
                }
                Ok(())
            },
        }
    }

    /// Releases the handle: its lock is unregistered so the pair can be
    /// acquired again, and whatever was not saved is discarded.  Always
    /// succeeds, also for a handle whose lock is already gone.
    pub fn release(&mut self, handle: LockedEntryHandle)
        requires
            old(self).wf(),
        ensures
            final(self).wf(),
            final(self)@ == spec_release(old(self)@, handle@.path),
    {
        let ghost m = self@;
        match self.find_lock(handle.path.as_str()) {
            None => {
                proof {
                    assert(self@.locks =~= m.locks.remove(handle@.path));
                    assert(self@ =~= spec_release(m, handle@.path));
                }
            },
            Some(i) => {
                proof {
                    lemma_locks_index(self.locks@);
                }
                self.locks.remove(i);
                proof {
                    lemma_locks_remove(old(self).locks@, i as int);
                    assert(self@ =~= spec_release(m, handle@.path));
                    assert forall|a: int, b: int|
                        0 <= a < b < self.locks@.len() implies (#[trigger] self.locks@[a])@ != (
                    #[trigger] self.locks@[b])@ by {
                        assert(self.locks@[a] == if a < i as int {
                            old(self).locks@[a]
                        } else {
                            old(self).locks@[a + 1]
                        });
                        assert(self.locks@[b] == if b < i as int {
                            old(self).locks@[b]
                        } else {
                            old(self).locks@[b + 1]
                        });
                    };
                    lemma_locks_index(self.locks@);
                }
            },
        }
    }

    /// Collects, in on-record order, every version token under `id`.
    #[verifier::rlimit(100)]
    fn collect_versions(&self, id: &str) -> (found: Vec<String>)
        requires
            self.wf(),
        ensures
            forall|k: int|
                0 <= k < found@.len() ==> self@.entries.contains_key(
                    spec_entry_path(self@.root, spec_strip_slash(id@), (#[trigger] found@[k])@),
                ),
            forall|v: Seq<char>|
                self@.entries.contains_key(
                    #[trigger] spec_entry_path(self@.root, spec_strip_slash(id@), v),
                ) ==> exists|k: int| 0 <= k < found@.len() && (#[trigger] found@[k])@ == v,
            forall|a: int, b: int|
                0 <= a < b < found@.len() ==> (#[trigger] found@[a])@ != (#[trigger] found@[b])@,
    {
        proof {
            lemma_entries_map_index(self.entries@);
        }
        let prefix = build_prefix(self.root.as_str(), id);
        let found = scan_versions(&self.entries, &prefix);
        proof {
            let plen = prefix@.len() as int;
            assert forall|v: Seq<char>|
                self@.entries.contains_key(
                    #[trigger] spec_entry_path(self@.root, spec_strip_slash(id@), v),
                ) implies exists|k: int| 0 <= k < found@.len() && (#[trigger] found@[k])@ == v by {
                let p = spec_entry_path(self@.root, spec_strip_slash(id@), v);
                let j = choose|j: int|
                    0 <= j < self.entries@.len() && (#[trigger] self.entries@[j]).path@ == p;
                assert(p =~= prefix@ + v);
                lemma_prefix_concat(prefix@, v);
                assert(is_prefixed(self.entries@[j].path@, prefix@));
                assert(has_version(found@, prefix@, self.entries@[j].path@));
                let k = choose|k: int|
                    0 <= k < found@.len() && prefix@ + (#[trigger] found@[k])@ == self.entries@[
                    j].path@;
                lemma_prefix_concat(prefix@, found@[k]@);
                assert((prefix@ + found@[k]@).subrange(plen, p.len() as int) =~= found@[k]@);
                assert((prefix@ + v).subrange(plen, p.len() as int) =~= v);
                assert(found@[k]@ == v);
            };
            assert forall|k: int|
                0 <= k < found@.len() implies self@.entries.contains_key(
                spec_entry_path(self@.root, spec_strip_slash(id@), (#[trigger] found@[k])@),
            ) by {
                assert(has_source(
                    self.entries@,
                    self.entries@.len() as int,
                    prefix@,
                    found@[k]@,
                ));
                let j = choose|j: int|
                    0 <= j < self.entries@.len() && (#[trigger] self.entries@[j]).path@ == prefix@
                        + found@[k]@;
                assert(spec_entry_path(self@.root, spec_strip_slash(id@), found@[k]@) =~= prefix@
                    + found@[k]@);
            };
        }
        found
    }

    /// Every version token on record for `id`, sorted ascending:
    /// numerically when all tokens read as numbers, lexically otherwise.
    /// Each recorded version appears exactly once.
    #[verifier::rlimit(100)]
    pub fn list_versions(&self, id: &str) -> (r: Vec<String>)
        requires
            self.wf(),
        ensures
            forall|i: int|
                0 <= i < r@.len() ==> self@.entries.contains_key(
                    spec_entry_path(self@.root, spec_strip_slash(id@), (#[trigger] r@[i])@),
                ),
            forall|v: Seq<char>|
                self@.entries.contains_key(
                    #[trigger] spec_entry_path(self@.root, spec_strip_slash(id@), v),
                ) ==> exists|i: int| 0 <= i < r@.len() && (#[trigger] r@[i])@ == v,
            forall|i: int, j: int|
                0 <= i < j < r@.len() ==> (#[trigger] r@[i])@ != (#[trigger] r@[j])@,
            forall|i: int, j: int|
                0 <= i < j < r@.len() ==> spec_version_le(
                    spec_all_numeric(views_of(r@)),
                    (#[trigger] r@[i])@,
                    (#[trigger] r@[j])@,
                ),
    {
        let found = self.collect_versions(id);
        let ghost pre_sort = found@;
        let sorted = sort_versions(found);
        proof {
            broadcast use vstd::seq_lib::group_to_multiset_ensures;

            lemma_same_elements(views_of(sorted@), views_of(pre_sort));
            assert forall|i2: int|
                0 <= i2 < sorted@.len() implies self@.entries.contains_key(
                spec_entry_path(self@.root, spec_strip_slash(id@), (#[trigger] sorted@[i2])@),
            ) by {
                assert(views_of(sorted@)[i2] == sorted@[i2]@);
                assert(views_of(sorted@).contains(sorted@[i2]@));
                assert(views_of(pre_sort).contains(sorted@[i2]@));
                let k = choose|k: int|
                    0 <= k < views_of(pre_sort).len() && views_of(pre_sort)[k] == sorted@[i2]@;
                assert(pre_sort[k]@ == sorted@[i2]@);
            };
            assert forall|v: Seq<char>|
                self@.entries.contains_key(
                    #[trigger] spec_entry_path(self@.root, spec_strip_slash(id@), v),
                ) implies exists|i2: int| 0 <= i2 < sorted@.len() && (#[trigger] sorted@[i2])@
                == v by {
                let k = choose|k: int| 0 <= k < pre_sort.len() && (#[trigger] pre_sort[k])@ == v;
                assert(views_of(pre_sort)[k] == v);
                assert(views_of(pre_sort).contains(v));
                assert(views_of(sorted@).contains(v));
                let i2 = choose|i2: int|
                    0 <= i2 < views_of(sorted@).len() && views_of(sorted@)[i2] == v;
                assert(sorted@[i2]@ == v);
            };
            assert forall|a: int, b: int|
                0 <= a < b < sorted@.len() implies (#[trigger] sorted@[a])@ != (
            #[trigger] sorted@[b])@ by {
                if sorted@[a]@ == sorted@[b]@ {
                    lemma_dup_count(views_of(sorted@), a, b);
                    lemma_multiset_count_bound(views_of(pre_sort), sorted@[a]@);
                }
            };
            assert(spec_all_numeric(views_of(sorted@)) == spec_all_numeric(views_of(pre_sort)))
                by {
                lemma_all_numeric_multiset(views_of(sorted@), views_of(pre_sort));
            };
        }
        sorted
    }
}

/// Concatenation facts behind prefix matching.
proof fn lemma_prefix_concat(p: Seq<char>, v: Seq<char>)
    ensures
        (p + v).len() == p.len() + v.len(),
        (p + v).subrange(0, p.len() as int) =~= p,
        (p + v).subrange(p.len() as int, (p.len() + v.len()) as int) =~= v,
        is_prefixed(p + v, p),
{
}

/// Some entry among the first `n` sits under `<prefix><v>`.
spec fn has_source(entries: Seq<StoredEntry>, n: int, prefix: Seq<char>, v: Seq<char>) -> bool {
    exists|j: int| 0 <= j < n && (#[trigger] entries[j]).path@ == prefix + v
}

/// Some collected token completes `prefix` to `path`.
spec fn has_version(found: Seq<String>, prefix: Seq<char>, path: Seq<char>) -> bool {
    exists|k: int| 0 <= k < found.len() && prefix + (#[trigger] found[k])@ == path
}

/// Scans stored entries for paths of the shape `<prefix><version>` and
/// collects the version parts, in order.
#[verifier::loop_isolation(false)]
#[verifier::rlimit(100)]
fn scan_versions(entries: &Vec<StoredEntry>, prefix: &String) -> (found: Vec<String>)
    requires
        paths_distinct(entries@),
    ensures
        forall|k: int|
            0 <= k < found@.len() ==> has_source(
                entries@,
                entries@.len() as int,
                prefix@,
                (#[trigger] found@[k])@,
            ),
        forall|j: int|
            0 <= j < entries@.len() && is_prefixed(#[trigger] entries@[j].path@, prefix@)
                ==> has_version(found@, prefix@, entries@[j].path@),
        forall|a: int, b: int|
            0 <= a < b < found@.len() ==> (#[trigger] found@[a])@ != (#[trigger] found@[b])@,
{
    let plen = prefix.as_str().unicode_len();
    proof {
        assert(prefix@.subrange(0, plen as int) =~= prefix@);
    }
    let mut found: Vec<String> = Vec::new();
    let mut i: usize = 0;
    while i < entries.len()
        invariant
            plen == prefix@.len(),
            i <= entries@.len(),
            forall|k: int|
                0 <= k < found@.len() ==> has_source(
                    entries@,
                    i as int,
                    prefix@,
                    (#[trigger] found@[k])@,
                ),
            forall|j: int|
                0 <= j < i && is_prefixed(#[trigger] entries@[j].path@, prefix@) ==> has_version(
                    found@,
                    prefix@,
                    entries@[j].path@,
                ),
            forall|a: int, b: int|
                0 <= a < b < found@.len() ==> (#[trigger] found@[a])@ != (#[trigger] found@[b])@,
        decreases entries@.len() - i,
    {
        let path = &entries[i].path;
        let path_len = path.as_str().unicode_len();
        if path_len >= plen && str_prefix_eq(path.as_str(), prefix.as_str(), plen) {
            let ver = path.as_str().substring_char(plen, path_len);
            let ghost f0 = found@;
            found.push(ver.to_owned());
            proof {
                assert(prefix@ + found@[found@.len() - 1]@ =~= entries@[i as int].path@);
                assert(is_prefixed(entries@[i as int].path@, prefix@));
                assert forall|k: int|
                    0 <= k < found@.len() implies has_source(
                    entries@,
                    i + 1,
                    prefix@,
                    (#[trigger] found@[k])@,
                ) by {
                    if k < f0.len() {
                        assert(found@[k] == f0[k]);
                        assert(has_source(entries@, i as int, prefix@, f0[k]@));
                        let j = choose|j: int|
                            0 <= j < i && (#[trigger] entries@[j]).path@ == prefix@ + f0[k]@;
                        assert(0 <= j < i + 1 && entries@[j].path@ == prefix@ + found@[k]@);
                    } else {
                        assert(entries@[i as int].path@ == prefix@ + found@[k]@);
                    }
                };
                assert forall|j: int|
                    0 <= j < i + 1 && is_prefixed(#[trigger] entries@[j].path@, prefix@)
                        implies has_version(found@, prefix@, entries@[j].path@) by {
                    if j == i as int {
                        let k = found@.len() - 1;
                        assert(prefix@ + (found@[k])@ == entries@[j].path@);
                    } else {
                        assert(has_version(f0, prefix@, entries@[j].path@));
                        let k = choose|k: int|
                            0 <= k < f0.len() && prefix@ + (#[trigger] f0[k])@ == entries@[
                            j].path@;
                        assert(found@[k] == f0[k]);
                        assert(prefix@ + (found@[k])@ == entries@[j].path@);
                    }
                };
                assert forall|a: int, b: int|
                    0 <= a < b < found@.len() implies (#[trigger] found@[a])@ != (
                #[trigger] found@[b])@ by {
                    if b == found@.len() - 1 {
                        assert(has_source(entries@, i as int, prefix@, f0[a]@));
                        let j = choose|j: int|
                            0 <= j < i && (#[trigger] entries@[j]).path@ == prefix@ + f0[a]@;
                        if found@[a]@ == found@[b]@ {
                            assert(entries@[j].path@ == entries@[i as int].path@);
                        }
                    }
                };
            }
        } else {
            proof {
                if is_prefixed(entries@[i as int].path@, prefix@) {
                    let v = entries@[i as int].path@.subrange(
                        plen as int,
                        entries@[i as int].path@.len() as int,
                    );
                    assert(prefix@ + v =~= entries@[i as int].path@);
                    assert(entries@[i as int].path@.subrange(0, plen as int) =~= prefix@);
                    assert(false);
                }
            }
        }
        i = i + 1;
    }
    found
}

/// Round trip: creating an entry and releasing its handle, then
/// retrieving the same (id, version), hands back exactly the header and
/// content that were written.
pub proof fn lemma_create_retrieve_round_trip(
    m: StoreModel,
    id: Seq<char>,
    version: Seq<char>,
    header: SpecValue,
    content: Seq<u8>,
)
    requires
        model_inv(m),
        spec_create(m, id, version, header, content).1 is Ok,
    ensures
        ({
            let created = spec_create(m, id, version, header, content);
            let released = spec_release(created.0, created.1->Ok_0.path);
            let retrieved = spec_retrieve(released, id, Some(version));
            &&& retrieved.1 is Ok
            &&& retrieved.1->Ok_0.header == header
            &&& retrieved.1->Ok_0.content == content
            &&& retrieved.1->Ok_0.id == spec_strip_slash(id)
            &&& retrieved.1->Ok_0.version == version
        }),
{
    let sid = spec_strip_slash(id);
    let p = spec_entry_path(m.root, sid, version);
    let created = spec_create(m, id, version, header, content);
    let released = spec_release(created.0, p);
    assert(!released.locks.contains(p));
    assert(released.entries.contains_key(p));
    assert(released.entries[p] == EntryModel { header, content });
}

/// No implicit creation: with it switched off, retrieving a resolvable
/// but absent (id, version) always fails `NotFound` and the store is
/// left exactly as it was — nothing is created.
pub proof fn lemma_no_implicit_creation(m: StoreModel, id: Seq<char>, version: Option<Seq<char>>)
    requires
        model_inv(m),
        !m.implicit_create,
        spec_resolve_parts(id, version) is Some,
        !m.entries.contains_key(
            spec_entry_path(
                m.root,
                spec_resolve_parts(id, version).unwrap().0,
                spec_resolve_parts(id, version).unwrap().1,
            ),
        ),
    ensures
        spec_retrieve(m, id, version).1 == Err::<HandleModel, SpecFault>(SpecFault::NotFound),
        spec_retrieve(m, id, version).0 == m,
{
    let parts = spec_resolve_parts(id, version).unwrap();
    let p = spec_entry_path(m.root, parts.0, parts.1);
    assert(!m.locks.contains(p));
}

/// Implicit creation: with it switched on, retrieving a resolvable but
/// absent (id, version) succeeds and hands back an empty entry, which is
/// persisted empty.
pub proof fn lemma_implicit_creation(m: StoreModel, id: Seq<char>, version: Option<Seq<char>>)
    requires
        model_inv(m),
        m.implicit_create,
        spec_resolve_parts(id, version) is Some,
        !m.entries.contains_key(
            spec_entry_path(
                m.root,
                spec_resolve_parts(id, version).unwrap().0,
                spec_resolve_parts(id, version).unwrap().1,
            ),
        ),
    ensures
        spec_retrieve(m, id, version).1 is Ok,
        spec_retrieve(m, id, version).1->Ok_0.header == spec_empty_header(),
        spec_retrieve(m, id, version).1->Ok_0.content == Seq::<u8>::empty(),
        spec_retrieve(m, id, version).0.entries.contains_key(
            spec_retrieve(m, id, version).1->Ok_0.path,
        ),
{
    let parts = spec_resolve_parts(id, version).unwrap();
    let p = spec_entry_path(m.root, parts.0, parts.1);
    assert(!m.locks.contains(p));
}

/// Lock exclusivity: while a handle from a successful `retrieve` is
/// live, a second `retrieve` of the same (id, version) always fails
/// `LockConflict` and changes nothing; once the handle is released, the
/// pair can be acquired again.
pub proof fn lemma_lock_exclusivity(m: StoreModel, id: Seq<char>, version: Option<Seq<char>>)
    requires
        model_inv(m),
        spec_retrieve(m, id, version).1 is Ok,
    ensures
        ({
            let first = spec_retrieve(m, id, version);
            let handle = first.1->Ok_0;
            &&& spec_retrieve(first.0, id, version).1 == Err::<HandleModel, SpecFault>(
                SpecFault::LockConflict,
            )
            &&& spec_retrieve(first.0, id, version).0 == first.0
            &&& spec_retrieve(spec_release(first.0, handle.path), id, version).1 is Ok
        }),
{
    let parts = spec_resolve_parts(id, version).unwrap();
    let p = spec_entry_path(m.root, parts.0, parts.1);
    let first = spec_retrieve(m, id, version);
    assert(first.0.locks.contains(p));
    let released = spec_release(first.0, p);
    assert(!released.locks.contains(p));
    assert(released.entries.contains_key(p));
}

/// Delete of a missing pair: it fails `NotFound` and the store — every
/// entry and every lock — is left exactly as it was.
pub proof fn lemma_delete_missing(m: StoreModel, id: Seq<char>, version: Seq<char>)
    requires
        !m.entries.contains_key(spec_entry_path(m.root, spec_strip_slash(id), version)),
    ensures
        spec_delete(m, id, version).1 == Err::<(), SpecFault>(SpecFault::NotFound),
        spec_delete(m, id, version).0 == m,
{
}

/// Delete of a present pair: only that entry goes away; every other
/// entry keeps exactly the payload it had, and the locks are untouched.
pub proof fn lemma_delete_preserves_others(m: StoreModel, id: Seq<char>, version: Seq<char>)
    requires
        spec_delete(m, id, version).1 is Ok,
    ensures
        ({
            let p = spec_entry_path(m.root, spec_strip_slash(id), version);
            let after = spec_delete(m, id, version).0;
            &&& !after.entries.contains_key(p)
            &&& forall|q: Seq<char>|
                q != p ==> after.entries.contains_key(q) == m.entries.contains_key(q)
            &&& forall|q: Seq<char>|
                q != p && m.entries.contains_key(q) ==> after.entries[q] == m.entries[q]
            &&& after.locks == m.locks
        }),
{
}

/// Two sequences with one multiset hold the same values.
proof fn lemma_same_elements(a: Seq<Seq<char>>, b: Seq<Seq<char>>)
    requires
        a.to_multiset() == b.to_multiset(),
    ensures
        forall|v: Seq<char>| a.contains(v) <==> b.contains(v),
{
    broadcast use vstd::seq_lib::group_to_multiset_ensures;

    assert forall|v: Seq<char>| a.contains(v) <==> b.contains(v) by {
        assert(a.contains(v) <==> a.to_multiset().count(v) > 0);
        assert(b.contains(v) <==> b.to_multiset().count(v) > 0);
    };
}

/// `long` begins with `short`.
pub open spec fn is_prefixed(long: Seq<char>, short: Seq<char>) -> bool {
    long.len() >= short.len() && long.subrange(0, short.len() as int) == short
}

/// Compares the first `n` characters of `a` against the first `n` of `b`.
#[verifier::loop_isolation(false)]
fn str_prefix_eq(a: &str, b: &str, n: usize) -> (r: bool)
    requires
        n <= a@.len(),
        n <= b@.len(),
    ensures
        r == (a@.subrange(0, n as int) == b@.subrange(0, n as int)),
{
    let mut i: usize = 0;
    while i < n
        invariant
            i <= n,
            forall|j: int| 0 <= j < i ==> a@[j] == b@[j],
        decreases n - i,
    {
        if a.get_char(i) != b.get_char(i) {
            proof {
                assert(a@.subrange(0, n as int)[i as int] != b@.subrange(0, n as int)[i as int]);
            }
            return false;
        }
        i = i + 1;
    }
    proof {
        assert(a@.subrange(0, n as int) =~= b@.subrange(0, n as int));
    }
    true
}

/// Builds `<root>/<id>~` with the id stripped of one leading separator.
fn build_prefix(root: &str, id: &str) -> (r: String)
    ensures
        r@ == spec_entry_path(root@, spec_strip_slash(id@), Seq::empty()),
{
    let empty = String::new();
    match resolve(root, id, Some(empty.as_str())) {
        Ok(loc) => {
            proof {
                assert(loc.path@ =~= spec_entry_path(root@, spec_strip_slash(id@), Seq::empty()));
            }
            loc.path
        },
        Err(_) => {
            // resolution with an explicit version cannot fail
            proof {
                assert(false);
            }
            String::new()
        },
    }
}

/// Two sequences with the same multiset are numeric together.
proof fn lemma_all_numeric_multiset(a: Seq<Seq<char>>, b: Seq<Seq<char>>)
    requires
        a.to_multiset() == b.to_multiset(),
    ensures
        spec_all_numeric(a) == spec_all_numeric(b),
{
    broadcast use vstd::seq_lib::group_to_multiset_ensures;

    if spec_all_numeric(a) && !spec_all_numeric(b) {
        let i = choose|i: int|
            0 <= i < b.len() && !crate::versions::spec_is_numeric(#[trigger] b[i]);
        assert(b.to_multiset().contains(b[i]));
        assert(a.to_multiset().contains(b[i]));
        assert(a.contains(b[i]));
    }
    if !spec_all_numeric(a) && spec_all_numeric(b) {
        let i = choose|i: int|
            0 <= i < a.len() && !crate::versions::spec_is_numeric(#[trigger] a[i]);
        assert(a.to_multiset().contains(a[i]));
        assert(b.to_multiset().contains(a[i]));
        assert(b.contains(a[i]));
    }
}

/// A value sitting at two indices counts at least twice.
proof fn lemma_dup_count(s: Seq<Seq<char>>, a: int, b: int)
    requires
        0 <= a < b < s.len(),
        s[a] == s[b],
    ensures
        s.to_multiset().count(s[a]) >= 2,
{
    broadcast use vstd::seq_lib::group_to_multiset_ensures;

    let s1 = s.remove(b);
    assert(s1.to_multiset() =~= s.to_multiset().remove(s[b]));
    assert(s1[a] == s[a]);
    assert(s1.contains(s[a]));
    assert(s1.to_multiset().count(s[a]) > 0);
    assert(s.to_multiset().count(s[a]) == s1.to_multiset().count(s[a]) + 1);
}

/// In a duplicate-free sequence every value counts at most once.
proof fn lemma_multiset_count_bound(s: Seq<Seq<char>>, v: Seq<char>)
    requires
        forall|a: int, b: int| 0 <= a < b < s.len() ==> s[a] != s[b],
    ensures
        s.to_multiset().count(v) <= 1,
    decreases s.len(),
{
    broadcast use vstd::seq_lib::group_to_multiset_ensures;

    if s.len() == 0 {
        assert(!s.contains(v));
        assert(s.to_multiset().count(v) == 0);
    } else {
        let s1 = s.drop_last();
        assert(s1 =~= s.remove(s.len() - 1));
        assert(s1.to_multiset() =~= s.to_multiset().remove(s.last()));
        lemma_multiset_count_bound(s1, v);
        if v == s.last() {
            assert(!s1.contains(v));
            assert(s1.to_multiset().count(v) == 0);
            assert(s.to_multiset().count(v) == 1);
        } else {
            assert(s.to_multiset().count(v) == s1.to_multiset().count(v));
        }
    }
}

/// Copies raw content bytes.
fn clone_bytes(v: &Vec<u8>) -> (r: Vec<u8>)
    ensures
        r@ == v@,
{
    let mut out: Vec<u8> = Vec::new();
    let mut i: usize = 0;
    while i < v.len()
        invariant
            i <= v@.len(),
            out@ =~= v@.subrange(0, i as int),
        decreases v@.len() - i,
    {
        out.push(v[i]);
        proof {
            assert(out@ =~= v@.subrange(0, i + 1));
        }
        i = i + 1;
    }
    proof {
        assert(out@ =~= v@);
    }
    out
}

/// Copies one string.
fn clone_string_s(s: &String) -> (r: String)
    ensures
        r@ == s@,
{
    s.clone()
}

} // verus!
