//! Data model and keyspace: stored values, expiry deadlines, databases as
//! association lists with unique keys, and the file-level container that
//! also carries the RDB header data.

use vstd::prelude::*;
use vstd::slice::slice_to_vec;

verus! {

/// Directory and file name that locate the RDB file on disk, as raw
/// bytes so that responses can carry them verbatim.
#[derive(Debug, PartialEq, Eq)]
pub struct Dbconf {
    pub dir: Vec<u8>,
    pub db_filename: Vec<u8>,
}

impl Dbconf {
    pub fn new() -> (r: Dbconf)
        ensures
            r.dir@ == Seq::<u8>::empty(),
            r.db_filename@ == Seq::<u8>::empty(),
    {
        Dbconf { dir: Vec::new(), db_filename: Vec::new() }
    }

    pub fn set(&mut self, dir: Vec<u8>, db_filename: Vec<u8>)
        ensures
            final(self).dir@ == dir@,
            final(self).db_filename@ == db_filename@,
    {
        self.dir = dir;
        self.db_filename = db_filename;
    }

    pub fn get_dir(&self) -> (r: Vec<u8>)
        ensures
            r@ == self.dir@,
    {
        clone_bytes(&self.dir)
    }

    pub fn get_db_filename(&self) -> (r: Vec<u8>)
        ensures
            r@ == self.db_filename@,
    {
        clone_bytes(&self.db_filename)
    }
}

/// Version written into freshly created RDB files.
pub const RDB_VERSION: u32 = 9;

/// The database index commands operate on.
pub const DB_NUM: u64 = 0;

/// Value-type tags of the RDB format.
#[allow(non_camel_case_types)]
#[derive(Debug, Clone, Copy, PartialEq, Eq, Structural)]
pub enum RDB_V_Type {
    Str,
    List,
    Hash,
    SetVal,
    SortedSet,
    Zipmap,
    Ziplist,
    SetInts,
    SortedSetZipmap,
    HashZiplist,
    ListQuicklist,
    Module,
    Module2,
    StreamListPacks,
}

impl RDB_V_Type {
    /// The tag for a supported value-type byte: 0 string, 1 list, 2 hash,
    /// 3 set, 4 sorted set. Other bytes are unsupported.
    pub fn from_byte(b: u8) -> (r: Option<RDB_V_Type>)
        ensures
            r == spec_type_of_byte(b),
    {
        if b == 0 {
            Some(RDB_V_Type::Str)
        } else if b == 1 {
            Some(RDB_V_Type::List)
        } else if b == 2 {
            Some(RDB_V_Type::Hash)
        } else if b == 3 {
            Some(RDB_V_Type::SetVal)
        } else if b == 4 {
            Some(RDB_V_Type::SortedSet)
        } else {
            None
        }
    }
}

pub open spec fn spec_type_of_byte(b: u8) -> Option<RDB_V_Type> {
    if b == 0 {
        Some(RDB_V_Type::Str)
    } else if b == 1 {
        Some(RDB_V_Type::List)
    } else if b == 2 {
        Some(RDB_V_Type::Hash)
    } else if b == 3 {
        Some(RDB_V_Type::SetVal)
    } else if b == 4 {
        Some(RDB_V_Type::SortedSet)
    } else {
        None
    }
}

/// Absolute expiry deadline: unix seconds or unix milliseconds.
#[derive(Debug, Clone, Copy, PartialEq, Eq, Structural)]
pub enum Expiry {
    Seconds(u32),
    Milliseconds(u64),
}

impl Expiry {
    /// A deadline has passed once the current time reaches it.
    pub open spec fn spec_expired_at(self, now_ms: u64) -> bool {
        match self {
            Expiry::Seconds(t) => now_ms / 1000 >= t as u64,
            Expiry::Milliseconds(t) => now_ms >= t,
        }
    }

    pub fn expired_at(&self, now_ms: u64) -> (r: bool)
        ensures
            r == self.spec_expired_at(now_ms),
    {
        match self {
            Expiry::Seconds(t) => now_ms / 1000 >= (*t as u64),
            Expiry::Milliseconds(t) => now_ms >= *t,
        }
    }
}

/// A sorted-set score: the special RDB markers, or a finite double held as
/// its IEEE-754 bit pattern.
#[derive(Debug, Clone, Copy, PartialEq, Eq, Structural)]
pub enum Score {
    PosInf,
    NegInf,
    NotANum,
    Finite(u64),
}

/// A stored value. Only `Str` takes part in commands; the other shapes
/// exist so that foreign RDB files load and save.
#[derive(Debug, PartialEq, Eq)]
pub enum RedisValue {
    Str(Vec<u8>),
    List(Vec<Vec<u8>>),
    SetVal(Vec<Vec<u8>>),
    SortedSet(Vec<(Vec<u8>, Score)>),
    Hash(Vec<(Vec<u8>, Vec<u8>)>),
}

/// Mathematical image of a stored value.
pub enum ValueData {
    Str(Seq<u8>),
    List(Seq<Seq<u8>>),
    SetVal(Seq<Seq<u8>>),
    SortedSet(Seq<(Seq<u8>, Score)>),
    Hash(Seq<(Seq<u8>, Seq<u8>)>),
}

impl RedisValue {
    pub open spec fn dv(self) -> ValueData {
        match self {
            RedisValue::Str(s) => ValueData::Str(s@),
            RedisValue::List(items) => ValueData::List(items@.map_values(|v: Vec<u8>| v@)),
            RedisValue::SetVal(items) => ValueData::SetVal(items@.map_values(|v: Vec<u8>| v@)),
            RedisValue::SortedSet(items) => ValueData::SortedSet(
                items@.map_values(|e: (Vec<u8>, Score)| (e.0@, e.1)),
            ),
            RedisValue::Hash(items) => ValueData::Hash(
                items@.map_values(|e: (Vec<u8>, Vec<u8>)| (e.0@, e.1@)),
            ),
        }
    }

    /// A copy with the same mathematical value.
    pub fn duplicate(&self) -> (r: RedisValue)
        ensures
            r.dv() == self.dv(),
    {
        match self {
            RedisValue::Str(s) => RedisValue::Str(clone_bytes(s)),
            RedisValue::List(items) => RedisValue::List(clone_byte_list(items)),
            RedisValue::SetVal(items) => RedisValue::SetVal(clone_byte_list(items)),
            RedisValue::SortedSet(items) => RedisValue::SortedSet(clone_scored_list(items)),
            RedisValue::Hash(items) => RedisValue::Hash(clone_pair_list(items)),
        }
    }
}

pub fn clone_bytes(v: &Vec<u8>) -> (r: Vec<u8>)
    ensures
        r@ == v@,
{
    slice_to_vec(v.as_slice())
}

fn clone_byte_list(v: &Vec<Vec<u8>>) -> (r: Vec<Vec<u8>>)
    ensures
        r@.map_values(|x: Vec<u8>| x@) == v@.map_values(|x: Vec<u8>| x@),
{
    let mut out: Vec<Vec<u8>> = Vec::new();
    let mut i: usize = 0;
    while i < v.len()
        invariant
            i <= v@.len(),
            out@.len() == i,
            forall|j: int| 0 <= j < i ==> (#[trigger] out@[j])@ == v@[j]@,
        decreases v@.len() - i,
    {
        out.push(clone_bytes(&v[i]));
        i = i + 1;
    }
    assert(out@.map_values(|x: Vec<u8>| x@) =~= v@.map_values(|x: Vec<u8>| x@));
    out
}

fn clone_scored_list(v: &Vec<(Vec<u8>, Score)>) -> (r: Vec<(Vec<u8>, Score)>)
    ensures
        r@.map_values(|e: (Vec<u8>, Score)| (e.0@, e.1)) == v@.map_values(
            |e: (Vec<u8>, Score)| (e.0@, e.1),
        ),
{
    let mut out: Vec<(Vec<u8>, Score)> = Vec::new();
    let mut i: usize = 0;
    while i < v.len()
        invariant
            i <= v@.len(),
            out@.len() == i,
            forall|j: int| 0 <= j < i ==> (#[trigger] out@[j]).0@ == v@[j].0@ && out@[j].1
                == v@[j].1,
        decreases v@.len() - i,
    {
        let item = (clone_bytes(&v[i].0), v[i].1);
        out.push(item);
        i = i + 1;
    }
    assert(out@.map_values(|e: (Vec<u8>, Score)| (e.0@, e.1)) =~= v@.map_values(
        |e: (Vec<u8>, Score)| (e.0@, e.1),
    ));
    out
}

fn clone_pair_list(v: &Vec<(Vec<u8>, Vec<u8>)>) -> (r: Vec<(Vec<u8>, Vec<u8>)>)
    ensures
        r@.map_values(|e: (Vec<u8>, Vec<u8>)| (e.0@, e.1@)) == v@.map_values(
            |e: (Vec<u8>, Vec<u8>)| (e.0@, e.1@),
        ),
{
    let mut out: Vec<(Vec<u8>, Vec<u8>)> = Vec::new();
    let mut i: usize = 0;
    while i < v.len()
        invariant
            i <= v@.len(),
            out@.len() == i,
            forall|j: int| 0 <= j < i ==> (#[trigger] out@[j]).0@ == v@[j].0@ && out@[j].1@
                == v@[j].1@,
        decreases v@.len() - i,
    {
        let item = (clone_bytes(&v[i].0), clone_bytes(&v[i].1));
        out.push(item);
        i = i + 1;
    }
    assert(out@.map_values(|e: (Vec<u8>, Vec<u8>)| (e.0@, e.1@)) =~= v@.map_values(
        |e: (Vec<u8>, Vec<u8>)| (e.0@, e.1@),
    ));
    out
}

/// A stored value together with its optional expiry deadline.
#[derive(Debug, PartialEq, Eq)]
pub struct KeyValue {
    pub value: RedisValue,
    pub expiry: Option<Expiry>,
}

/// Mathematical image of a stored entry.
pub struct KeyValueData {
    pub value: ValueData,
    pub expiry: Option<Expiry>,
}

impl KeyValue {
    pub open spec fn dv(self) -> KeyValueData {
        KeyValueData { value: self.value.dv(), expiry: self.expiry }
    }

    pub fn duplicate(&self) -> (r: KeyValue)
        ensures
            r.dv() == self.dv(),
    {
        KeyValue { value: self.value.duplicate(), expiry: self.expiry }
    }
}

/// The map denoted by an association list: later entries win, though the
/// well-formedness below keeps keys unique.
pub open spec fn assoc_map<K, V>(s: Seq<(K, V)>) -> Map<K, V>
    decreases s.len(),
{
    if s.len() == 0 {
        Map::empty()
    } else {
        assoc_map(s.drop_last()).insert(s.last().0, s.last().1)
    }
}

/// No key occurs twice.
pub open spec fn assoc_wf<K, V>(s: Seq<(K, V)>) -> bool {
    forall|i: int, j: int| 0 <= i < j < s.len() ==> (#[trigger] s[i]).0 != (#[trigger] s[j]).0
}

pub proof fn lemma_assoc_contains<K, V>(s: Seq<(K, V)>, k: K)
    ensures
        assoc_map(s).contains_key(k) <==> exists|i: int| 0 <= i < s.len() && (#[trigger] s[i]).0
            == k,
    decreases s.len(),
{
    if s.len() > 0 {
        lemma_assoc_contains(s.drop_last(), k);
        if s.last().0 == k {
            assert(s[s.len() - 1].0 == k);
        } else {
            if assoc_map(s).contains_key(k) {
                let i = choose|i: int| 0 <= i < s.drop_last().len() && (#[trigger] s.drop_last()[
                    i
                ]).0 == k;
                assert(s[i].0 == k);
            }
            if exists|i: int| 0 <= i < s.len() && (#[trigger] s[i]).0 == k {
                let i = choose|i: int| 0 <= i < s.len() && (#[trigger] s[i]).0 == k;
                assert(i < s.len() - 1);
                assert(s.drop_last()[i].0 == k);
            }
        }
    }
}

pub proof fn lemma_assoc_get<K, V>(s: Seq<(K, V)>, i: int)
    requires
        assoc_wf(s),
        0 <= i < s.len(),
    ensures
        assoc_map(s).contains_key(s[i].0),
        assoc_map(s)[s[i].0] == s[i].1,
    decreases s.len(),
{
    if i == s.len() - 1 {
    } else {
        assert(assoc_wf(s.drop_last()));
        assert(s.drop_last()[i] == s[i]);
        lemma_assoc_get(s.drop_last(), i);
        assert(s[i].0 != s.last().0);
    }
}

pub proof fn lemma_assoc_update<K, V>(s: Seq<(K, V)>, i: int, v: V)
    requires
        assoc_wf(s),
        0 <= i < s.len(),
    ensures
        assoc_map(s.update(i, (s[i].0, v))) == assoc_map(s).insert(s[i].0, v),
        assoc_wf(s.update(i, (s[i].0, v))),
    decreases s.len(),
{
    let t = s.update(i, (s[i].0, v));
    assert forall|a: int, b: int| 0 <= a < b < t.len() implies (#[trigger] t[a]).0
        != (#[trigger] t[b]).0 by {
        assert(t[a].0 == s[a].0 && t[b].0 == s[b].0);
    }
    if i == s.len() - 1 {
        assert(t.drop_last() =~= s.drop_last());
        assert(t.last() == (s[i].0, v));
        assert(assoc_map(t) =~= assoc_map(s).insert(s[i].0, v));
    } else {
        assert(assoc_wf(s.drop_last()));
        assert(s.drop_last()[i] == s[i]);
        lemma_assoc_update(s.drop_last(), i, v);
        assert(t.drop_last() =~= s.drop_last().update(i, (s[i].0, v)));
        assert(t.last() == s.last());
        assert(s[i].0 != s.last().0);
        assert(assoc_map(t) =~= assoc_map(s).insert(s[i].0, v));
    }
}

pub proof fn lemma_assoc_remove<K, V>(s: Seq<(K, V)>, i: int)
    requires
        assoc_wf(s),
        0 <= i < s.len(),
    ensures
        assoc_map(s.remove(i)) == assoc_map(s).remove(s[i].0),
        assoc_wf(s.remove(i)),
    decreases s.len(),
{
    let t = s.remove(i);
    assert forall|a: int, b: int| 0 <= a < b < t.len() implies (#[trigger] t[a]).0
        != (#[trigger] t[b]).0 by {
        let a0: int = if a < i { a } else { a + 1 };
        let b0: int = if b < i { b } else { b + 1 };
        assert(t[a] == s[a0] && t[b] == s[b0]);
    }
    if i == s.len() - 1 {
        assert(t =~= s.drop_last());
        lemma_assoc_contains(s.drop_last(), s[i].0);
        assert forall|j: int| 0 <= j < s.drop_last().len() implies (#[trigger] s.drop_last()[
            j
        ]).0 != s[i].0 by {
            assert(s[j] == s.drop_last()[j]);
        }
        assert(!assoc_map(s.drop_last()).contains_key(s[i].0));
        assert(assoc_map(t) =~= assoc_map(s).remove(s[i].0));
    } else {
        assert(assoc_wf(s.drop_last()));
        assert(s.drop_last()[i] == s[i]);
        lemma_assoc_remove(s.drop_last(), i);
        assert(t.drop_last() =~= s.drop_last().remove(i));
        assert(t.last() == s.last());
        assert(s[i].0 != s.last().0);
        assert(assoc_map(t) =~= assoc_map(s).remove(s[i].0));
    }
}

/// True when the two byte strings are equal.
pub fn bytes_eq(a: &[u8], b: &[u8]) -> (r: bool)
    ensures
        r == (a@ == b@),
{
    if a.len() != b.len() {
        assert(a@ != b@) by {
            assert(a@.len() != b@.len());
        }
        return false;
    }
    let mut i: usize = 0;
    while i < a.len()
        invariant
            a@.len() == b@.len(),
            i <= a@.len(),
            forall|j: int| 0 <= j < i ==> a@[j] == b@[j],
        decreases a@.len() - i,
    {
        if a[i] != b[i] {
            return false;
        }
        i = i + 1;
    }
    assert(a@ =~= b@);
    true
}

/// One database: an association list from key to stored entry, keys
/// unique.
#[derive(Debug, PartialEq, Eq)]
pub struct Database {
    pub entries: Vec<(Vec<u8>, KeyValue)>,
}

impl Database {
    /// Entries as mathematical pairs, in storage order.
    pub open spec fn entry_seq(self) -> Seq<(Seq<u8>, KeyValueData)> {
        self.entries@.map_values(|e: (Vec<u8>, KeyValue)| (e.0@, e.1.dv()))
    }

    /// The map this database denotes.
    pub open spec fn as_map(self) -> Map<Seq<u8>, KeyValueData> {
        assoc_map(self.entry_seq())
    }

    pub open spec fn wf(self) -> bool {
        assoc_wf(self.entry_seq())
    }

    pub fn new() -> (r: Database)
        ensures
            r.entry_seq() == Seq::<(Seq<u8>, KeyValueData)>::empty(),
            r.wf(),
    {
        let r = Database { entries: Vec::new() };
        assert(r.entry_seq() =~= Seq::<(Seq<u8>, KeyValueData)>::empty());
        r
    }

    /// Index of `key` among the entries, when present.
    fn find(&self, key: &[u8]) -> (r: Option<usize>)
        ensures
            match r {
                Some(i) => i < self.entries@.len() && self.entry_seq()[i as int].0 == key@,
                None => forall|i: int|
                    0 <= i < self.entry_seq().len() ==> (#[trigger] self.entry_seq()[i]).0
                        != key@,
            },
    {
        let mut i: usize = 0;
        while i < self.entries.len()
            invariant
                i <= self.entries@.len(),
                forall|j: int|
                    0 <= j < i ==> (#[trigger] self.entry_seq()[j]).0 != key@,
            decreases self.entries@.len() - i,
        {
            if bytes_eq(self.entries[i].0.as_slice(), key) {
                return Some(i);
            }
            assert(self.entry_seq()[i as int].0 != key@);
            i = i + 1;
        }
        None
    }

    /// The stored entry under `key`, if any.
    pub fn get(&self, key: &[u8]) -> (r: Option<KeyValue>)
        requires
            self.wf(),
        ensures
            match r {
                Some(kv) => self.as_map().contains_key(key@) && kv.dv() == self.as_map()[key@],
                None => !self.as_map().contains_key(key@),
            },
    {
        proof {
            lemma_assoc_contains(self.entry_seq(), key@);
        }
        match self.find(key) {
            Some(i) => {
                proof {
                    lemma_assoc_get(self.entry_seq(), i as int);
                }
                Some(self.entries[i].1.duplicate())
            },
            None => None,
        }
    }

    /// Inserts or replaces the entry under `key`.
    pub fn set(&mut self, key: Vec<u8>, kv: KeyValue)
        requires
            old(self).wf(),
        ensures
            final(self).wf(),
            final(self).as_map() == old(self).as_map().insert(key@, kv.dv()),
    {
        let ghost s0 = self.entry_seq();
        match self.find(key.as_slice()) {
            Some(i) => {
                proof {
                    lemma_assoc_update(s0, i as int, kv.dv());
                }
                self.entries.set(i, (key, kv));
                assert(final(self).entry_seq() =~= s0.update(i as int, (s0[i as int].0, kv.dv())));
            },
            None => {
                self.entries.push((key, kv));
                assert(final(self).entry_seq() =~= s0.push((key@, kv.dv())));
                assert(final(self).entry_seq().drop_last() =~= s0);
                assert forall|a: int, b: int| 0 <= a < b < final(self).entry_seq().len() implies (
                #[trigger] final(self).entry_seq()[a]).0 != (#[trigger] final(self).entry_seq()[
                    b
                ]).0 by {
                    if b == final(self).entry_seq().len() - 1 {
                        assert(final(self).entry_seq()[a] == s0[a]);
                    } else {
                        assert(final(self).entry_seq()[a] == s0[a]);
                        assert(final(self).entry_seq()[b] == s0[b]);
                    }
                }
            },
        }
    }

    /// Removes the entry under `key`; reports whether one was there.
    pub fn remove(&mut self, key: &[u8]) -> (r: bool)
        requires
            old(self).wf(),
        ensures
            final(self).wf(),
            r == old(self).as_map().contains_key(key@),
            final(self).as_map() == old(self).as_map().remove(key@),
            final(self).entry_seq().len() == old(self).entry_seq().len() - (if old(
                self,
            ).as_map().contains_key(key@) {
                1int
            } else {
                0int
            }),
    {
        let ghost s0 = self.entry_seq();
        proof {
            lemma_assoc_contains(s0, key@);
        }
        match self.find(key) {
            Some(i) => {
                proof {
                    lemma_assoc_remove(s0, i as int);
                }
                self.entries.remove(i);
                assert(final(self).entry_seq() =~= s0.remove(i as int));
                true
            },
            None => {
                assert(self.as_map() =~= self.as_map().remove(key@));
                false
            },
        }
    }

    /// The keys, in storage order.
    pub fn key_list(&self) -> (r: Vec<Vec<u8>>)
        ensures
            r@.len() == self.entry_seq().len(),
            forall|i: int|
                0 <= i < r@.len() ==> r@[i]@ == (#[trigger] self.entry_seq()[i]).0,
    {
        let mut out: Vec<Vec<u8>> = Vec::new();
        let mut i: usize = 0;
        while i < self.entries.len()
            invariant
                i <= self.entries@.len(),
                out@.len() == i,
                forall|j: int|
                    0 <= j < i ==> out@[j]@ == (#[trigger] self.entry_seq()[j]).0,
            decreases self.entries@.len() - i,
        {
            out.push(clone_bytes(&self.entries[i].0));
            i = i + 1;
        }
        out
    }

    pub fn len(&self) -> (r: usize)
        ensures
            r == self.entry_seq().len(),
    {
        self.entries.len()
    }
}


/// The whole store: format version, auxiliary header fields, and the
/// databases keyed by index.
#[derive(Debug, PartialEq, Eq)]
pub struct RdbFile {
    pub version: u32,
    pub aux_fields: Vec<(Vec<u8>, Vec<u8>)>,
    pub databases: Vec<(u64, Database)>,
}

impl RdbFile {
    /// Auxiliary fields as mathematical pairs, in storage order.
    pub open spec fn aux_seq(self) -> Seq<(Seq<u8>, Seq<u8>)> {
        self.aux_fields@.map_values(|e: (Vec<u8>, Vec<u8>)| (e.0@, e.1@))
    }

    /// The databases as a map from index to database.
    pub open spec fn dbs(self) -> Map<u64, Database> {
        assoc_map(self.databases@)
    }

    /// The map a database index denotes: its entries when the database
    /// exists, empty otherwise.
    pub open spec fn contents(self, db: u64) -> Map<Seq<u8>, KeyValueData> {
        if self.dbs().contains_key(db) {
            self.dbs()[db].as_map()
        } else {
            Map::empty()
        }
    }

    pub open spec fn wf(self) -> bool {
        &&& assoc_wf(self.databases@)
        &&& forall|i: int|
            0 <= i < self.databases@.len() ==> (#[trigger] self.databases@[i]).1.wf()
        &&& assoc_wf(self.aux_seq())
    }

    /// An empty store carrying the given format version.
    pub fn new(version: u32) -> (r: RdbFile)
        ensures
            r.version == version,
            r.aux_seq() == Seq::<(Seq<u8>, Seq<u8>)>::empty(),
            r.databases@ == Seq::<(u64, Database)>::empty(),
            r.wf(),
    {
        let r = RdbFile { version, aux_fields: Vec::new(), databases: Vec::new() };
        proof {
            assert(r.aux_seq() =~= Seq::<(Seq<u8>, Seq<u8>)>::empty());
        }
        r
    }

    /// Index of the database `db` among `databases`, when present.
    fn find_db(&self, db: u64) -> (r: Option<usize>)
        ensures
            match r {
                Some(i) => i < self.databases@.len() && self.databases@[i as int].0 == db,
                None => forall|i: int|
                    0 <= i < self.databases@.len() ==> (#[trigger] self.databases@[i]).0 != db,
            },
    {
        let mut i: usize = 0;
        while i < self.databases.len()
            invariant
                i <= self.databases@.len(),
                forall|j: int| 0 <= j < i ==> (#[trigger] self.databases@[j]).0 != db,
            decreases self.databases@.len() - i,
        {
            if self.databases[i].0 == db {
                return Some(i);
            }
            i = i + 1;
        }
        None
    }

    /// Inserts or replaces an auxiliary header field.
    pub fn set_aux(&mut self, key: Vec<u8>, value: Vec<u8>)
        requires
            old(self).wf(),
        ensures
            final(self).wf(),
            assoc_map(final(self).aux_seq()) == assoc_map(old(self).aux_seq()).insert(key@, value@),
            final(self).version == old(self).version,
            final(self).databases@ == old(self).databases@,
    {
        let ghost s0 = self.aux_seq();
        let mut i: usize = 0;
        let n = self.aux_fields.len();
        while i < n
            invariant
                n == self.aux_fields@.len(),
                i <= n,
                forall|j: int| 0 <= j < i ==> (#[trigger] self.aux_seq()[j]).0 != key@,
                self.aux_seq() == s0,
                self == old(self),
                old(self).wf(),
                assoc_wf(s0),
            decreases n - i,
        {
            if bytes_eq(self.aux_fields[i].0.as_slice(), key.as_slice()) {
                proof {
                    lemma_assoc_update(s0, i as int, value@);
                }
                self.aux_fields.set(i, (key, value));
                assert(final(self).aux_seq() =~= s0.update(i as int, (s0[i as int].0, value@)));
                return;
            }
            assert(self.aux_seq()[i as int].0 != key@);
            i = i + 1;
        }
        self.aux_fields.push((key, value));
        assert(final(self).aux_seq() =~= s0.push((key@, value@)));
        assert(final(self).aux_seq().drop_last() =~= s0);
        proof {
            let t = final(self).aux_seq();
            assert forall|a: int, b: int| 0 <= a < b < t.len() implies (#[trigger] t[a]).0
                != (#[trigger] t[b]).0 by {
                if b == t.len() - 1 {
                    assert(t[a] == s0[a]);
                } else {
                    assert(t[a] == s0[a] && t[b] == s0[b]);
                }
            }
        }
    }

    /// The stored entry under `key` in database `db`, if any.
    pub fn get(&self, db: u64, key: &[u8]) -> (r: Option<KeyValue>)
        requires
            self.wf(),
        ensures
            match r {
                Some(kv) => self.contents(db).contains_key(key@) && kv.dv() == self.contents(db)[
                    key@
                ],
                None => !self.contents(db).contains_key(key@),
            },
    {
        proof {
            lemma_assoc_contains(self.databases@, db);
        }
        match self.find_db(db) {
            Some(i) => {
                proof {
                    lemma_assoc_get(self.databases@, i as int);
                }
                self.databases[i].1.get(key)
            },
            None => {
                assert(!self.dbs().contains_key(db));
                None
            },
        }
    }

    /// Inserts or replaces the entry for `key` in database `db`, creating
    /// the database first when it does not exist yet.
    pub fn insert(&mut self, db: u64, key: Vec<u8>, value: RedisValue, expiry: Option<Expiry>)
        requires
            old(self).wf(),
        ensures
            final(self).wf(),
            final(self).dbs().contains_key(db),
            final(self).contents(db) == old(self).contents(db).insert(
                key@,
                KeyValueData { value: value.dv(), expiry },
            ),
            forall|d: u64| d != db ==> final(self).contents(d) == old(self).contents(d)
                && (final(self).dbs().contains_key(d) <==> old(self).dbs().contains_key(d)),
            final(self).version == old(self).version,
            final(self).aux_seq() == old(self).aux_seq(),
    {
        let ghost s0 = self.databases@;
        let kv = KeyValue { value, expiry };
        proof {
            lemma_assoc_contains(s0, db);
        }
        match self.find_db(db) {
            Some(i) => {
                proof {
                    lemma_assoc_get(s0, i as int);
                }
                let ghost old_db = self.databases@[i as int].1;
                let entry = &mut self.databases[i].1;
                proof {
                    assert(*entry == old_db);
                }
                entry.set(key, kv);
                proof {
                    let new_db = final(self).databases@[i as int].1;
                    assert(final(self).databases@ =~= s0.update(i as int, (db, new_db)));
                    lemma_assoc_update(s0, i as int, new_db);
                    assert(final(self).dbs() == assoc_map(s0).insert(db, new_db));
                    assert forall|d: u64| d != db implies final(self).contents(d) == old(
                        self,
                    ).contents(d) && (final(self).dbs().contains_key(d) <==> old(
                        self,
                    ).dbs().contains_key(d)) by {}
                }
            },
            None => {
                assert(!self.dbs().contains_key(db));
                let mut fresh = Database::new();
                fresh.set(key, kv);
                self.databases.push((db, fresh));
                proof {
                    assert(final(self).databases@ =~= s0.push((db, fresh)));
                    assert(final(self).databases@.drop_last() =~= s0);
                    assert(final(self).dbs() == assoc_map(s0).insert(db, fresh));
                    let t = final(self).databases@;
                    assert forall|a: int, b: int| 0 <= a < b < t.len() implies (#[trigger] t[
                        a
                    ]).0 != (#[trigger] t[b]).0 by {
                        if b == t.len() - 1 {
                            assert(t[a] == s0[a]);
                        } else {
                            assert(t[a] == s0[a] && t[b] == s0[b]);
                        }
                    }
                    assert(old(self).contents(db) =~= Map::<Seq<u8>, KeyValueData>::empty());
                    assert(fresh.as_map() == old(self).contents(db).insert(
                        key@,
                        KeyValueData { value: value.dv(), expiry },
                    ));
                }
            },
        }
    }

    /// Removes the entry under `key` in database `db`; reports whether one
    /// was removed.
    pub fn delete(&mut self, db: u64, key: &[u8]) -> (r: bool)
        requires
            old(self).wf(),
        ensures
            final(self).wf(),
            r == old(self).contents(db).contains_key(key@),
            final(self).contents(db) == old(self).contents(db).remove(key@),
            forall|d: u64| d != db ==> final(self).contents(d) == old(self).contents(d)
                && (final(self).dbs().contains_key(d) <==> old(self).dbs().contains_key(d)),
            final(self).version == old(self).version,
            final(self).aux_seq() == old(self).aux_seq(),
            old(self).dbs().contains_key(db) ==> final(self).dbs().contains_key(db)
                && final(self).dbs()[db].entry_seq().len() == old(self).dbs()[
                db
            ].entry_seq().len() - (if old(self).contents(db).contains_key(key@) {
                1int
            } else {
                0int
            }),
    {
        let ghost s0 = self.databases@;
        proof {
            lemma_assoc_contains(s0, db);
        }
        match self.find_db(db) {
            Some(i) => {
                proof {
                    lemma_assoc_get(s0, i as int);
                }
                let ghost old_db = self.databases@[i as int].1;
                let entry = &mut self.databases[i].1;
                proof {
                    assert(*entry == old_db);
                }
                let r = entry.remove(key);
                proof {
                    let new_db = final(self).databases@[i as int].1;
                    assert(final(self).databases@ =~= s0.update(i as int, (db, new_db)));
                    lemma_assoc_update(s0, i as int, new_db);
                    assert forall|d: u64| d != db implies final(self).contents(d) == old(
                        self,
                    ).contents(d) && (final(self).dbs().contains_key(d) <==> old(
                        self,
                    ).dbs().contains_key(d)) by {}
                }
                r
            },
            None => {
                assert(!self.dbs().contains_key(db));
                assert(self.contents(db) =~= self.contents(db).remove(key@));
                false
            },
        }
    }

    /// The keys of database `db` in storage order, or `None` when that
    /// database does not exist.
    pub fn keys(&self, db: u64) -> (r: Option<Vec<Vec<u8>>>)
        requires
            self.wf(),
        ensures
            match r {
                Some(ks) => self.dbs().contains_key(db) && ks@.len() == self.dbs()[
                    db
                ].entry_seq().len() && forall|i: int|
                    0 <= i < ks@.len() ==> ks@[i]@ == (#[trigger] self.dbs()[db].entry_seq()[
                        i
                    ]).0,
                None => !self.dbs().contains_key(db),
            },
    {
        proof {
            lemma_assoc_contains(self.databases@, db);
        }
        match self.find_db(db) {
            Some(i) => {
                proof {
                    lemma_assoc_get(self.databases@, i as int);
                }
                Some(self.databases[i].1.key_list())
            },
            None => None,
        }
    }

    /// Number of entries in database `db`; zero when it does not exist.
    pub fn dbsize(&self, db: u64) -> (r: usize)
        requires
            self.wf(),
        ensures
            r == if self.dbs().contains_key(db) {
                self.dbs()[db].entry_seq().len()
            } else {
                0nat
            },
    {
        proof {
            lemma_assoc_contains(self.databases@, db);
        }
        match self.find_db(db) {
            Some(i) => {
                proof {
                    lemma_assoc_get(self.databases@, i as int);
                }
                self.databases[i].1.len()
            },
            None => 0,
        }
    }

    /// Number of databases.
    pub fn db_count(&self) -> (r: usize)
        ensures
            r == self.databases@.len(),
    {
        self.databases.len()
    }
}

} // verus!

