//! The index store, as far as a merge needs it.
use vstd::hash_map::StringHashMap;
use vstd::prelude::*;

use crate::db::{self, HasName};
use crate::ffi::{Occurrence, OccurrenceV, RecordDep, RecordDepV};
use crate::text;

verus! {

/// A unit of the store, and when it was last modified.
pub struct UnitStamp {
    pub name: String,
    pub mtime_ns: i64,
}

pub struct StampV {
    pub name: Seq<char>,
    pub mtime_ns: i64,
}

impl View for UnitStamp {
    type V = StampV;

    open spec fn view(&self) -> StampV {
        StampV { name: self.name@, mtime_ns: self.mtime_ns }
    }
}

/// What a unit says.
pub struct UnitData {
    pub name: String,
    pub main_file: Option<String>,
    pub module_name: String,
    pub deps: Vec<RecordDep>,
}

pub struct UnitDataV {
    pub name: Seq<char>,
    pub main_file: Option<Seq<char>>,
    pub module_name: Seq<char>,
    pub deps: Seq<RecordDepV>,
}

impl View for UnitData {
    type V = UnitDataV;

    open spec fn view(&self) -> UnitDataV {
        UnitDataV {
            name: self.name@,
            main_file: match self.main_file {
                Some(p) => Some(p@),
                None => None,
            },
            module_name: self.module_name@,
            deps: self.deps@.map_values(|d: RecordDep| d@),
        }
    }
}

/// What a record says.
pub struct RecordData {
    pub name: String,
    pub occurrences: Vec<Occurrence>,
}

pub struct RecordDataV {
    pub name: Seq<char>,
    pub occurrences: Seq<OccurrenceV>,
}

impl View for RecordData {
    type V = RecordDataV;

    open spec fn view(&self) -> RecordDataV {
        RecordDataV {
            name: self.name@,
            occurrences: self.occurrences@.map_values(|o: Occurrence| o@),
        }
    }
}

impl HasName for UnitDataV {
    open spec fn key(&self) -> Seq<char> {
        self.name
    }
}

impl HasName for RecordDataV {
    open spec fn key(&self) -> Seq<char> {
        self.name
    }
}

impl HasName for StampV {
    open spec fn key(&self) -> Seq<char> {
        self.name
    }
}

/// The store, as far as a merge needs it: the units that it lists, what was
/// read of units and records, and which source files are not there any more.
pub struct Snapshot {
    pub listing: Vec<UnitStamp>,
    pub units: Vec<UnitData>,
    pub records: Vec<RecordData>,
    pub missing_sources: Vec<String>,
}

pub struct SnapshotV {
    pub listing: Seq<StampV>,
    pub units: Seq<UnitDataV>,
    pub records: Seq<RecordDataV>,
    pub missing_sources: Seq<Seq<char>>,
}

impl View for Snapshot {
    type V = SnapshotV;

    open spec fn view(&self) -> SnapshotV {
        SnapshotV {
            listing: self.listing@.map_values(|s: UnitStamp| s@),
            units: self.units@.map_values(|u: UnitData| u@),
            records: self.records@.map_values(|r: RecordData| r@),
            missing_sources: text::texts(self.missing_sources@),
        }
    }
}

/// An entry of the directory of units.
pub struct DirEntry {
    pub name: String,
    pub is_file: bool,
    /// Nanoseconds between 1970 and the last modification, unless that was
    /// before 1970.
    pub modified_ns: Option<u128>,
}

/// Whether a file of the name can be a unit: names with a leading dot are not
/// those of units.
pub open spec fn names_unit(name: Seq<char>) -> bool {
    !(name.len() > 0 && name[0] == '.')
}

/// Whether a file of the name can be a unit.
pub fn is_unit_name(name: &str) -> (r: bool)
    ensures
        r == names_unit(name@),
{
    !(name.unicode_len() > 0 && name.get_char(0) == '.')
}

/// Whether a directory entry is a unit: a file whose name does not start with
/// a dot.
pub open spec fn is_unit(e: DirEntry) -> bool {
    e.is_file && names_unit(e.name@)
}

/// The modification time of a unit. A time before 1970 counts as 1970.
pub open spec fn entry_mtime(e: DirEntry) -> i64 {
    match e.modified_ns {
        Some(n) => n as i64,
        None => 0,
    }
}

/// `listing` with the unit, in the place of the one of the same name where
/// there is one.
pub open spec fn put_stamp(listing: Seq<StampV>, s: StampV) -> Seq<StampV> {
    if exists|i: int| db::has_name_at(listing, s.name, i) {
        listing.update(choose|i: int| db::has_name_at(listing, s.name, i), s)
    } else {
        listing.push(s)
    }
}

/// The units among the entries of the directory of units.
pub open spec fn listed(entries: Seq<DirEntry>) -> Seq<StampV>
    decreases entries.len(),
{
    if entries.len() == 0 {
        Seq::empty()
    } else {
        let before = listed(entries.drop_last());
        let e = entries.last();
        if is_unit(e) {
            put_stamp(before, StampV { name: e.name@, mtime_ns: entry_mtime(e) })
        } else {
            before
        }
    }
}

/// The names and times of stamps.
pub open spec fn stamps(v: Seq<UnitStamp>) -> Seq<StampV> {
    v.map_values(|s: UnitStamp| s@)
}

/// The units among the entries of the directory of units. No name comes twice.
pub fn scan_units_dir(entries: &Vec<DirEntry>) -> (r: Vec<UnitStamp>)
    ensures
        stamps(r@) == listed(entries@),
        db::names_differ(stamps(r@)),
{
    let mut out: Vec<UnitStamp> = Vec::new();
    let mut places: StringHashMap<usize> = StringHashMap::new();
    let mut i: usize = 0;
    assert(stamps(out@) =~= listed(entries@.take(0)));
    while i < entries.len()
        invariant
            i <= entries.len(),
            stamps(out@) == listed(entries@.take(i as int)),
            db::names_differ(stamps(out@)),
            forall|k: int|
                0 <= k < out@.len() ==> places@.contains_key((#[trigger] out@[k])@.name)
                    && places@[out@[k]@.name] == k,
            forall|name: Seq<char>|
                #[trigger] places@.contains_key(name) ==> places@[name] < out@.len()
                    && out@[places@[name] as int]@.name == name,
        decreases entries.len() - i,
    {
        let ghost o = out@;
        assert(entries@.take(i + 1).drop_last() =~= entries@.take(i as int));
        let e = &entries[i];
        if e.is_file && is_unit_name(e.name.as_str()) {
            let mtime: i64 = match e.modified_ns {
                Some(n) => {
                    #[verifier::truncate]
                    let t = n as i64;
                    t
                },
                None => 0,
            };
            let stamp = UnitStamp { name: e.name.clone(), mtime_ns: mtime };
            let ghost s = stamp@;
            match places.get(e.name.as_str()) {
                Some(at) => {
                    let k = *at;
                    proof {
                        assert(db::has_name_at(stamps(o), s.name, k as int));
                        let c = choose|c: int| db::has_name_at(stamps(o), s.name, c);
                        assert(db::has_name_at(stamps(o), s.name, c));
                        assert(o[c]@.name == s.name);
                        assert(c == k);
                    }
                    out.set(k, stamp);
                    assert(stamps(out@) =~= stamps(o).update(k as int, s));
                },
                None => {
                    proof {
                        assert forall|c: int| !db::has_name_at(stamps(o), s.name, c) by {
                            if db::has_name_at(stamps(o), s.name, c) {
                                assert(places@.contains_key(o[c]@.name));
                            }
                        }
                    }
                    places.insert(e.name.clone(), out.len());
                    out.push(stamp);
                    assert(stamps(out@) =~= stamps(o).push(s));
                },
            }
        }
        i = i + 1;
    }
    assert(entries@.take(i as int) =~= entries@);
    out
}

// ---- finding what was read ----------------------------------------------

/// What was read under the name: the first, where there are several.
pub open spec fn first_named<T: HasName>(s: Seq<T>, name: Seq<char>) -> Option<T>
    decreases s.len(),
{
    if s.len() == 0 {
        None
    } else if s[0].key() == name {
        Some(s[0])
    } else {
        first_named(s.drop_first(), name)
    }
}

/// Something that was read, with its name.
pub trait Reading {
    type Read: HasName;

    spec fn read(&self) -> Self::Read;

    fn label(&self) -> (r: &String)
        ensures
            r@ == self.read().key(),
    ;
}

impl Reading for UnitData {
    type Read = UnitDataV;

    open spec fn read(&self) -> UnitDataV {
        self@
    }

    fn label(&self) -> (r: &String) {
        &self.name
    }
}

impl Reading for RecordData {
    type Read = RecordDataV;

    open spec fn read(&self) -> RecordDataV {
        self@
    }

    fn label(&self) -> (r: &String) {
        &self.name
    }
}

pub open spec fn readings<T: Reading>(v: Seq<T>) -> Seq<T::Read> {
    v.map_values(|t: T| t.read())
}

/// Whether `m` leads from each name to the first reading under it.
pub open spec fn leads<T: HasName>(m: Map<Seq<char>, usize>, s: Seq<T>) -> bool {
    &&& forall|j: int| 0 <= j < s.len() ==> m.contains_key((#[trigger] s[j]).key())
    &&& forall|name: Seq<char>| #[trigger]
        m.contains_key(name) ==> m[name] < s.len() && s[m[name] as int].key() == name && forall|
            j: int,
        |
            0 <= j < m[name] ==> (#[trigger] s[j]).key() != name
}

proof fn lemma_first_at<T: HasName>(s: Seq<T>, name: Seq<char>, i: int)
    requires
        0 <= i < s.len(),
        s[i].key() == name,
        forall|j: int| 0 <= j < i ==> (#[trigger] s[j]).key() != name,
    ensures
        first_named(s, name) == Some(s[i]),
    decreases i,
{
    if i > 0 {
        assert(s[0].key() != name);
        let t = s.drop_first();
        assert forall|j: int| 0 <= j < i - 1 implies (#[trigger] t[j]).key() != name by {
            assert(t[j] == s[j + 1]);
        }
        lemma_first_at(t, name, i - 1);
    }
}

proof fn lemma_first_none<T: HasName>(s: Seq<T>, name: Seq<char>)
    requires
        forall|j: int| 0 <= j < s.len() ==> (#[trigger] s[j]).key() != name,
    ensures
        first_named(s, name) is None,
    decreases s.len(),
{
    if s.len() > 0 {
        let t = s.drop_first();
        assert(s[0].key() != name);
        assert forall|j: int| 0 <= j < t.len() implies (#[trigger] t[j]).key() != name by {
            assert(t[j] == s[j + 1]);
        }
        lemma_first_none(t, name);
    }
}

pub fn index_readings<T: Reading>(v: &Vec<T>) -> (m: StringHashMap<usize>)
    ensures
        leads(m@, readings(v@)),
{
    let ghost all = readings(v@);
    let mut m: StringHashMap<usize> = StringHashMap::new();
    let mut i: usize = 0;
    while i < v.len()
        invariant
            all == readings(v@),
            i <= v.len(),
            leads(m@, all.take(i as int)),
        decreases v.len() - i,
    {
        let ghost before = m@;
        let ghost part = all.take(i as int);
        let ghost next = all.take(i + 1);
        assert(next =~= part.push(all[i as int]));
        let name = v[i].label();
        if !m.contains_key(name.as_str()) {
            m.insert(name.clone(), i);
        }
        proof {
            assert forall|j: int| 0 <= j < next.len() implies m@.contains_key(
                (#[trigger] next[j]).key(),
            ) by {
                if j < i {
                    assert(next[j] == part[j]);
                }
            }
            assert forall|n: Seq<char>| #[trigger] m@.contains_key(n) implies m@[n] < next.len()
                && next[m@[n] as int].key() == n && forall|j: int|
                0 <= j < m@[n] ==> (#[trigger] next[j]).key() != n by {
                if before.contains_key(n) {
                    assert(m@[n] == before[n]);
                    assert(next[m@[n] as int] == part[m@[n] as int]);
                    assert forall|j: int| 0 <= j < m@[n] implies (#[trigger] next[j]).key()
                        != n by {
                        assert(next[j] == part[j]);
                    }
                } else {
                    assert forall|j: int| 0 <= j < m@[n] implies (#[trigger] next[j]).key()
                        != n by {
                        assert(next[j] == part[j]);
                        assert(before.contains_key(part[j].key()));
                    }
                }
            }
        }
        i = i + 1;
    }
    assert(all.take(i as int) =~= all);
    m
}

pub fn find_reading<'a, T: Reading>(v: &'a Vec<T>, m: &StringHashMap<usize>, name: &str) -> (r:
    Option<&'a T>)
    requires
        leads(m@, readings(v@)),
    ensures
        match r {
            Some(t) => first_named(readings(v@), name@) == Some(t.read()),
            None => first_named(readings(v@), name@) is None,
        },
{
    match m.get(name) {
        Some(i) => {
            proof {
                lemma_first_at(readings(v@), name@, *i as int);
            }
            Some(&v[*i])
        },
        None => {
            proof {
                lemma_first_none(readings(v@), name@);
            }
            None
        },
    }
}

} // verus!
