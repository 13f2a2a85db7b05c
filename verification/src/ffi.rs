//! What a clang index store hands out, as plain values.
//!
//! A store holds units, one for each translation unit, and records, one for
//! each source file in one state of its contents. A unit names the records that
//! it is made of; a record holds the occurrences of symbols in its file.
use vstd::prelude::*;

use crate::text;

verus! {

// Role bits, of occurrences and of relations.
pub const ROLE_DECLARATION: u64 = 1 << 0;

pub const ROLE_DEFINITION: u64 = 1 << 1;

pub const ROLE_REFERENCE: u64 = 1 << 2;

pub const ROLE_READ: u64 = 1 << 3;

pub const ROLE_WRITE: u64 = 1 << 4;

pub const ROLE_CALL: u64 = 1 << 5;

pub const ROLE_DYNAMIC: u64 = 1 << 6;

pub const ROLE_ADDRESSOF: u64 = 1 << 7;

pub const ROLE_IMPLICIT: u64 = 1 << 8;

pub const ROLE_REL_CHILDOF: u64 = 1 << 9;

pub const ROLE_REL_BASEOF: u64 = 1 << 10;

pub const ROLE_REL_OVERRIDEOF: u64 = 1 << 11;

pub const ROLE_REL_RECEIVEDBY: u64 = 1 << 12;

pub const ROLE_REL_CALLEDBY: u64 = 1 << 13;

pub const ROLE_REL_CONTAINEDBY: u64 = 1 << 16;

pub const ROLE_REL_SPECIALIZATIONOF: u64 = 1 << 18;

// Kinds of unit dependencies.
pub const DEP_KIND_UNIT: u32 = 1;

pub const DEP_KIND_RECORD: u32 = 2;

pub const DEP_KIND_FILE: u32 = 3;

/// Whether `roles`, as a row holds them, have a bit of `mask`.
pub open spec fn has_role(roles: i64, mask: u64) -> bool {
    (roles as u64) & mask != 0
}

/// Whether `roles` have a bit of `mask`.
pub fn test_role(roles: i64, mask: u64) -> (r: bool)
    ensures
        r == has_role(roles, mask),
{
    #[verifier::truncate]
    let bits = roles as u64;
    bits & mask != 0
}

/// A symbol, where it occurs or is related to an occurrence.
pub struct SymInfo {
    pub usr: String,
    pub name: String,
    pub kind: u32,
    pub lang: u32,
}

pub struct SymInfoV {
    pub usr: Seq<char>,
    pub name: Seq<char>,
    pub kind: u32,
    pub lang: u32,
}

impl View for SymInfo {
    type V = SymInfoV;

    open spec fn view(&self) -> SymInfoV {
        SymInfoV { usr: self.usr@, name: self.name@, kind: self.kind, lang: self.lang }
    }
}

/// One occurrence: the symbol, its roles, its place, and how other symbols are
/// related to it.
pub struct Occurrence {
    pub symbol: SymInfo,
    pub roles: u64,
    pub line: u32,
    pub col: u32,
    pub relations: Vec<(u64, SymInfo)>,
}

pub struct OccurrenceV {
    pub symbol: SymInfoV,
    pub roles: u64,
    pub line: u32,
    pub col: u32,
    pub relations: Seq<(u64, SymInfoV)>,
}

impl View for Occurrence {
    type V = OccurrenceV;

    open spec fn view(&self) -> OccurrenceV {
        OccurrenceV {
            symbol: self.symbol@,
            roles: self.roles,
            line: self.line,
            col: self.col,
            relations: self.relations@.map_values(|r: (u64, SymInfo)| (r.0, r.1@)),
        }
    }
}

/// One record that a unit is made of.
pub struct RecordDep {
    pub name: String,
    pub file_path: String,
    pub is_system: bool,
}

pub struct RecordDepV {
    pub name: Seq<char>,
    pub file_path: Seq<char>,
    pub is_system: bool,
}

impl View for RecordDep {
    type V = RecordDepV;

    open spec fn view(&self) -> RecordDepV {
        RecordDepV {
            name: self.name@,
            file_path: self.file_path@,
            is_system: self.is_system,
        }
    }
}

/// One dependency of a unit, of whatever kind.
pub struct UnitDep {
    pub kind: u32,
    pub name: String,
    pub file_path: String,
    pub is_system: bool,
}

/// The record dependencies among `deps`, in their order.
pub open spec fn records_among(deps: Seq<UnitDep>) -> Seq<RecordDepV>
    decreases deps.len(),
{
    if deps.len() == 0 {
        Seq::empty()
    } else {
        let d = deps.last();
        let before = records_among(deps.drop_last());
        if d.kind == DEP_KIND_RECORD {
            before.push(
                RecordDepV { name: d.name@, file_path: d.file_path@, is_system: d.is_system },
            )
        } else {
            before
        }
    }
}

/// The record dependencies of a unit, in their order. Dependencies on other
/// units and on files have no part in the graph.
pub fn record_deps(deps: &Vec<UnitDep>) -> (r: Vec<RecordDep>)
    ensures
        r@.map_values(|d: RecordDep| d@) == records_among(deps@),
{
    let mut out: Vec<RecordDep> = Vec::new();
    let mut i: usize = 0;
    assert(out@.map_values(|d: RecordDep| d@) =~= records_among(deps@.take(0)));
    while i < deps.len()
        invariant
            i <= deps.len(),
            out@.map_values(|d: RecordDep| d@) == records_among(deps@.take(i as int)),
        decreases deps.len() - i,
    {
        let ghost before = out@;
        assert(deps@.take(i + 1).drop_last() =~= deps@.take(i as int));
        if deps[i].kind == DEP_KIND_RECORD {
            let dep = RecordDep {
                name: deps[i].name.clone(),
                file_path: deps[i].file_path.clone(),
                is_system: deps[i].is_system,
            };
            out.push(dep);
            assert(out@.map_values(|d: RecordDep| d@) =~= before.map_values(
                |d: RecordDep| d@,
            ).push(dep@));
        }
        i = i + 1;
    }
    assert(deps@.take(i as int) =~= deps@);
    out
}

/// The text of an error that the store reported, where it gave one.
pub fn error_text(description: Option<String>) -> (r: String)
    ensures
        r@ == (match description {
            Some(d) => d@,
            None => "unknown indexstore error"@,
        }),
{
    match description {
        Some(d) => d,
        None => "unknown indexstore error".to_owned(),
    }
}

/// Where the store's reader library is looked for, in this order: in the
/// selected developer directory, where there is one, and in the command line
/// tools.
pub open spec fn library_places(developer_dir: Option<Seq<char>>) -> Seq<Seq<char>> {
    let tools = seq!["/Library/Developer/CommandLineTools/usr/lib/libIndexStore.dylib"@];
    match developer_dir {
        Some(dir) => seq![
            dir + "/Toolchains/XcodeDefault.xctoolchain/usr/lib/libIndexStore.dylib"@,
            dir + "/usr/lib/libIndexStore.dylib"@,
        ] + tools,
        None => tools,
    }
}

/// Where the store's reader library is looked for.
pub fn library_candidates(developer_dir: Option<&str>) -> (r: Vec<String>)
    ensures
        r@.map_values(|s: String| s@) == library_places(
            match developer_dir {
                Some(d) => Some(d@),
                None => None,
            },
        ),
{
    let mut out: Vec<String> = Vec::new();
    if let Some(dir) = developer_dir {
        let mut a = dir.to_owned();
        a.append("/Toolchains/XcodeDefault.xctoolchain/usr/lib/libIndexStore.dylib");
        let mut b = dir.to_owned();
        b.append("/usr/lib/libIndexStore.dylib");
        out.push(a);
        out.push(b);
    }
    out.push("/Library/Developer/CommandLineTools/usr/lib/libIndexStore.dylib".to_owned());
    assert(out@.map_values(|s: String| s@) =~= library_places(
        match developer_dir {
            Some(d) => Some(d@),
            None => None,
        },
    ));
    out
}

/// The library at the place that was asked for, or what is said where there is
/// none.
pub fn named_library(path: String, present: bool) -> (r: Result<String, String>)
    ensures
        match r {
            Ok(p) => present && p@ == path@,
            Err(msg) => !present && msg@
                == "SYMGRAPH_LIBINDEXSTORE 가 가리키는 파일이 없음: "@ + path@,
        },
{
    if present {
        Ok(path)
    } else {
        let mut msg = "SYMGRAPH_LIBINDEXSTORE 가 가리키는 파일이 없음: ".to_owned();
        msg.append(path.as_str());
        Err(msg)
    }
}

/// The paths of places.
pub open spec fn place_paths(places: Seq<(String, bool)>) -> Seq<Seq<char>> {
    places.map_values(|p: (String, bool)| p.0@)
}

/// What is said where the library is at none of the places.
pub open spec fn library_missing(places: Seq<(String, bool)>) -> Seq<char> {
    "libIndexStore.dylib 를 찾지 못함 (SYMGRAPH_LIBINDEXSTORE 로 지정 가능). 시도한 경로: "@
        + text::joined(place_paths(places), ", "@)
}

/// The library at the first of the places that are marked as having it, or what
/// is said where none has.
pub fn first_library(places: &Vec<(String, bool)>) -> (r: Result<String, String>)
    ensures
        match r {
            Ok(p) => exists|i: int|
                {
                    &&& 0 <= i < places@.len()
                    &&& (#[trigger] places@[i]).1
                    &&& places@[i].0@ == p@
                    &&& forall|k: int| 0 <= k < i ==> !(#[trigger] places@[k]).1
                },
            Err(msg) => {
                &&& forall|k: int| 0 <= k < places@.len() ==> !(#[trigger] places@[k]).1
                &&& msg@ == library_missing(places@)
            },
        },
{
    let mut paths: Vec<String> = Vec::new();
    let mut i: usize = 0;
    while i < places.len()
        invariant
            i <= places.len(),
            forall|k: int| 0 <= k < i ==> !(#[trigger] places@[k]).1,
            paths.len() == i,
            forall|k: int| 0 <= k < i ==> (#[trigger] paths@[k])@ == places@[k].0@,
        decreases places.len() - i,
    {
        if places[i].1 {
            return Ok(places[i].0.clone());
        }
        paths.push(places[i].0.clone());
        i = i + 1;
    }
    assert(text::texts(paths@) =~= place_paths(places@));
    let mut msg =
        "libIndexStore.dylib 를 찾지 못함 (SYMGRAPH_LIBINDEXSTORE 로 지정 가능). 시도한 경로: ".to_owned();
    msg.append(text::join(&paths, ", ").as_str());
    Err(msg)
}

} // verus!
