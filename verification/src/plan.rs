//! What a merge has to do, before anything of the store is opened.
use vstd::hash_map::StringHashMap;
use vstd::prelude::*;

use crate::db::{self, find_id, index_rows, Graph, GraphV, UnitRow, UnitV};
use crate::rows;
use crate::store::{self, StampV, UnitData, UnitDataV, UnitStamp};
use crate::text;

verus! {

/// Whether the main file of a unit of the graph is not there any more.
pub open spec fn source_gone(g: GraphV, missing: Seq<Seq<char>>, u: UnitV) -> bool {
    match u.main_file_id {
        Some(id) => match db::by_id(g.files, id) {
            Some(f) => missing.contains(f.path),
            None => false,
        },
        None => false,
    }
}

/// Whether the main file of a unit of the store is not there any more.
pub open spec fn main_missing(data: UnitDataV, missing: Seq<Seq<char>>) -> bool {
    match data.main_file {
        Some(path) => path.len() > 0 && missing.contains(path),
        None => false,
    }
}

/// Whether a unit of the store has to be read: the graph does not have it, or
/// has it with another time, and it is not about to be removed.
pub open spec fn to_read(g: GraphV, missing: Seq<Seq<char>>, s: StampV) -> bool {
    match db::by_name(g.units, s.name) {
        Some(u) => u.mtime_ns != s.mtime_ns && !source_gone(g, missing, u),
        None => true,
    }
}

/// Whether a unit of the graph has to be removed: the store does not list it,
/// or its main file is not there any more.
pub open spec fn to_drop(
    g: GraphV,
    listing: Seq<StampV>,
    missing: Seq<Seq<char>>,
    u: UnitV,
) -> bool {
    !(exists|i: int| db::has_name_at(listing, u.name, i)) || source_gone(g, missing, u)
}

/// What a unit of the store adds to those that have to be read.
pub open spec fn pick_read(g: GraphV, missing: Seq<Seq<char>>) -> spec_fn(StampV) -> Seq<
    StampV,
> {
    |s: StampV|
        if to_read(g, missing, s) {
            seq![s]
        } else {
            Seq::empty()
        }
}

/// The units that have to be read.
pub open spec fn units_to_read(
    g: GraphV,
    listing: Seq<StampV>,
    missing: Seq<Seq<char>>,
) -> Seq<StampV> {
    rows::gather(listing, pick_read(g, missing))
}

/// What a unit of the graph adds to the ids of those that have to be removed.
pub open spec fn pick_drop(
    g: GraphV,
    listing: Seq<StampV>,
    missing: Seq<Seq<char>>,
) -> spec_fn(UnitV) -> Seq<i64> {
    |u: UnitV|
        if to_drop(g, listing, missing, u) {
            seq![u.id]
        } else {
            Seq::empty()
        }
}

/// The ids of the units that have to be removed.
pub open spec fn units_to_drop(
    g: GraphV,
    listing: Seq<StampV>,
    missing: Seq<Seq<char>>,
) -> Seq<i64> {
    rows::gather(g.units, pick_drop(g, listing, missing))
}

pub(crate) fn texts_index(v: &Vec<String>) -> (m: StringHashMap<bool>)
    ensures
        forall|t: Seq<char>| #[trigger]
            m@.contains_key(t) <==> text::texts(v@).contains(t),
{
    let mut m: StringHashMap<bool> = StringHashMap::new();
    let ghost all = text::texts(v@);
    let mut i: usize = 0;
    while i < v.len()
        invariant
            all == text::texts(v@),
            i <= v.len(),
            forall|t: Seq<char>| #[trigger]
                m@.contains_key(t) <==> exists|k: int| 0 <= k < i && all[k] == t,
        decreases v.len() - i,
    {
        let ghost before = m@;
        m.insert(v[i].clone(), true);
        proof {
            assert forall|t: Seq<char>| #[trigger] m@.contains_key(t) <==> exists|k: int|
                0 <= k < i + 1 && all[k] == t by {
                if m@.contains_key(t) {
                    if t == all[i as int] {
                    } else {
                        assert(before.contains_key(t));
                        let k = choose|k: int| 0 <= k < i && all[k] == t;
                        assert(0 <= k < i + 1 && all[k] == t);
                    }
                }
                if exists|k: int| 0 <= k < i + 1 && all[k] == t {
                    let k = choose|k: int| 0 <= k < i + 1 && all[k] == t;
                    if k < i {
                        assert(0 <= k < i && all[k] == t);
                        assert(before.contains_key(t));
                    }
                }
            }
        }
        i = i + 1;
    }
    m
}

pub(crate) fn test_main_missing(missing: &StringHashMap<bool>, data: &UnitData) -> (r: bool)
    ensures
        forall|paths: Seq<Seq<char>>|
            (forall|t: Seq<char>| #[trigger] missing@.contains_key(t) <==> paths.contains(t))
                ==> r == #[trigger] main_missing(data@, paths),
{
    match &data.main_file {
        Some(path) => !path.as_str().is_empty() && missing.contains_key(path.as_str()),
        None => false,
    }
}

fn test_source_gone(graph: &Graph, missing: &StringHashMap<bool>, u: &UnitRow) -> (r: bool)
    requires
        graph.wf(),
    ensures
        forall|paths: Seq<Seq<char>>|
            (forall|t: Seq<char>| #[trigger] missing@.contains_key(t) <==> paths.contains(t))
                ==> r == #[trigger] source_gone(graph@, paths, u@),
{
    match u.main_file_id {
        Some(id) => match find_id(&graph.files, id) {
            Some(i) => missing.contains_key(graph.files[i].path.as_str()),
            None => false,
        },
        None => false,
    }
}

/// The paths of the main files that the units of the graph have, in the order
/// of the units. A merge asks which of them are not there any more.
pub open spec fn main_paths(g: GraphV) -> Seq<Seq<char>> {
    rows::gather(g.units, pick_main(g))
}

/// What a unit adds to the paths of main files.
pub open spec fn pick_main(g: GraphV) -> spec_fn(UnitV) -> Seq<Seq<char>> {
    |u: UnitV|
        match u.main_file_id {
            Some(id) => match db::by_id(g.files, id) {
                Some(f) => seq![f.path],
                None => Seq::empty(),
            },
            None => Seq::empty(),
        }
}

/// The paths of the main files that the units of the graph have.
pub fn main_files(graph: &Graph) -> (r: Vec<String>)
    requires
        graph.wf(),
    ensures
        text::texts(r@) == main_paths(graph@),
{
    let ghost all = graph@.units;
    let ghost f = pick_main(graph@);
    let mut out: Vec<String> = Vec::new();
    let mut i: usize = 0;
    proof {
        assert(text::texts(out@) =~= Seq::<Seq<char>>::empty());
        rows::lemma_gather_start(all, f);
    }
    while i < graph.units.len()
        invariant
            graph.wf(),
            all == graph@.units,
            all.len() == graph.units.len(),
            i <= all.len(),
            f == pick_main(graph@),
            text::texts(out@) + rows::gather(all.skip(i as int), f) == rows::gather(all, f),
        decreases all.len() - i,
    {
        let ghost o = out@;
        proof {
            rows::lemma_gather_step(all, f, text::texts(out@), i as int);
            assert(all[i as int] == graph.units@[i as int]@);
        }
        if let Some(id) = graph.units[i].main_file_id {
            if let Some(j) = find_id(&graph.files, id) {
                out.push(graph.files[j].path.clone());
            }
        }
        assert(text::texts(out@) =~= text::texts(o) + f(all[i as int]));
        i = i + 1;
    }
    proof {
        rows::lemma_gather_end(all, f, text::texts(out@));
    }
    out
}

/// What a merge has to do with units.
pub struct MergePlan {
    /// The units that have to be read.
    pub read: Vec<UnitStamp>,
    /// The ids of the units that have to be removed.
    pub remove: Vec<i64>,
}

fn plan_reads(
    graph: &Graph,
    listing: &Vec<UnitStamp>,
    missing: &Vec<String>,
    gone: &StringHashMap<bool>,
    unit_ids: &StringHashMap<i64>,
) -> (r: Vec<UnitStamp>)
    requires
        graph.wf(),
        forall|t: Seq<char>| #[trigger]
            gone@.contains_key(t) <==> text::texts(missing@).contains(t),
        db::indexes(unit_ids@, graph@.units),
    ensures
        store::stamps(r@) == rows::gather(
            store::stamps(listing@),
            pick_read(graph@, text::texts(missing@)),
        ),
{
    let ghost paths = text::texts(missing@);
    let ghost all = store::stamps(listing@);
    let ghost f = pick_read(graph@, paths);
    let mut out: Vec<UnitStamp> = Vec::new();
    let mut i: usize = 0;
    proof {
        assert(store::stamps(out@) =~= Seq::<StampV>::empty());
        rows::lemma_gather_start(all, f);
    }
    while i < listing.len()
        invariant
            graph.wf(),
            paths == text::texts(missing@),
            forall|t: Seq<char>| #[trigger] gone@.contains_key(t) <==> paths.contains(t),
            db::indexes(unit_ids@, graph@.units),
            all == store::stamps(listing@),
            i <= listing.len(),
            f == pick_read(graph@, paths),
            store::stamps(out@) + rows::gather(all.skip(i as int), f) == rows::gather(all, f),
        decreases listing.len() - i,
    {
        let ghost o = out@;
        let s = &listing[i];
        proof {
            rows::lemma_gather_step(all, f, store::stamps(out@), i as int);
            assert(all[i as int] == s@);
            db::lemma_indexes(unit_ids@, graph@.units, s.name@);
        }
        let read = match unit_ids.get(s.name.as_str()) {
            Some(id) => {
                let ghost row = db::by_name(graph@.units, s.name@).unwrap();
                proof {
                    let k = choose|k: int| db::has_name_at(graph@.units, s.name@, k);
                    assert(db::has_name_at(graph@.units, s.name@, k));
                    db::lemma_by_id(graph@.units, k);
                }
                match find_id(&graph.units, *id) {
                    Some(j) => {
                        assert(graph.units@[j as int]@ == row);
                        let gone_now = test_source_gone(graph, gone, &graph.units[j]);
                        assert(gone_now == source_gone(graph@, paths, row));
                        graph.units[j].mtime_ns != s.mtime_ns && !gone_now
                    },
                    None => true,
                }
            },
            None => true,
        };
        assert(read == to_read(graph@, paths, s@));
        if read {
            out.push(UnitStamp { name: s.name.clone(), mtime_ns: s.mtime_ns });
        }
        assert(store::stamps(out@) =~= store::stamps(o) + f(all[i as int]));
        i = i + 1;
    }
    proof {
        rows::lemma_gather_end(all, f, store::stamps(out@));
    }
    out
}

fn names_index(listing: &Vec<UnitStamp>) -> (m: StringHashMap<bool>)
    ensures
        forall|t: Seq<char>| #[trigger]
            m@.contains_key(t) <==> exists|k: int| db::has_name_at(store::stamps(listing@), t, k),
{
    let mut m: StringHashMap<bool> = StringHashMap::new();
    let ghost all = store::stamps(listing@);
    let mut i: usize = 0;
    while i < listing.len()
        invariant
            all == store::stamps(listing@),
            i <= listing.len(),
            forall|t: Seq<char>| #[trigger]
                m@.contains_key(t) <==> exists|k: int| k < i && db::has_name_at(all, t, k),
        decreases listing.len() - i,
    {
        let ghost before = m@;
        m.insert(listing[i].name.clone(), true);
        proof {
            assert forall|t: Seq<char>| #[trigger] m@.contains_key(t) <==> exists|k: int|
                k < i + 1 && db::has_name_at(all, t, k) by {
                if m@.contains_key(t) {
                    if t == all[i as int].name {
                        assert(db::has_name_at(all, t, i as int));
                    } else {
                        assert(before.contains_key(t));
                        let k = choose|k: int| k < i && db::has_name_at(all, t, k);
                        assert(k < i + 1 && db::has_name_at(all, t, k));
                    }
                }
                if exists|k: int| k < i + 1 && db::has_name_at(all, t, k) {
                    let k = choose|k: int| k < i + 1 && db::has_name_at(all, t, k);
                    if k < i {
                        assert(k < i && db::has_name_at(all, t, k));
                        assert(before.contains_key(t));
                    }
                }
            }
        }
        i = i + 1;
    }
    proof {
        assert forall|t: Seq<char>| #[trigger] m@.contains_key(t) <==> exists|k: int|
            db::has_name_at(all, t, k) by {
            if exists|k: int| db::has_name_at(all, t, k) {
                let k = choose|k: int| db::has_name_at(all, t, k);
                assert(k < i && db::has_name_at(all, t, k));
            }
        }
    }
    m
}

fn plan_drops(
    graph: &Graph,
    listing: &Vec<UnitStamp>,
    missing: &Vec<String>,
    gone: &StringHashMap<bool>,
) -> (r: Vec<i64>)
    requires
        graph.wf(),
        forall|t: Seq<char>| #[trigger]
            gone@.contains_key(t) <==> text::texts(missing@).contains(t),
    ensures
        r@ == units_to_drop(graph@, store::stamps(listing@), text::texts(missing@)),
{
    let names = names_index(listing);
    let ghost all = graph@.units;
    let ghost f = pick_drop(graph@, store::stamps(listing@), text::texts(missing@));
    let mut out: Vec<i64> = Vec::new();
    let mut i: usize = 0;
    proof {
        rows::lemma_gather_start(all, f);
    }
    while i < graph.units.len()
        invariant
            graph.wf(),
            forall|t: Seq<char>| #[trigger]
                gone@.contains_key(t) <==> text::texts(missing@).contains(t),
            forall|t: Seq<char>| #[trigger]
                names@.contains_key(t) <==> exists|k: int|
                    db::has_name_at(store::stamps(listing@), t, k),
            all == graph@.units,
            all.len() == graph.units.len(),
            i <= all.len(),
            f == pick_drop(graph@, store::stamps(listing@), text::texts(missing@)),
            out@ + rows::gather(all.skip(i as int), f) == rows::gather(all, f),
        decreases all.len() - i,
    {
        let ghost o = out@;
        let u = &graph.units[i];
        proof {
            rows::lemma_gather_step(all, f, out@, i as int);
            assert(all[i as int] == u@);
        }
        let gone_now = test_source_gone(graph, gone, u);
        assert(gone_now == source_gone(graph@, text::texts(missing@), u@));
        let unlisted = !names.contains_key(u.name.as_str());
        if unlisted || gone_now {
            out.push(u.id);
        }
        assert(out@ =~= o + f(all[i as int]));
        i = i + 1;
    }
    proof {
        rows::lemma_gather_end(all, f, out@);
    }
    out
}

/// What a merge has to do with units, from what the store lists and from which
/// main files are not there any more. No unit is opened for this.
pub fn plan(graph: &Graph, listing: &Vec<UnitStamp>, missing: &Vec<String>) -> (r: MergePlan)
    requires
        graph.wf(),
    ensures
        store::stamps(r.read@) == units_to_read(
            graph@,
            store::stamps(listing@),
            text::texts(missing@),
        ),
        r.remove@ == units_to_drop(graph@, store::stamps(listing@), text::texts(missing@)),
{
    let gone = texts_index(missing);
    let read = match index_rows(&graph.units) {
        Some(unit_ids) => plan_reads(graph, listing, missing, &gone, &unit_ids),
        None => Vec::new(),
    };
    let remove = plan_drops(graph, listing, missing, &gone);
    MergePlan { read, remove }
}

} // verus!
