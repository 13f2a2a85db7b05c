//! What has to be written to bring stored tables from one graph to another.
use vstd::prelude::*;

use crate::db::{
    self, find_id, Graph, GraphV, HasId, Keyed, LinkRow, OccRow, RelationRow, UnitRow, UnitV,
};
use crate::growth;
use crate::laws;
use crate::merge;
use crate::rows;
use crate::store::SnapshotV;

verus! {

/// What a row adds to the ids of those that are gone.
pub open spec fn pick_gone<T: HasId>(after: Seq<T>) -> spec_fn(T) -> Seq<i64> {
    |x: T|
        if db::by_id(after, x.rid()) is Some {
            Seq::empty()
        } else {
            seq![x.rid()]
        }
}

/// The ids of the rows of `before` that `after` does not have.
pub open spec fn gone<T: HasId>(before: Seq<T>, after: Seq<T>) -> Seq<i64> {
    rows::gather(before, pick_gone(after))
}

/// Whether the rows of `after` from `k` on, and only those, have ids above all
/// of `before`.
pub open spec fn new_from<T: HasId>(before: Seq<T>, after: Seq<T>, k: int) -> bool {
    &&& 0 <= k <= after.len()
    &&& forall|i: int|
        0 <= i < k ==> before.len() > 0 && (#[trigger] after[i]).rid() <= before.last().rid()
    &&& forall|i: int|
        k <= i < after.len() ==> before.len() == 0 || (#[trigger] after[i]).rid()
            > before.last().rid()
}

/// What a relation adds to those of new occurrences.
pub open spec fn pick_new(last: Option<i64>) -> spec_fn(RelationRow) -> Seq<RelationRow> {
    |r: RelationRow|
        match last {
            Some(id) if r.occ_id <= id => Seq::empty(),
            _ => seq![r],
        }
}

/// The id of the last row.
pub open spec fn last_id<T: HasId>(s: Seq<T>) -> Option<i64> {
    if s.len() > 0 {
        Some(s.last().rid())
    } else {
        None
    }
}

/// Whether the unit with the id is the same in both tables.
pub open spec fn unit_stays(before: Seq<UnitV>, after: Seq<UnitV>, id: i64) -> bool {
    db::by_id(before, id) is Some && db::by_id(before, id) == db::by_id(after, id)
}

/// What a unit adds to the ids of those that are gone or were put anew.
pub open spec fn pick_gone_unit(before: Seq<UnitV>, after: Seq<UnitV>) -> spec_fn(UnitV) -> Seq<
    i64,
> {
    |u: UnitV|
        if unit_stays(before, after, u.id) {
            Seq::empty()
        } else {
            seq![u.id]
        }
}

/// What a unit adds to those that are new.
pub open spec fn pick_new_unit(before: Seq<UnitV>, after: Seq<UnitV>) -> spec_fn(UnitV) -> Seq<
    UnitV,
> {
    |u: UnitV|
        if unit_stays(before, after, u.id) {
            Seq::empty()
        } else {
            seq![u]
        }
}

/// What a link adds to those of units that are new.
pub open spec fn pick_new_link(before: Seq<UnitV>, after: Seq<UnitV>) -> spec_fn(LinkRow) -> Seq<
    LinkRow,
> {
    |l: LinkRow|
        if unit_stays(before, after, l.unit_id) {
            Seq::empty()
        } else {
            seq![l]
        }
}

/// The rows of a table that are gone, and where those that are new begin.
pub struct TableChanges {
    /// The ids of the rows that are gone.
    pub gone: Vec<i64>,
    /// How many of the rows are not new.
    pub new_from: usize,
}

/// What changed of units. A new unit can have the id of one that is gone.
pub struct UnitChanges {
    /// The ids of the units that are gone.
    pub gone: Vec<i64>,
    /// The units that are new.
    pub new: Vec<UnitRow>,
    /// What the units that are new are made of.
    pub links: Vec<LinkRow>,
}

/// What changed from one graph to another.
pub struct Changes {
    pub files: TableChanges,
    pub symbols: TableChanges,
    pub records: TableChanges,
    pub occurrences: TableChanges,
    /// The relations of new occurrences.
    pub relations: Vec<RelationRow>,
    pub units: UnitChanges,
}

fn table_changes<T: Keyed>(before: &Vec<T>, after: &Vec<T>) -> (r: TableChanges)
    requires
        db::ascending(db::values(before@)),
        db::ascending(db::values(after@)),
    ensures
        r.gone@ == gone(db::values(before@), db::values(after@)),
        new_from(db::values(before@), db::values(after@), r.new_from as int),
{
    let ghost old_rows = db::values(before@);
    let ghost new_rows = db::values(after@);
    let ghost f = pick_gone(new_rows);
    let mut ids: Vec<i64> = Vec::new();
    let mut i: usize = 0;
    proof {
        rows::lemma_gather_start(old_rows, f);
    }
    while i < before.len()
        invariant
            db::ascending(db::values(after@)),
            old_rows == db::values(before@),
            new_rows == db::values(after@),
            f == pick_gone(new_rows),
            i <= before.len(),
            ids@ + rows::gather(old_rows.skip(i as int), f) == rows::gather(old_rows, f),
        decreases before.len() - i,
    {
        let ghost o = ids@;
        proof {
            rows::lemma_gather_step(old_rows, f, ids@, i as int);
        }
        let id = before[i].id_of();
        assert(old_rows[i as int].rid() == id);
        if find_id(after, id).is_none() {
            ids.push(id);
        }
        assert(ids@ =~= o + f(old_rows[i as int]));
        i = i + 1;
    }
    proof {
        rows::lemma_gather_end(old_rows, f, ids@);
    }
    if before.len() == 0 {
        return TableChanges { gone: ids, new_from: 0 };
    }
    let last = before[before.len() - 1].id_of();
    assert(old_rows.last().rid() == last);
    let mut k: usize = after.len();
    while k > 0 && after[k - 1].id_of() > last
        invariant
            new_rows == db::values(after@),
            old_rows.len() > 0,
            old_rows.last().rid() == last,
            k <= after.len(),
            forall|j: int| k <= j < new_rows.len() ==> (#[trigger] new_rows[j]).rid() > last,
        decreases k,
    {
        assert(new_rows[k - 1].rid() == after@[k - 1].value().rid());
        k = k - 1;
    }
    proof {
        assert forall|j: int| 0 <= j < k implies old_rows.len() > 0 && (
        #[trigger] new_rows[j]).rid() <= old_rows.last().rid() by {
            assert(new_rows[k - 1].rid() <= last);
            if j < k - 1 {
                assert(new_rows[j].rid() < new_rows[k - 1].rid());
            }
        }
    }
    TableChanges { gone: ids, new_from: k }
}

fn new_relations(last: Option<i64>, relations: &Vec<RelationRow>) -> (r: Vec<RelationRow>)
    ensures
        r@ == rows::gather(relations@, pick_new(last)),
{
    let ghost all = relations@;
    let ghost f = pick_new(last);
    let mut out: Vec<RelationRow> = Vec::new();
    let mut i: usize = 0;
    proof {
        rows::lemma_gather_start(all, f);
    }
    while i < relations.len()
        invariant
            all == relations@,
            f == pick_new(last),
            i <= relations.len(),
            out@ + rows::gather(all.skip(i as int), f) == rows::gather(all, f),
        decreases relations.len() - i,
    {
        let ghost o = out@;
        proof {
            rows::lemma_gather_step(all, f, out@, i as int);
        }
        let r = relations[i];
        let known = match last {
            Some(id) => r.occ_id <= id,
            None => false,
        };
        if !known {
            out.push(r);
        }
        assert(out@ =~= o + f(all[i as int]));
        i = i + 1;
    }
    proof {
        rows::lemma_gather_end(all, f, out@);
    }
    out
}

fn is_same_unit(a: &UnitRow, b: &UnitRow) -> (r: bool)
    ensures
        r == (a@ == b@),
{
    let same_main = match (a.main_file_id, b.main_file_id) {
        (Some(x), Some(y)) => x == y,
        (None, None) => true,
        _ => false,
    };
    same_main && a.id == b.id && a.mtime_ns == b.mtime_ns && a.name == b.name && a.module_name
        == b.module_name
}

fn test_stays(before: &Vec<UnitRow>, after: &Vec<UnitRow>, id: i64) -> (r: bool)
    requires
        db::ascending(db::values(before@)),
        db::ascending(db::values(after@)),
    ensures
        r == unit_stays(db::values(before@), db::values(after@), id),
{
    match (find_id(before, id), find_id(after, id)) {
        (Some(i), Some(j)) => is_same_unit(&before[i], &after[j]),
        _ => false,
    }
}

/// Which of the units are the same in both tables.
fn find_staying(before: &Vec<UnitRow>, after: &Vec<UnitRow>) -> (r: Vec<bool>)
    requires
        db::ascending(db::values(before@)),
        db::ascending(db::values(after@)),
    ensures
        r@.len() == after@.len(),
        forall|k: int|
            0 <= k < r@.len() ==> #[trigger] r@[k] == unit_stays(
                db::values(before@),
                db::values(after@),
                after@[k].id,
            ),
{
    let mut r: Vec<bool> = Vec::new();
    let mut i: usize = 0;
    while i < after.len()
        invariant
            db::ascending(db::values(before@)),
            db::ascending(db::values(after@)),
            i <= after.len(),
            r@.len() == i,
            forall|k: int|
                0 <= k < i ==> #[trigger] r@[k] == unit_stays(
                    db::values(before@),
                    db::values(after@),
                    after@[k].id,
                ),
        decreases after.len() - i,
    {
        r.push(test_stays(before, after, after[i].id));
        i = i + 1;
    }
    r
}

fn unit_changes(before: &Graph, after: &Graph) -> (r: UnitChanges)
    requires
        before.wf(),
        after.wf(),
    ensures
        r.gone@ == rows::gather(before@.units, pick_gone_unit(before@.units, after@.units)),
        db::values(r.new@) == rows::gather(
            after@.units,
            pick_new_unit(before@.units, after@.units),
        ),
        r.links@ == rows::gather(after@.links, pick_new_link(before@.units, after@.units)),
{
    let ghost old_rows = before@.units;
    let ghost new_rows = after@.units;
    let ghost f = pick_gone_unit(old_rows, new_rows);
    let ghost h = pick_new_unit(old_rows, new_rows);
    let ghost q = pick_new_link(old_rows, new_rows);
    let mut ids: Vec<i64> = Vec::new();
    let mut i: usize = 0;
    proof {
        rows::lemma_gather_start(old_rows, f);
    }
    while i < before.units.len()
        invariant
            before.wf(),
            after.wf(),
            old_rows == before@.units,
            new_rows == after@.units,
            old_rows.len() == before.units.len(),
            f == pick_gone_unit(old_rows, new_rows),
            i <= before.units.len(),
            ids@ + rows::gather(old_rows.skip(i as int), f) == rows::gather(old_rows, f),
        decreases before.units.len() - i,
    {
        let ghost o = ids@;
        proof {
            rows::lemma_gather_step(old_rows, f, ids@, i as int);
            assert(old_rows[i as int] == before.units@[i as int]@);
        }
        let id = before.units[i].id;
        if !test_stays(&before.units, &after.units, id) {
            ids.push(id);
        }
        assert(ids@ =~= o + f(old_rows[i as int]));
        i = i + 1;
    }
    let stays = find_staying(&before.units, &after.units);
    let mut made: Vec<UnitRow> = Vec::new();
    let mut j: usize = 0;
    proof {
        rows::lemma_gather_end(old_rows, f, ids@);
        rows::lemma_gather_start(new_rows, h);
        assert(db::values(made@) =~= Seq::<UnitV>::empty());
    }
    while j < after.units.len()
        invariant
            new_rows == after@.units,
            new_rows.len() == after.units.len(),
            h == pick_new_unit(old_rows, new_rows),
            stays@.len() == new_rows.len(),
            forall|k: int|
                0 <= k < stays@.len() ==> #[trigger] stays@[k] == unit_stays(
                    old_rows,
                    new_rows,
                    after.units@[k].id,
                ),
            j <= after.units.len(),
            db::values(made@) + rows::gather(new_rows.skip(j as int), h) == rows::gather(
                new_rows,
                h,
            ),
        decreases after.units.len() - j,
    {
        let ghost o = made@;
        proof {
            rows::lemma_gather_step(new_rows, h, db::values(made@), j as int);
            assert(new_rows[j as int] == after.units@[j as int]@);
        }
        if !stays[j] {
            made.push(after.units[j].copied());
        }
        assert(db::values(made@) =~= db::values(o) + h(new_rows[j as int]));
        j = j + 1;
    }
    let ghost all = after.links@;
    let mut links: Vec<LinkRow> = Vec::new();
    let mut n: usize = 0;
    proof {
        rows::lemma_gather_end(new_rows, h, db::values(made@));
        rows::lemma_gather_start(all, q);
    }
    while n < after.links.len()
        invariant
            after.wf(),
            all == after.links@,
            new_rows == after@.units,
            new_rows.len() == after.units.len(),
            q == pick_new_link(old_rows, new_rows),
            stays@.len() == new_rows.len(),
            forall|k: int|
                0 <= k < stays@.len() ==> #[trigger] stays@[k] == unit_stays(
                    old_rows,
                    new_rows,
                    after.units@[k].id,
                ),
            n <= all.len(),
            links@ + rows::gather(all.skip(n as int), q) == rows::gather(all, q),
        decreases all.len() - n,
    {
        let ghost o = links@;
        proof {
            rows::lemma_gather_step(all, q, links@, n as int);
        }
        let l = after.links[n];
        let known = match find_id(&after.units, l.unit_id) {
            Some(k) => {
                assert(after.units@[k as int].id == l.unit_id);
                stays[k]
            },
            None => false,
        };
        if !known {
            links.push(l);
        }
        assert(links@ =~= o + q(all[n as int]));
        n = n + 1;
    }
    proof {
        rows::lemma_gather_end(all, q, links@);
    }
    UnitChanges { gone: ids, new: made, links }
}

/// What changed from one graph to another.
pub fn changes(before: &Graph, after: &Graph) -> (r: Changes)
    requires
        before.wf(),
        after.wf(),
    ensures
        r.files.gone@ == gone(before@.files, after@.files),
        new_from(before@.files, after@.files, r.files.new_from as int),
        r.symbols.gone@ == gone(before@.symbols, after@.symbols),
        new_from(before@.symbols, after@.symbols, r.symbols.new_from as int),
        r.records.gone@ == gone(before@.records, after@.records),
        new_from(before@.records, after@.records, r.records.new_from as int),
        r.occurrences.gone@ == gone(before@.occurrences, after@.occurrences),
        new_from(before@.occurrences, after@.occurrences, r.occurrences.new_from as int),
        r.relations@ == rows::gather(after@.relations, pick_new(last_id(before@.occurrences))),
        r.units.gone@ == rows::gather(before@.units, pick_gone_unit(before@.units, after@.units)),
        db::values(r.units.new@) == rows::gather(
            after@.units,
            pick_new_unit(before@.units, after@.units),
        ),
        r.units.links@ == rows::gather(after@.links, pick_new_link(before@.units, after@.units)),
{
    proof {
        assert(db::values(before.occurrences@) =~= before.occurrences@);
        assert(db::values(after.occurrences@) =~= after.occurrences@);
    }
    let n = before.occurrences.len();
    let last = if n > 0 {
        Some(before.occurrences[n - 1].id)
    } else {
        None
    };
    Changes {
        files: table_changes(&before.files, &after.files),
        symbols: table_changes(&before.symbols, &after.symbols),
        records: table_changes(&before.records, &after.records),
        occurrences: table_changes(&before.occurrences, &after.occurrences),
        relations: new_relations(last, &after.relations),
        units: unit_changes(before, after),
    }
}

// ---- nothing else has to be written -------------------------------------

proof fn lemma_same_rows<T: HasId>(a: Seq<T>, b: Seq<T>)
    requires
        db::ascending(a),
        db::ascending(b),
        forall|x: T| #[trigger] a.contains(x) <==> b.contains(x),
    ensures
        a == b,
    decreases a.len(),
{
    if a.len() == 0 {
        if b.len() > 0 {
            assert(b.contains(b[0]));
            assert(a.contains(b[0]));
        }
        assert(a =~= b);
    } else {
        assert(b.len() > 0) by {
            assert(a.contains(a[0]));
            assert(b.contains(a[0]));
        }
        let x = a.last();
        let y = b.last();
        assert(a.contains(x)) by {
            assert(a[a.len() - 1] == x);
        }
        assert(b.contains(x));
        let i = choose|i: int| 0 <= i < b.len() && b[i] == x;
        assert(b.contains(y)) by {
            assert(b[b.len() - 1] == y);
        }
        assert(a.contains(y));
        let j = choose|j: int| 0 <= j < a.len() && a[j] == y;
        if i < b.len() - 1 {
            assert(b[i].rid() < b[b.len() - 1].rid());
        }
        if j < a.len() - 1 {
            assert(a[j].rid() < a[a.len() - 1].rid());
        }
        assert(i == b.len() - 1);
        let c = a.drop_last();
        let d = b.drop_last();
        assert forall|z: T| #[trigger] c.contains(z) <==> d.contains(z) by {
            if c.contains(z) {
                let k = choose|k: int| 0 <= k < c.len() && c[k] == z;
                assert(a[k] == z);
                assert(a.contains(z));
                let m = choose|m: int| 0 <= m < b.len() && b[m] == z;
                assert(a[k].rid() < a[a.len() - 1].rid());
                assert(d[m] == z);
            }
            if d.contains(z) {
                let k = choose|k: int| 0 <= k < d.len() && d[k] == z;
                assert(b[k] == z);
                assert(b.contains(z));
                assert(a.contains(z));
                let m = choose|m: int| 0 <= m < a.len() && a[m] == z;
                assert(b[k].rid() < b[b.len() - 1].rid());
                assert(c[m] == z);
            }
        }
        lemma_same_rows(c, d);
        assert(a =~= c.push(x));
        assert(b =~= d.push(y));
    }
}

/// Where each row of a table is one that was there before or has an id above all
/// of those, as after any merge, removing the rows that are gone and adding
/// those that are new makes the table.
pub proof fn law_changes_make_the_table<T: HasId>(before: Seq<T>, after: Seq<T>, k: int)
    requires
        db::ascending(before),
        db::ascending(after),
        laws::old_or_above(before, after),
        new_from(before, after, k),
    ensures
        after == rows::keep(before, |x: T| !gone(before, after).contains(x.rid()))
            + after.skip(k),
{
    let p = |x: T| !gone(before, after).contains(x.rid());
    let kept = rows::keep(before, p);
    let head = after.take(k);
    db::lemma_ascending_keep(before, p);
    assert forall|x: T| #[trigger] before.contains(x) implies (p(x) <==> db::by_id(
        after,
        x.rid(),
    ) is Some) by {
        let f = pick_gone(after);
        rows::lemma_gather_members(before, f, x.rid());
        let i = choose|i: int| 0 <= i < before.len() && before[i] == x;
        if db::by_id(after, x.rid()) is None {
            assert(f(before[i]) == seq![x.rid()]);
            assert(f(before[i])[0] == x.rid());
            assert(f(before[i]).contains(x.rid()));
        } else if gone(before, after).contains(x.rid()) {
            let j = choose|j: int| 0 <= j < before.len() && f(#[trigger] before[j]).contains(x.rid());
            assert(before[j].rid() == x.rid());
        }
    }
    assert forall|x: T| #[trigger] kept.contains(x) <==> head.contains(x) by {
        rows::lemma_keep_members(before, p, x);
        if kept.contains(x) {
            growth::lemma_by_id_found(after, x.rid());
            let y = db::by_id(after, x.rid()).unwrap();
            let i = choose|i: int| 0 <= i < after.len() && after[i] == y;
            let j = choose|j: int| 0 <= j < before.len() && before[j] == x;
            assert(before[j].rid() == y.rid());
            assert(before.contains(y));
            growth::lemma_by_id_member(before, x);
            growth::lemma_by_id_member(before, y);
            if j < before.len() - 1 {
                assert(before[j].rid() < before[before.len() - 1].rid());
            }
            assert(i < k);
            assert(head[i] == x);
        }
        if head.contains(x) {
            let i = choose|i: int| 0 <= i < head.len() && head[i] == x;
            assert(after[i] == x);
            assert(after.contains(x));
            if !before.contains(x) {
                assert(before[before.len() - 1].rid() < x.rid());
            }
            growth::lemma_by_id_member(after, x);
        }
    }
    assert(db::ascending(head)) by {
        assert forall|i: int, j: int| 0 <= i < j < head.len() implies (#[trigger] head[i]).rid() < (
        #[trigger] head[j]).rid() by {
            assert(after[i].rid() < after[j].rid());
        }
    }
    lemma_same_rows(kept, head);
    assert(after =~= head + after.skip(k));
}

/// The relations of `before` whose occurrence `after` has.
pub open spec fn staying(before: GraphV, after: GraphV) -> Seq<RelationRow> {
    rows::keep(
        before.relations,
        |r: RelationRow| db::by_id(after.occurrences, r.occ_id) is Some,
    )
}

/// A relation belongs to an occurrence that is gone exactly where `after` does not
/// have the occurrence.
proof fn lemma_gone_occurrence(before: GraphV, after: GraphV, r: RelationRow)
    requires
        growth::sound(before),
        before.relations.contains(r),
    ensures
        gone(before.occurrences, after.occurrences).contains(r.occ_id) <==> db::by_id(
            after.occurrences,
            r.occ_id,
        ) is None,
{
    let f = pick_gone(after.occurrences);
    let occs = before.occurrences;
    rows::lemma_gather_members(occs, f, r.occ_id);
    let i = choose|i: int| 0 <= i < before.relations.len() && before.relations[i] == r;
    assert(db::by_id(occs, before.relations[i].occ_id) is Some);
    growth::lemma_by_id_found(occs, r.occ_id);
    let o = db::by_id(occs, r.occ_id).unwrap();
    let k = choose|k: int| 0 <= k < occs.len() && occs[k] == o;
    if db::by_id(after.occurrences, r.occ_id) is None {
        assert(f(occs[k])[0] == r.occ_id);
        assert(f(occs[k]).contains(r.occ_id));
    } else if gone(occs, after.occurrences).contains(r.occ_id) {
        let j = choose|j: int| 0 <= j < occs.len() && f(#[trigger] occs[j]).contains(r.occ_id);
        assert(occs[j].rid() == r.occ_id);
    }
}

/// The relations that a graph has after rows were added and the dead were
/// removed.
proof fn lemma_relations_after(a: GraphV, c: GraphV, b: GraphV)
    requires
        growth::sound(a),
        growth::sound(c),
        growth::grown(a, c),
        b == c || b == merge::collected(c),
    ensures
        b.relations == staying(a, b) + rows::gather(
            b.relations,
            pick_new(last_id(a.occurrences)),
        ),
        staying(a, b) == rows::keep(
            a.relations,
            |r: RelationRow| !gone(a.occurrences, b.occurrences).contains(r.occ_id),
        ),
{
    let stays = |r: RelationRow| db::by_id(b.occurrences, r.occ_id) is Some;
    let p = |r: RelationRow| !gone(a.occurrences, b.occurrences).contains(r.occ_id);
    let f = pick_new(last_id(a.occurrences));
    let n = a.relations.len() as int;
    let added = c.relations.skip(n);
    assert(c.relations =~= a.relations + added);
    lemma_stay(c, b);
    rows::lemma_gather_concat(a.relations, added, rows::pick(stays));
    let old_rows = rows::keep(a.relations, stays);
    let new_rows = rows::keep(added, stays);
    assert(b.relations == old_rows + new_rows);
    assert forall|i: int| 0 <= i < a.relations.len() implies rows::pick(stays)(
        #[trigger] a.relations[i],
    ) == rows::pick(p)(a.relations[i]) by {
        assert(a.relations.contains(a.relations[i]));
        lemma_gone_occurrence(a, b, a.relations[i]);
    }
    rows::lemma_gather_same(a.relations, rows::pick(stays), rows::pick(p));
    rows::lemma_gather_concat(old_rows, new_rows, f);
    assert forall|i: int| 0 <= i < old_rows.len() implies f(#[trigger] old_rows[i]) == Seq::<
        RelationRow,
    >::empty() by {
        let r = old_rows[i];
        assert(old_rows.contains(r));
        rows::lemma_keep_members(a.relations, stays, r);
        let k = choose|k: int| 0 <= k < a.relations.len() && a.relations[k] == r;
        assert(db::by_id(a.occurrences, a.relations[k].occ_id) is Some);
        lemma_known_id(a.occurrences, r.occ_id);
    }
    rows::lemma_gather_nothing(old_rows, f);
    let any = |r: RelationRow| true;
    assert forall|i: int| 0 <= i < new_rows.len() implies f(#[trigger] new_rows[i]) == rows::pick(
        any,
    )(new_rows[i]) by {
        let r = new_rows[i];
        assert(new_rows.contains(r));
        rows::lemma_keep_members(added, stays, r);
        let k = choose|k: int| 0 <= k < added.len() && added[k] == r;
        assert(c.relations[n + k] == r);
        assert(db::by_id(a.occurrences, c.relations[n + k].occ_id) is None);
        assert(db::by_id(c.occurrences, c.relations[n + k].occ_id) is Some);
        lemma_new_id(a.occurrences, c.occurrences, r.occ_id);
    }
    rows::lemma_gather_same(new_rows, f, rows::pick(any));
    rows::lemma_keep_all(new_rows, any);
    assert(rows::gather(b.relations, f) =~= new_rows);
}

/// An id of a table is not above its last.
proof fn lemma_known_id<T: HasId>(s: Seq<T>, id: i64)
    requires
        db::ascending(s),
        db::by_id(s, id) is Some,
    ensures
        s.len() > 0,
        id <= s.last().rid(),
{
    growth::lemma_by_id_found(s, id);
    let x = db::by_id(s, id).unwrap();
    let k = choose|k: int| 0 <= k < s.len() && s[k] == x;
    if k < s.len() - 1 {
        assert(s[k].rid() < s[s.len() - 1].rid());
    }
}

/// An id that was added to a table is above all that it had.
proof fn lemma_new_id<T: HasId>(a: Seq<T>, b: Seq<T>, id: i64)
    requires
        growth::starts(a, b),
        db::ascending(b),
        db::by_id(a, id) is None,
        db::by_id(b, id) is Some,
    ensures
        a.len() > 0 ==> a.last().rid() < id,
{
    growth::lemma_by_id_found(b, id);
    let x = db::by_id(b, id).unwrap();
    let k = choose|k: int| 0 <= k < b.len() && b[k] == x;
    if k < a.len() {
        assert(a[k] == b[k]);
        assert(db::has_id_at(a, id, k));
    }
    if a.len() > 0 {
        assert(b[a.len() - 1] == a[a.len() - 1]);
        assert(b[a.len() - 1].rid() < b[k].rid());
    }
}

/// Removing what is left over keeps the relations whose occurrence stays.
proof fn lemma_stay(c: GraphV, b: GraphV)
    requires
        growth::sound(c),
        b == c || b == merge::collected(c),
    ensures
        b.relations == rows::keep(
            c.relations,
            |r: RelationRow| db::by_id(b.occurrences, r.occ_id) is Some,
        ),
{
    let stays = |r: RelationRow| db::by_id(b.occurrences, r.occ_id) is Some;
    if b == c {
        assert forall|i: int| 0 <= i < c.relations.len() implies stays(
            #[trigger] c.relations[i],
        ) by {
            assert(db::by_id(c.occurrences, c.relations[i].occ_id) is Some);
        }
        rows::lemma_keep_all(c.relations, stays);
    } else {
        let alive = |r: RelationRow| !merge::is_dead_relation(c, r);
        let po = |o: OccRow| !merge::is_dead(c, o.record_id);
        assert forall|i: int| 0 <= i < c.relations.len() implies rows::pick(alive)(
            #[trigger] c.relations[i],
        ) == rows::pick(stays)(c.relations[i]) by {
            let r = c.relations[i];
            assert(db::by_id(c.occurrences, c.relations[i].occ_id) is Some);
            let o = db::by_id(c.occurrences, r.occ_id).unwrap();
            growth::lemma_by_id_found(c.occurrences, r.occ_id);
            if po(o) {
                growth::lemma_by_id_keep(c.occurrences, po, r.occ_id);
            } else if db::by_id(b.occurrences, r.occ_id) is Some {
                growth::lemma_by_id_found(b.occurrences, r.occ_id);
                let x = db::by_id(b.occurrences, r.occ_id).unwrap();
                rows::lemma_keep_members(c.occurrences, po, x);
                growth::lemma_by_id_member(c.occurrences, x);
            }
        }
        rows::lemma_gather_same(c.relations, rows::pick(alive), rows::pick(stays));
    }
}

/// After a merge, the relations that were there and whose occurrence stays, and
/// behind them those that are new, are all relations, in their order and with
/// their repeats. Those that were there and do not stay are those of the
/// occurrences that are gone.
pub proof fn law_changes_make_the_relations(g: GraphV, snap: SnapshotV, full: bool)
    requires
        growth::sound(merge::base(g, full)),
        merge::merged(g, snap, full) is Ok,
    ensures
        ({
            let before = merge::base(g, full);
            let after = merge::merged(g, snap, full)->Ok_0.graph;
            &&& after.relations == staying(before, after) + rows::gather(
                after.relations,
                pick_new(last_id(before.occurrences)),
            )
            &&& staying(before, after) == rows::keep(
                before.relations,
                |r: RelationRow|
                    !gone(before.occurrences, after.occurrences).contains(r.occ_id),
            )
        }),
{
    let a = merge::base(g, full);
    let c = laws::filled(g, snap, full)->Ok_0.graph;
    laws::lemma_filled_grown(g, snap, full);
    lemma_relations_after(a, c, merge::merged(g, snap, full)->Ok_0.graph);
}

/// Which ids of units are among those that are gone.
proof fn lemma_gone_unit(before: Seq<UnitV>, after: Seq<UnitV>, id: i64)
    requires
        db::ascending(before),
        db::by_id(before, id) is Some,
    ensures
        rows::gather(before, pick_gone_unit(before, after)).contains(id) <==> !unit_stays(
            before,
            after,
            id,
        ),
{
    let f = pick_gone_unit(before, after);
    rows::lemma_gather_members(before, f, id);
    growth::lemma_by_id_found(before, id);
    let u = db::by_id(before, id).unwrap();
    let k = choose|k: int| 0 <= k < before.len() && before[k] == u;
    if !unit_stays(before, after, id) {
        assert(f(before[k])[0] == id);
        assert(f(before[k]).contains(id));
    }
}

/// Removing the units that are gone and adding those that are new makes the
/// table.
pub proof fn law_changes_make_the_units(before: Seq<UnitV>, after: Seq<UnitV>, u: UnitV)
    requires
        db::ascending(before),
        db::ascending(after),
    ensures
        after.contains(u) <==> (before.contains(u) && !rows::gather(
            before,
            pick_gone_unit(before, after),
        ).contains(u.id)) || rows::gather(after, pick_new_unit(before, after)).contains(u),
{
    let h = pick_new_unit(before, after);
    rows::lemma_gather_members(after, h, u);
    if before.contains(u) {
        growth::lemma_by_id_member(before, u);
        lemma_gone_unit(before, after, u.id);
        if unit_stays(before, after, u.id) {
            growth::lemma_by_id_found(after, u.id);
        }
    }
    if after.contains(u) {
        growth::lemma_by_id_member(after, u);
        if unit_stays(before, after, u.id) {
            growth::lemma_by_id_found(before, u.id);
        } else {
            let k = choose|k: int| 0 <= k < after.len() && after[k] == u;
            assert(h(after[k])[0] == u);
            assert(h(after[k]).contains(u));
        }
    }
}

/// After a merge, removing the links of units that are gone and adding those of
/// units that are new makes the table of links.
pub proof fn law_changes_make_the_links(
    g: GraphV,
    snap: SnapshotV,
    full: bool,
    l: LinkRow,
)
    requires
        growth::sound(merge::base(g, full)),
        merge::merged(g, snap, full) is Ok,
    ensures
        ({
            let before = merge::base(g, full);
            let after = merge::merged(g, snap, full)->Ok_0.graph;
            after.links.contains(l) <==> (before.links.contains(l) && !rows::gather(
                before.units,
                pick_gone_unit(before.units, after.units),
            ).contains(l.unit_id)) || rows::gather(
                after.links,
                pick_new_link(before.units, after.units),
            ).contains(l)
        }),
{
    let a = merge::base(g, full);
    let b = merge::merged(g, snap, full)->Ok_0.graph;
    let q = pick_new_link(a.units, b.units);
    rows::lemma_gather_members(b.links, q, l);
    assert(l == (LinkRow { unit_id: l.unit_id, record_id: l.record_id }));
    let stays = unit_stays(a.units, b.units, l.unit_id);
    if stays {
        let u = db::by_id(a.units, l.unit_id).unwrap();
        growth::lemma_by_id_found(a.units, l.unit_id);
        growth::lemma_by_id_found(b.units, l.unit_id);
        laws::law_units_that_stay_keep_their_records(g, snap, full, u);
        assert(a.links.contains(LinkRow { unit_id: u.id, record_id: l.record_id })
            <==> b.links.contains(LinkRow { unit_id: u.id, record_id: l.record_id }));
    }
    if a.links.contains(l) {
        let i = choose|i: int| 0 <= i < a.links.len() && a.links[i] == l;
        assert(db::by_id(a.units, a.links[i].unit_id) is Some);
    }
    if db::by_id(a.units, l.unit_id) is Some {
        lemma_gone_unit(a.units, b.units, l.unit_id);
    }
    if b.links.contains(l) && !stays {
        let k = choose|k: int| 0 <= k < b.links.len() && b.links[k] == l;
        assert(q(b.links[k])[0] == l);
        assert(q(b.links[k]).contains(l));
    }
}

} // verus!
