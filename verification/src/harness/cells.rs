//! Cells: rows grouped by task and track, in the order of their names.

use vstd::prelude::*;
use vstd::utf8::*;

use super::metrics::Record;
use super::experiment;
use crate::tasks::{Instance, InstanceModel, Track};

verus! {

/// What names a cell: the bytes of its task's name, and its track.
#[verifier::ext_equal]
pub struct CellName {
    pub task: Seq<u8>,
    pub track: Track,
}

/// The name of a cell.
#[derive(Debug)]
pub struct CellKey {
    pub task: String,
    pub track: Track,
}

impl View for CellKey {
    type V = CellName;

    open spec fn view(&self) -> CellName {
        CellName { task: encode_utf8(self.task@), track: self.track }
    }
}

impl Clone for CellKey {
    fn clone(&self) -> (r: Self)
        ensures
            r@ == self@,
    {
        CellKey { task: self.task.clone(), track: self.track }
    }
}

/// Lexicographic order of byte strings.
pub open spec fn bytes_before(a: Seq<u8>, b: Seq<u8>) -> bool
    decreases a.len(),
{
    if b.len() == 0 {
        false
    } else if a.len() == 0 {
        true
    } else if a[0] != b[0] {
        a[0] < b[0]
    } else {
        bytes_before(a.drop_first(), b.drop_first())
    }
}

/// Cells are ordered by task, and by track within a task.
pub open spec fn comes_before(a: CellName, b: CellName) -> bool {
    if a.task == b.task {
        a.track == Track::A && b.track == Track::B
    } else {
        bytes_before(a.task, b.task)
    }
}

/// Of two byte strings exactly one comes before the other, unless they are the
/// same.
proof fn lemma_bytes_trichotomy(a: Seq<u8>, b: Seq<u8>)
    ensures
        a == b ==> !bytes_before(a, b),
        a != b ==> (bytes_before(a, b) != bytes_before(b, a)),
    decreases a.len(),
{
    if a.len() == 0 || b.len() == 0 {
        if a.len() == 0 && b.len() == 0 {
            assert(a =~= b);
        }
    } else if a[0] == b[0] {
        lemma_bytes_trichotomy(a.drop_first(), b.drop_first());
        if a.drop_first() == b.drop_first() {
            assert forall|i: int| 0 <= i < a.len() implies a[i] == b[i] by {
                if i > 0 {
                    assert(a[i] == a.drop_first()[i - 1]);
                    assert(b[i] == b.drop_first()[i - 1]);
                }
            }
            assert(a =~= b);
        } else {
            assert(a != b);
        }
    }
}

proof fn lemma_bytes_transitive(a: Seq<u8>, b: Seq<u8>, c: Seq<u8>)
    requires
        bytes_before(a, b),
        bytes_before(b, c),
    ensures
        bytes_before(a, c),
    decreases a.len(),
{
    if a.len() > 0 && a[0] == b[0] && b[0] == c[0] {
        lemma_bytes_transitive(a.drop_first(), b.drop_first(), c.drop_first());
    }
}

/// The order of cells is a strict total order.
pub proof fn lemma_cell_order(a: CellName, b: CellName, c: CellName)
    ensures
        !comes_before(a, a),
        a != b ==> (comes_before(a, b) != comes_before(b, a)),
        comes_before(a, b) && comes_before(b, c) ==> comes_before(a, c),
{
    lemma_bytes_trichotomy(a.task, b.task);
    lemma_bytes_trichotomy(b.task, c.task);
    lemma_bytes_trichotomy(a.task, c.task);
    if comes_before(a, b) && comes_before(b, c) && a.task != b.task && b.task != c.task {
        lemma_bytes_transitive(a.task, b.task, c.task);
        if a.task == c.task {
            lemma_bytes_trichotomy(b.task, a.task);
        }
    }
}

/// `names` with `k` put in its place, unless it is there.
pub open spec fn placed(names: Seq<CellName>, k: CellName) -> Seq<CellName>
    decreases names.len(),
{
    if names.len() == 0 {
        seq![k]
    } else if comes_before(names[0], k) {
        seq![names[0]] + placed(names.drop_first(), k)
    } else if names[0] == k {
        names
    } else {
        seq![k] + names
    }
}

/// The cells that occur among `rows`, in their order.
pub open spec fn cells_of(rows: Seq<CellName>) -> Seq<CellName>
    decreases rows.len(),
{
    if rows.len() == 0 {
        Seq::empty()
    } else {
        placed(cells_of(rows.drop_last()), rows.last())
    }
}

/// The positions of the rows of cell `k`, from the first on.
pub open spec fn rows_in(rows: Seq<CellName>, k: CellName) -> Seq<int>
    decreases rows.len(),
{
    if rows.len() == 0 {
        Seq::empty()
    } else if rows.last() == k {
        rows_in(rows.drop_last(), k).push(rows.len() - 1)
    } else {
        rows_in(rows.drop_last(), k)
    }
}

/// Whether cells stand strictly in order.
pub open spec fn in_order(names: Seq<CellName>) -> bool {
    forall|i: int, j: int|
        0 <= i < j < names.len() ==> comes_before(#[trigger] names[i], #[trigger] names[j])
}

proof fn lemma_placed(names: Seq<CellName>, k: CellName)
    requires
        in_order(names),
    ensures
        in_order(placed(names, k)),
        forall|x: CellName| #[trigger]
            placed(names, k).contains(x) <==> x == k || names.contains(x),
    decreases names.len(),
{
    let out = placed(names, k);
    if names.len() == 0 {
        assert(out[0] == k);
    } else if comes_before(names[0], k) {
        let rest = names.drop_first();
        assert(in_order(rest)) by {
            assert forall|i: int, j: int| 0 <= i < j < rest.len() implies comes_before(
                #[trigger] rest[i],
                #[trigger] rest[j],
            ) by {
                assert(rest[i] == names[i + 1] && rest[j] == names[j + 1]);
            }
        }
        lemma_placed(rest, k);
        let tail = placed(rest, k);
        assert(out[0] == names[0]);
        assert forall|j: int| 0 < j < out.len() implies out[j] == tail[j - 1] by {}
        assert forall|x: CellName| #[trigger] out.contains(x) <==> x == k || names.contains(x) by {
            if out.contains(x) {
                let i = choose|i: int| 0 <= i < out.len() && out[i] == x;
                if i > 0 {
                    assert(tail[i - 1] == x);
                    assert(tail.contains(x));
                    if rest.contains(x) {
                        let n = choose|n: int| 0 <= n < rest.len() && rest[n] == x;
                        assert(names[n + 1] == x);
                    }
                } else {
                    assert(names[0] == x);
                }
            }
            if names.contains(x) || x == k {
                if x == names[0] {
                    assert(out[0] == x);
                } else {
                    if names.contains(x) {
                        let n = choose|n: int| 0 <= n < names.len() && names[n] == x;
                        assert(rest[n - 1] == x);
                    }
                    assert(tail.contains(x));
                    let i = choose|i: int| 0 <= i < tail.len() && tail[i] == x;
                    assert(out[i + 1] == x);
                }
            }
        }
        assert forall|i: int, j: int| 0 <= i < j < out.len() implies comes_before(
            #[trigger] out[i],
            #[trigger] out[j],
        ) by {
            assert(out[j] == tail[j - 1]);
            if i > 0 {
                assert(out[i] == tail[i - 1]);
            } else {
                assert(tail.contains(out[j]));
                if out[j] != k {
                    let n = choose|n: int| 0 <= n < rest.len() && rest[n] == out[j];
                    assert(names[n + 1] == out[j]);
                }
            }
        }
    } else if names[0] == k {
        assert(names.contains(k));
    } else {
        assert(out[0] == k);
        assert forall|j: int| 0 < j < out.len() implies out[j] == names[j - 1] by {}
        lemma_cell_order(names[0], k, k);
        assert forall|i: int, j: int| 0 <= i < j < out.len() implies comes_before(
            #[trigger] out[i],
            #[trigger] out[j],
        ) by {
            assert(out[j] == names[j - 1]);
            if i > 0 {
                assert(out[i] == names[i - 1]);
            } else {
                lemma_cell_order(k, names[0], names[j - 1]);
            }
        }
        assert forall|x: CellName| #[trigger] out.contains(x) <==> x == k || names.contains(x) by {
            if names.contains(x) {
                let n = choose|n: int| 0 <= n < names.len() && names[n] == x;
                assert(out[n + 1] == x);
            }
            if out.contains(x) {
                let i = choose|i: int| 0 <= i < out.len() && out[i] == x;
                if i > 0 {
                    assert(names[i - 1] == x);
                }
            }
        }
    }
}

/// The cells of some rows stand strictly in order, and they are exactly those
/// that some row is in.
pub proof fn lemma_cells_of(rows: Seq<CellName>)
    ensures
        in_order(cells_of(rows)),
        forall|x: CellName| #[trigger] cells_of(rows).contains(x) <==> rows.contains(x),
    decreases rows.len(),
{
    if rows.len() > 0 {
        let front = rows.drop_last();
        lemma_cells_of(front);
        lemma_placed(cells_of(front), rows.last());
        assert forall|x: CellName| #[trigger] cells_of(rows).contains(x) <==> rows.contains(x) by {
            if rows.contains(x) && x != rows.last() {
                let i = choose|i: int| 0 <= i < rows.len() && rows[i] == x;
                assert(front[i] == x);
            }
            if front.contains(x) {
                let i = choose|i: int| 0 <= i < front.len() && front[i] == x;
                assert(rows[i] == x);
            }
            if x == rows.last() {
                assert(rows[rows.len() - 1] == x);
            }
        }
    }
}

/// The rows of a cell are exactly the positions where its name stands,
/// ascending.
pub proof fn lemma_rows_in(rows: Seq<CellName>, k: CellName)
    ensures
        forall|i: int|
            0 <= i < rows_in(rows, k).len() ==> 0 <= #[trigger] rows_in(rows, k)[i] < rows.len()
                && rows[rows_in(rows, k)[i]] == k,
        forall|i: int, j: int|
            0 <= i < j < rows_in(rows, k).len() ==> #[trigger] rows_in(rows, k)[i]
                < #[trigger] rows_in(rows, k)[j],
        forall|p: int|
            0 <= p < rows.len() && #[trigger] rows[p] == k ==> rows_in(rows, k).contains(p),
    decreases rows.len(),
{
    if rows.len() > 0 {
        let front = rows.drop_last();
        let before = rows_in(front, k);
        let all = rows_in(rows, k);
        lemma_rows_in(front, k);
        assert forall|i: int| 0 <= i < all.len() implies 0 <= #[trigger] all[i] < rows.len()
            && rows[all[i]] == k by {
            if i < before.len() {
                assert(all[i] == before[i]);
                assert(front[before[i]] == k);
            }
        }
        assert forall|i: int, j: int| 0 <= i < j < all.len() implies #[trigger] all[i]
            < #[trigger] all[j] by {
            assert(all[i] == before[i]);
            if j < before.len() {
                assert(all[j] == before[j]);
            }
        }
        assert forall|p: int| 0 <= p < rows.len() && #[trigger] rows[p] == k implies all.contains(
            p,
        ) by {
            if p < front.len() {
                assert(front[p] == k);
                let i = choose|i: int| 0 <= i < before.len() && before[i] == p;
                assert(all[i] == p);
            } else {
                assert(all[all.len() - 1] == p);
            }
        }
    }
}

/// Whether one byte string comes before another.
fn precedes(a: &[u8], b: &[u8]) -> (r: bool)
    ensures
        r == bytes_before(a@, b@),
{
    let mut i: usize = 0;
    assert(a@.skip(0) =~= a@);
    assert(b@.skip(0) =~= b@);
    while i < a.len() && i < b.len()
        invariant
            i <= a@.len(),
            i <= b@.len(),
            bytes_before(a@, b@) == bytes_before(a@.skip(i as int), b@.skip(i as int)),
        decreases a@.len() - i,
    {
        if a[i] != b[i] {
            return a[i] < b[i];
        }
        assert(a@.skip(i as int).drop_first() =~= a@.skip(i + 1));
        assert(b@.skip(i as int).drop_first() =~= b@.skip(i + 1));
        i = i + 1;
    }
    i < b.len()
}

impl CellKey {
    /// Whether two names are the same cell's.
    pub fn same(&self, other: &CellKey) -> (r: bool)
        ensures
            r == (self@ == other@),
    {
        let a: Vec<u8> = crate::text::bytes_of(self.task.as_str());
        let b: Vec<u8> = crate::text::bytes_of(other.task.as_str());
        crate::text::same_bytes(&a, &b) && self.track == other.track
    }

    /// Whether this cell comes before another.
    pub fn before(&self, other: &CellKey) -> (r: bool)
        ensures
            r == comes_before(self@, other@),
    {
        let a: Vec<u8> = crate::text::bytes_of(self.task.as_str());
        let b: Vec<u8> = crate::text::bytes_of(other.task.as_str());
        if crate::text::same_bytes(&a, &b) {
            self.track == Track::A && other.track == Track::B
        } else {
            precedes(&a, &b)
        }
    }
}

/// The names of keys.
pub open spec fn names_of(keys: Seq<CellKey>) -> Seq<CellName> {
    keys.map_values(|k: CellKey| k@)
}

/// Puts `k` in its place among `keys`, unless it is there.
fn place(keys: &mut Vec<CellKey>, k: &CellKey)
    ensures
        names_of(final(keys)@) == placed(names_of(old(keys)@), k@),
{
    let ghost all = names_of(keys@);
    let n: usize = keys.len();
    let mut j: usize = 0;
    assert(all.take(0) + placed(all.skip(0), k@) =~= placed(all, k@)) by {
        assert(all.skip(0) =~= all);
    }
    while j < n
        invariant
            j <= n == keys@.len(),
            keys@ == old(keys)@,
            all == names_of(keys@),
            placed(all, k@) == all.take(j as int) + placed(all.skip(j as int), k@),
        decreases n - j,
    {
        assert(all.skip(j as int)[0] == keys@[j as int]@);
        if !keys[j].before(k) {
            if keys[j].same(k) {
                assert(all.take(j as int) + all.skip(j as int) =~= all);
            } else {
                keys.insert(j, k.clone());
                assert(names_of(keys@) =~= all.take(j as int) + (seq![k@] + all.skip(j as int)));
            }
            return;
        }
        proof {
            let rest = all.skip(j as int);
            assert(rest.drop_first() =~= all.skip(j + 1));
            assert(all.take(j as int) + (seq![rest[0]] + placed(all.skip(j + 1), k@)) =~= all.take(
                j + 1,
            ) + placed(all.skip(j + 1), k@));
        }
        j = j + 1;
    }
    keys.push(k.clone());
    assert(all.skip(j as int) =~= Seq::<CellName>::empty());
    assert(names_of(keys@) =~= all.take(j as int) + seq![k@]);
}

/// The cells that occur among `rows`, in their order.
pub fn cell_keys(rows: &Vec<CellKey>) -> (r: Vec<CellKey>)
    ensures
        names_of(r@) == cells_of(names_of(rows@)),
{
    let ghost all = names_of(rows@);
    let mut keys: Vec<CellKey> = Vec::new();
    let mut i: usize = 0;
    assert(names_of(keys@) =~= cells_of(all.take(0)));
    while i < rows.len()
        invariant
            i <= rows@.len(),
            all == names_of(rows@),
            names_of(keys@) == cells_of(all.take(i as int)),
        decreases rows@.len() - i,
    {
        assert(all.take(i + 1).drop_last() =~= all.take(i as int));
        place(&mut keys, &rows[i]);
        i = i + 1;
    }
    assert(all.take(i as int) =~= all);
    keys
}

/// Positions as integers.
pub open spec fn positions(rows: Seq<usize>) -> Seq<int> {
    rows.map_values(|p: usize| p as int)
}

/// The positions of the rows of cell `k`.
pub fn cell_rows(rows: &Vec<CellKey>, k: &CellKey) -> (r: Vec<usize>)
    ensures
        positions(r@) == rows_in(names_of(rows@), k@),
{
    let ghost all = names_of(rows@);
    let mut out: Vec<usize> = Vec::new();
    let mut i: usize = 0;
    assert(positions(out@) =~= rows_in(all.take(0), k@));
    while i < rows.len()
        invariant
            i <= rows@.len(),
            all == names_of(rows@),
            positions(out@) == rows_in(all.take(i as int), k@),
        decreases rows@.len() - i,
    {
        assert(all.take(i + 1).drop_last() =~= all.take(i as int));
        if rows[i].same(k) {
            let ghost before = out@;
            out.push(i);
            assert(positions(out@) =~= positions(before).push(i as int));
        }
        i = i + 1;
    }
    assert(all.take(i as int) =~= all);
    out
}

/// The cell names of a pool.
pub open spec fn pool_names(pool: Seq<InstanceModel>) -> Seq<CellName> {
    pool.map_values(|x: InstanceModel| CellName { task: encode_utf8(x.task), track: x.track })
}

/// The cell names of some records.
pub open spec fn record_names<H>(records: Seq<Record<H>>) -> Seq<CellName> {
    records.map_values(|r: Record<H>| CellName { task: encode_utf8(r.task@), track: r.track })
}

/// The cell of each instance of a pool.
pub fn pool_keys(pool: &[Instance]) -> (r: Vec<CellKey>)
    ensures
        names_of(r@) == pool_names(experiment::instance_models(pool@)),
{
    let ghost want = pool_names(experiment::instance_models(pool@));
    let mut out: Vec<CellKey> = Vec::new();
    let mut i: usize = 0;
    while i < pool.len()
        invariant
            i <= pool@.len(),
            want == pool_names(experiment::instance_models(pool@)),
            names_of(out@) =~= want.take(i as int),
        decreases pool@.len() - i,
    {
        let ghost before = out@;
        let key = CellKey { task: pool[i].info.task.to_string(), track: pool[i].info.track };
        assert(key@ == want[i as int]);
        out.push(key);
        assert(names_of(out@) =~= names_of(before).push(key@));
        i = i + 1;
    }
    out
}

/// The cell of each record.
pub fn record_keys<H>(records: &[Record<H>]) -> (r: Vec<CellKey>)
    ensures
        names_of(r@) == record_names(records@),
{
    let mut out: Vec<CellKey> = Vec::new();
    let mut i: usize = 0;
    while i < records.len()
        invariant
            i <= records@.len(),
            names_of(out@) =~= record_names(records@).take(i as int),
        decreases records@.len() - i,
    {
        let ghost before = out@;
        let key = CellKey { task: records[i].task.clone(), track: records[i].track };
        assert(key@ == record_names(records@)[i as int]);
        out.push(key);
        assert(names_of(out@) =~= names_of(before).push(key@));
        i = i + 1;
    }
    out
}

/// One cell of an evaluation: its name and the positions of its rows.
#[derive(Debug)]
pub struct Cell {
    pub key: CellKey,
    pub rows: Vec<usize>,
}

/// Groups records by task and track, in the order of the cells' names; within
/// a cell in the order of the records.
pub fn record_cells<H>(records: &[Record<H>]) -> (r: Vec<Cell>)
    ensures
        r@.map_values(|c: Cell| c.key@) == cells_of(record_names(records@)),
        forall|i: int|
            0 <= i < r@.len() ==> positions((#[trigger] r@[i]).rows@) == rows_in(
                record_names(records@),
                r@[i].key@,
            ),
{
    let rows: Vec<CellKey> = record_keys(records);
    let keys: Vec<CellKey> = cell_keys(&rows);
    let mut out: Vec<Cell> = Vec::new();
    let mut i: usize = 0;
    while i < keys.len()
        invariant
            i <= keys@.len(),
            names_of(rows@) == record_names(records@),
            out@.len() == i,
            forall|j: int| 0 <= j < i ==> (#[trigger] out@[j]).key@ == keys@[j]@,
            forall|j: int|
                0 <= j < i ==> positions((#[trigger] out@[j]).rows@) == rows_in(
                    record_names(records@),
                    out@[j].key@,
                ),
        decreases keys@.len() - i,
    {
        let members: Vec<usize> = cell_rows(&rows, &keys[i]);
        out.push(Cell { key: keys[i].clone(), rows: members });
        i = i + 1;
    }
    assert(out@.map_values(|c: Cell| c.key@) =~= names_of(keys@));
    out
}

/// One byte string comes before another exactly if they agree up to some place
/// and there the first one ends, or has the smaller byte, and the other one goes
/// on.
pub proof fn lemma_bytes_lexical(a: Seq<u8>, b: Seq<u8>)
    ensures
        bytes_before(a, b) <==> exists|n: int|
            0 <= n <= a.len() && n < b.len() && #[trigger] a.take(n) == b.take(n) && (n == a.len()
                || a[n] < b[n]),
    decreases a.len(),
{
    if bytes_before(a, b) {
        let n = lemma_bytes_differ(a, b);
        assert(a.take(n) == b.take(n));
    }
    if exists|n: int|
        0 <= n <= a.len() && n < b.len() && #[trigger] a.take(n) == b.take(n) && (n == a.len()
            || a[n] < b[n]) {
        let n = choose|n: int|
            0 <= n <= a.len() && n < b.len() && #[trigger] a.take(n) == b.take(n) && (n == a.len()
                || a[n] < b[n]);
        lemma_bytes_agree(a, b, n);
    }
}

proof fn lemma_bytes_differ(a: Seq<u8>, b: Seq<u8>) -> (n: int)
    requires
        bytes_before(a, b),
    ensures
        0 <= n <= a.len(),
        n < b.len(),
        a.take(n) == b.take(n),
        n == a.len() || a[n] < b[n],
    decreases a.len(),
{
    if a.len() == 0 || a[0] != b[0] {
        assert(a.take(0) =~= b.take(0));
        0
    } else {
        let (x, y) = (a.drop_first(), b.drop_first());
        let n = lemma_bytes_differ(x, y);
        assert(a.take(n + 1) =~= seq![a[0]] + x.take(n));
        assert(b.take(n + 1) =~= seq![b[0]] + y.take(n));
        n + 1
    }
}

proof fn lemma_bytes_agree(a: Seq<u8>, b: Seq<u8>, n: int)
    requires
        0 <= n <= a.len(),
        n < b.len(),
        a.take(n) == b.take(n),
        n == a.len() || a[n] < b[n],
    ensures
        bytes_before(a, b),
    decreases a.len(),
{
    if n > 0 {
        let (x, y) = (a.drop_first(), b.drop_first());
        assert(a.take(n)[0] == a[0] && b.take(n)[0] == b[0]);
        assert(x.take(n - 1) =~= a.take(n).drop_first());
        assert(y.take(n - 1) =~= b.take(n).drop_first());
        lemma_bytes_agree(x, y, n - 1);
    }
}

/// Cells go by their tasks' names; within a task track A comes before track B.
pub proof fn lemma_cells_by_name(a: CellName, b: CellName)
    ensures
        a.task != b.task ==> (comes_before(a, b) <==> bytes_before(a.task, b.task)),
        a.task == b.task ==> (comes_before(a, b) <==> a.track == Track::A && b.track == Track::B),
{
}

/// The cell of an instance, or of a record, is named after its task and its
/// track.
pub proof fn lemma_cells_named<H>(pool: Seq<InstanceModel>, records: Seq<Record<H>>, i: int)
    ensures
        pool_names(pool).len() == pool.len(),
        0 <= i < pool.len() ==> pool_names(pool)[i].task == encode_utf8(pool[i].task)
            && pool_names(pool)[i].track == pool[i].track,
        record_names(records).len() == records.len(),
        0 <= i < records.len() ==> record_names(records)[i].task == encode_utf8(records[i].task@)
            && record_names(records)[i].track == records[i].track,
{
}

} // verus!
