//! Keyed list reconciliation: the patch that turns the rows of one keyed
//! sequence into another, leaving the longest run of rows that are already in
//! order where they are.
use vstd::prelude::*;

verus! {

/// One step of a patch.
#[derive(Debug, Clone, Copy, PartialEq, Eq, Structural)]
pub enum PatchOp {
    /// A new row for `key`, with a fresh scope, at `index` of the new list.
    CreateRow { key: u64, index: usize },
    /// The existing row of `key` goes to `index` of the new list.
    MoveRow { key: u64, index: usize },
    /// The row of `key` and its scope are disposed of.
    RemoveRow { key: u64 },
}

/// Why a reconciliation was refused.
#[derive(Debug, Clone, Copy, PartialEq, Eq, Structural)]
pub enum ReconcileError {
    /// A key occurs twice in one of the two lists.
    DuplicateKey,
}

pub open spec fn unique(s: Seq<u64>) -> bool {
    forall|i: int, j: int| 0 <= i < j < s.len() ==> s[i] != s[j]
}

/// The index of `k` in `s`, or -1.
pub open spec fn pos_of(s: Seq<u64>, k: u64) -> int
    decreases s.len(),
{
    if s.len() == 0 {
        -1
    } else if s.last() == k {
        s.len() - 1
    } else {
        pos_of(s.drop_last(), k)
    }
}

/// `keep` picks rows present in both lists whose previous positions increase
/// along the new list: those rows need not move.
pub open spec fn valid_keep(prev: Seq<u64>, next: Seq<u64>, keep: Seq<bool>) -> bool {
    &&& keep.len() == next.len()
    &&& forall|i: int| 0 <= i < keep.len() && #[trigger] keep[i] ==> prev.contains(next[i])
    &&& forall|i: int, j: int|
        0 <= i < j < keep.len() && #[trigger] keep[i] && #[trigger] keep[j]
            ==> pos_of(prev, next[i]) < pos_of(prev, next[j])
}

/// The removals of rows whose key has gone, in previous order.
pub open spec fn removals(prev: Seq<u64>, next: Seq<u64>, n: int) -> Seq<PatchOp>
    decreases n,
{
    if n <= 0 {
        seq![]
    } else if next.contains(prev[n - 1]) {
        removals(prev, next, n - 1)
    } else {
        removals(prev, next, n - 1).push(PatchOp::RemoveRow { key: prev[n - 1] })
    }
}

/// The creations and moves for the first `n` positions of the new list.
pub open spec fn placements(prev: Seq<u64>, next: Seq<u64>, keep: Seq<bool>, n: int) -> Seq<PatchOp>
    decreases n,
{
    if n <= 0 {
        seq![]
    } else if !prev.contains(next[n - 1]) {
        placements(prev, next, keep, n - 1).push(PatchOp::CreateRow { key: next[n - 1], index: (n - 1) as usize })
    } else if keep[n - 1] {
        placements(prev, next, keep, n - 1)
    } else {
        placements(prev, next, keep, n - 1).push(PatchOp::MoveRow { key: next[n - 1], index: (n - 1) as usize })
    }
}

/// The whole patch for a choice of rows that stay.
pub open spec fn patch(prev: Seq<u64>, next: Seq<u64>, keep: Seq<bool>) -> Seq<PatchOp> {
    removals(prev, next, prev.len() as int) + placements(prev, next, keep, next.len() as int)
}

/// The number of rows that `keep` leaves in place.
pub open spec fn kept_count(keep: Seq<bool>) -> nat
    decreases keep.len(),
{
    if keep.len() == 0 {
        0
    } else {
        kept_count(keep.drop_last()) + if keep.last() { 1nat } else { 0nat }
    }
}

proof fn lemma_pos_of(s: Seq<u64>, k: u64)
    ensures
        -1 <= pos_of(s, k) < s.len(),
        pos_of(s, k) >= 0 ==> s[pos_of(s, k)] == k,
        pos_of(s, k) >= 0 <==> s.contains(k),
    decreases s.len(),
{
    if s.len() > 0 {
        lemma_pos_of(s.drop_last(), k);
        if s.last() != k {
            if s.contains(k) {
                let i = choose|i: int| 0 <= i < s.len() && s[i] == k;
                assert(s.drop_last()[i] == k);
            }
            if s.drop_last().contains(k) {
                let i = choose|i: int| 0 <= i < s.len() - 1 && s.drop_last()[i] == k;
                assert(s[i] == k);
            }
        } else {
            assert(s[s.len() - 1] == k);
        }
    }
}

proof fn lemma_pos_of_unique(s: Seq<u64>, i: int)
    requires
        unique(s),
        0 <= i < s.len(),
    ensures
        pos_of(s, s[i]) == i,
    decreases s.len(),
{
    if i < s.len() - 1 {
        lemma_pos_of_unique(s.drop_last(), i);
    }
}

/// Where `k` stands in `s`, found by a scan.
fn find_key(s: &Vec<u64>, k: u64) -> (r: Option<usize>)
    requires
        unique(s@),
    ensures
        match r {
            Some(i) => i < s@.len() && s@[i as int] == k && pos_of(s@, k) == i,
            None => !s@.contains(k) && pos_of(s@, k) == -1,
        },
{
    proof { lemma_pos_of(s@, k); }
    let mut i: usize = 0;
    while i < s.len()
        invariant
            unique(s@),
            i <= s@.len(),
            forall|j: int| 0 <= j < i ==> s@[j] != k,
        decreases s@.len() - i,
    {
        if s[i] == k {
            proof { lemma_pos_of_unique(s@, i as int); }
            return Some(i);
        }
        i = i + 1;
    }
    None
}

/// Whether every key of `s` is different from the others.
fn all_unique(s: &Vec<u64>) -> (r: bool)
    ensures
        r == unique(s@),
{
    let mut i: usize = 0;
    while i < s.len()
        invariant
            i <= s@.len(),
            forall|a: int, b: int| 0 <= a < b < s@.len() && a < i ==> s@[a] != s@[b],
        decreases s@.len() - i,
    {
        let mut j: usize = i + 1;
        while j < s.len()
            invariant
                i < j <= s@.len(),
                i < s@.len(),
                forall|a: int, b: int| 0 <= a < b < s@.len() && a < i ==> s@[a] != s@[b],
                forall|b: int| i < b < j ==> s@[i as int] != s@[b],
            decreases s@.len() - j,
        {
            if s[i] == s[j] {
                return false;
            }
            j = j + 1;
        }
        i = i + 1;
    }
    true
}

/// `lens[i]` bounds the length of every run of increasing previous positions
/// that ends at a present index `i` below `m`.
pub open spec fn dp_ok(op: Seq<Option<usize>>, lens: Seq<usize>, m: int) -> bool {
    &&& forall|i: int| 0 <= i < m && (#[trigger] op[i]) is Some ==> lens[i] >= 1
    &&& forall|j: int, i: int| #![trigger lens[j], lens[i]]
        0 <= j < i < m && op[j] is Some && op[i] is Some && op[j]->0 < op[i]->0 ==> lens[i] >= lens[j] + 1
}

/// Following `pred` from a present index walks a run of exactly `lens` rows.
pub open spec fn pred_ok(op: Seq<Option<usize>>, lens: Seq<usize>, pred: Seq<Option<usize>>, m: int) -> bool {
    forall|k: int| 0 <= k < m && (#[trigger] op[k]) is Some ==> (pred[k] is None && lens[k] == 1) || (
    pred[k] is Some && pred[k]->0 < k && lens[pred[k]->0 as int] + 1 == lens[k])
}

proof fn lemma_count_set(s: Seq<bool>, i: int)
    requires
        0 <= i < s.len(),
        !s[i],
    ensures
        kept_count(s.update(i, true)) == kept_count(s) + 1,
    decreases s.len(),
{
    if i == s.len() - 1 {
        assert(s.update(i, true).drop_last() =~= s.drop_last());
    } else {
        lemma_count_set(s.drop_last(), i);
        assert(s.update(i, true).drop_last() =~= s.drop_last().update(i, true));
    }
}

/// No valid choice of rows to keep beats the run lengths: the rows that a
/// valid `keep` picks among the first `m` are at most `lens[w]` for a picked `w`.
proof fn lemma_chain_bound(
    prev: Seq<u64>,
    next: Seq<u64>,
    op: Seq<Option<usize>>,
    lens: Seq<usize>,
    keep: Seq<bool>,
    m: int,
) -> (w: int)
    requires
        valid_keep(prev, next, keep),
        op.len() == next.len(),
        lens.len() == next.len(),
        prev.len() <= usize::MAX,
        forall|k: int| 0 <= k < next.len() ==> #[trigger] op[k] == as_index(pos_of(prev, next[k])),
        dp_ok(op, lens, next.len() as int),
        0 <= m <= next.len(),
    ensures
        kept_count(keep.take(m)) == 0 || (0 <= w < m && keep[w] && kept_count(keep.take(m)) <= lens[w]),
    decreases m,
{
    if m == 0 {
        assert(keep.take(0) =~= Seq::<bool>::empty());
        0
    } else {
        let w0 = lemma_chain_bound(prev, next, op, lens, keep, m - 1);
        assert(keep.take(m).drop_last() =~= keep.take(m - 1));
        assert(keep.take(m).last() == keep[m - 1]);
        if keep[m - 1] {
            lemma_pos_of(prev, next[m - 1]);
            assert(op[m - 1] == as_index(pos_of(prev, next[m - 1])));
            if kept_count(keep.take(m - 1)) > 0 {
                lemma_pos_of(prev, next[w0]);
                assert(op[w0] == as_index(pos_of(prev, next[w0])));
                assert(pos_of(prev, next[w0]) < pos_of(prev, next[m - 1]));
                assert(lens[m - 1] >= lens[w0] + 1);
            }
            m - 1
        } else {
            w0
        }
    }
}

pub open spec fn as_index(x: int) -> Option<usize> {
    if x >= 0 {
        Some(x as usize)
    } else {
        None
    }
}

/// Reconciles the keys of the rows on screen, `previous`, with the keys the
/// list now holds, `next`: rows whose key has gone are removed, rows for new
/// keys are created, and of the rows kept, a longest run whose previous
/// positions already increase stays put while the others move, so that no
/// valid patch moves fewer rows.
pub fn reconcile_keyed_list(previous: &Vec<u64>, next: &Vec<u64>) -> (r: Result<Vec<PatchOp>, ReconcileError>)
    ensures
        !(unique(previous@) && unique(next@)) <==> r == Err::<Vec<PatchOp>, ReconcileError>(
            ReconcileError::DuplicateKey,
        ),
        r is Ok ==> exists|keep: Seq<bool>|
            valid_keep(previous@, next@, keep) && r->Ok_0@ == #[trigger] patch(previous@, next@, keep)
                && forall|other: Seq<bool>| #[trigger] valid_keep(previous@, next@, other)
                    ==> kept_count(other) <= kept_count(keep),
{
    if !all_unique(previous) || !all_unique(next) {
        return Err(ReconcileError::DuplicateKey);
    }
    let n = next.len();
    // previous position of each new key
    let mut old_pos: Vec<Option<usize>> = Vec::new();
    let mut i: usize = 0;
    while i < n
        invariant
            n == next@.len(),
            unique(previous@),
            i <= n,
            old_pos@.len() == i,
            forall|k: int| 0 <= k < i ==> #[trigger] old_pos@[k] == as_index(pos_of(previous@, next@[k])),
        decreases n - i,
    {
        old_pos.push(find_key(previous, next[i]));
        i = i + 1;
    }
    // longest increasing run of previous positions ending at each new index
    let mut lens: Vec<usize> = Vec::new();
    let mut pred: Vec<Option<usize>> = Vec::new();
    i = 0;
    while i < n
        invariant
            n == next@.len(),
            old_pos@.len() == n,
            forall|k: int| 0 <= k < n ==> #[trigger] old_pos@[k] == as_index(pos_of(previous@, next@[k])),
            i <= n,
            lens@.len() == i,
            pred@.len() == i,
            forall|k: int| 0 <= k < i ==> #[trigger] lens@[k] <= k + 1,
            dp_ok(old_pos@, lens@, i as int),
            pred_ok(old_pos@, lens@, pred@, i as int),
            forall|k: int| 0 <= k < i && (#[trigger] pred@[k]) is Some ==> pred@[k]->0 < k
                && old_pos@[pred@[k]->0 as int] is Some && old_pos@[k] is Some
                && old_pos@[pred@[k]->0 as int]->0 < old_pos@[k]->0,
        decreases n - i,
    {
        let mut best: usize = 0;
        let mut from: Option<usize> = None;
        if let Some(p) = old_pos[i] {
            best = 1;
            let mut j: usize = 0;
            while j < i
                invariant
                    i < n,
                    old_pos@.len() == n,
                    lens@.len() == i,
                    forall|k: int| 0 <= k < i ==> #[trigger] lens@[k] <= k + 1,
                    old_pos@[i as int] == Some(p),
                    j <= i,
                    1 <= best <= i + 1,
                    from matches Some(f) ==> f < i && old_pos@[f as int] is Some
                        && old_pos@[f as int]->0 < p,
                    (from is None && best == 1) || (from matches Some(f) && lens@[f as int] + 1 == best),
                    forall|q: int| 0 <= q < j && (#[trigger] old_pos@[q]) is Some && old_pos@[q]->0 < p
                        ==> best >= lens@[q] + 1,
                decreases i - j,
            {
                if let Some(q) = old_pos[j] {
                    if q < p && lens[j] + 1 > best {
                        best = lens[j] + 1;
                        from = Some(j);
                    }
                }
                j = j + 1;
            }
        }
        let ghost l0 = lens@;
        let ghost p0 = pred@;
        lens.push(best);
        pred.push(from);
        proof {
            assert forall|k: int| 0 <= k < i implies #[trigger] lens@[k] == l0[k] && pred@[k] == p0[k] by {}
            assert forall|q: int, k: int| #![trigger lens@[q], lens@[k]]
                0 <= q < k < i + 1 && old_pos@[q] is Some && old_pos@[k] is Some && old_pos@[q]->0 < old_pos@[k]->0
                implies lens@[k] >= lens@[q] + 1 by {
                if k < i {
                    assert(l0[k] >= l0[q] + 1);
                }
            }
        }
        i = i + 1;
    }
    // the end of a longest run
    let mut end: Option<usize> = None;
    let mut top: usize = 0;
    i = 0;
    while i < n
        invariant
            n == next@.len(),
            old_pos@.len() == n,
            lens@.len() == n,
            forall|k: int| 0 <= k < n ==> #[trigger] old_pos@[k] == as_index(pos_of(previous@, next@[k])),
            i <= n,
            end matches Some(e) ==> e < n && old_pos@[e as int] is Some && top == lens@[e as int],
            end is None ==> top == 0,
            forall|k: int| 0 <= k < i && (#[trigger] old_pos@[k]) is Some ==> lens@[k] <= top,
            dp_ok(old_pos@, lens@, n as int),
            pred_ok(old_pos@, lens@, pred@, n as int),
            pred@.len() == n,
        decreases n - i,
    {
        if old_pos[i].is_some() && lens[i] > top {
            top = lens[i];
            end = Some(i);
        }
        i = i + 1;
    }
    // mark the rows of that run as staying
    let mut keep: Vec<bool> = Vec::new();
    i = 0;
    while i < n
        invariant
            n == next@.len(),
            old_pos@.len() == n,
            forall|k: int| 0 <= k < n ==> #[trigger] old_pos@[k] == as_index(pos_of(previous@, next@[k])),
            end matches Some(e) ==> e < n && old_pos@[e as int] is Some && top == lens@[e as int],
            end is None ==> top == 0,
            forall|k: int| 0 <= k < n && (#[trigger] old_pos@[k]) is Some ==> lens@[k] <= top,
            dp_ok(old_pos@, lens@, n as int),
            pred_ok(old_pos@, lens@, pred@, n as int),
            lens@.len() == n,
            pred@.len() == n,
            i <= n,
            keep@.len() == i,
            kept_count(keep@) == 0,
            forall|k: int| 0 <= k < i ==> !(#[trigger] keep@[k]),
        decreases n - i,
    {
        let ghost k0 = keep@;
        keep.push(false);
        assert(keep@.drop_last() =~= k0);
        i = i + 1;
    }
    let mut cur: usize = 0;
    let mut going = false;
    if let Some(e) = end {
        cur = e;
        going = true;
    }
    while going
        invariant
            n == next@.len(),
            old_pos@.len() == n,
            pred@.len() == n,
            keep@.len() == n,
            forall|k: int| 0 <= k < n ==> #[trigger] old_pos@[k] == as_index(pos_of(previous@, next@[k])),

            forall|k: int| 0 <= k < n && (#[trigger] pred@[k]) is Some ==> pred@[k]->0 < k
                && old_pos@[pred@[k]->0 as int] is Some && old_pos@[k] is Some
                && old_pos@[pred@[k]->0 as int]->0 < old_pos@[k]->0,
            going ==> cur < n && old_pos@[cur as int] is Some,
            lens@.len() == n,
            pred_ok(old_pos@, lens@, pred@, n as int),
            going ==> kept_count(keep@) + lens@[cur as int] == top,
            !going ==> kept_count(keep@) == top,
            forall|k: int| 0 <= k < n && #[trigger] keep@[k] ==> old_pos@[k] is Some,
            going ==> forall|k: int| 0 <= k < n && #[trigger] keep@[k] ==> k > cur
                && old_pos@[k]->0 > old_pos@[cur as int]->0,
            forall|a: int, b: int| 0 <= a < b < n && #[trigger] keep@[a] && #[trigger] keep@[b]
                ==> old_pos@[a]->0 < old_pos@[b]->0,
        decreases if going { cur + 1 } else { 0 },
    {
        proof {
            lemma_count_set(keep@, cur as int);
        }
        keep.set(cur, true);
        match pred[cur] {
            Some(j) => {
                cur = j;
            },
            None => {
                going = false;
            },
        }
    }
    let plen: usize = previous.len();
    proof {
        assert forall|k: int| 0 <= k < n && #[trigger] keep@[k] implies previous@.contains(next@[k]) by {
            lemma_pos_of(previous@, next@[k]);
        }
        assert forall|a: int, b: int| 0 <= a < b < n && #[trigger] keep@[a] && #[trigger] keep@[b]
            implies pos_of(previous@, next@[a]) < pos_of(previous@, next@[b]) by {
            lemma_pos_of(previous@, next@[a]);
            lemma_pos_of(previous@, next@[b]);
            assert(old_pos@[a] == as_index(pos_of(previous@, next@[a])));
            assert(old_pos@[b] == as_index(pos_of(previous@, next@[b])));
            assert(previous@.len() == plen);
        }
        assert(valid_keep(previous@, next@, keep@));
        assert forall|other: Seq<bool>| #[trigger] valid_keep(previous@, next@, other)
            implies kept_count(other) <= kept_count(keep@) by {
            let w = lemma_chain_bound(previous@, next@, old_pos@, lens@, other, n as int);
            assert(other.take(n as int) =~= other);
            if kept_count(other) > 0 {
                lemma_pos_of(previous@, next@[w]);
                assert(old_pos@[w] == as_index(pos_of(previous@, next@[w])));
            }
        }
    }
    // the patch: removals first, then creations and moves in new order
    let mut ops: Vec<PatchOp> = Vec::new();
    i = 0;
    while i < previous.len()
        invariant
            unique(next@),
            i <= previous@.len(),
            ops@ == removals(previous@, next@, i as int),
        decreases previous@.len() - i,
    {
        let k = previous[i];
        if find_key(next, k).is_none() {
            ops.push(PatchOp::RemoveRow { key: k });
        }
        i = i + 1;
    }
    i = 0;
    while i < n
        invariant
            n == next@.len(),
            old_pos@.len() == n,
            keep@.len() == n,
            forall|k: int| 0 <= k < n ==> #[trigger] old_pos@[k] == as_index(pos_of(previous@, next@[k])),
            i <= n,
            ops@ == removals(previous@, next@, previous@.len() as int) + placements(
                previous@,
                next@,
                keep@,
                i as int,
            ),
        decreases n - i,
    {
        proof { lemma_pos_of(previous@, next@[i as int]); }
        match old_pos[i] {
            None => {
                ops.push(PatchOp::CreateRow { key: next[i], index: i });
            },
            Some(_) => {
                if !keep[i] {
                    ops.push(PatchOp::MoveRow { key: next[i], index: i });
                }
            },
        }
        i = i + 1;
    }
    assert(ops@ == patch(previous@, next@, keep@));
    Ok(ops)
}

/// A row on screen: its key, the scope that owns what the row created, and
/// the row's own counter.
#[derive(Debug, Clone, Copy, PartialEq, Eq, Structural)]
pub struct ListRow {
    pub key: u64,
    pub scope: u64,
    pub count: i64,
}

/// The rows of a keyed list, with the next scope number to hand out.
pub struct KeyedList {
    pub rows: Vec<ListRow>,
    pub next_scope: u64,
}

pub open spec fn row_keys(rows: Seq<ListRow>) -> Seq<u64> {
    rows.map_values(|r: ListRow| r.key)
}

pub open spec fn entry_keys(entries: Seq<(u64, i64)>) -> Seq<u64> {
    entries.map_values(|e: (u64, i64)| e.0)
}

impl KeyedList {
    pub open spec fn wf(&self) -> bool {
        &&& unique(row_keys(self.rows@))
        &&& forall|i: int| 0 <= i < self.rows@.len() ==> #[trigger] self.rows@[i].scope < self.next_scope
    }

    /// An empty list.
    pub fn new() -> (r: Self)
        ensures
            r.wf(),
            r.rows@.len() == 0,
            r.next_scope == 0,
    {
        KeyedList { rows: Vec::new(), next_scope: 0 }
    }

    /// The keys of the rows, in order.
    pub fn keys(&self) -> (r: Vec<u64>)
        ensures
            r@ == row_keys(self.rows@),
    {
        let mut r: Vec<u64> = Vec::new();
        let mut i: usize = 0;
        while i < self.rows.len()
            invariant
                i <= self.rows@.len(),
                r@ == row_keys(self.rows@.take(i as int)),
            decreases self.rows@.len() - i,
        {
            r.push(self.rows[i].key);
            i = i + 1;
            assert(row_keys(self.rows@.take(i as int)) =~= row_keys(self.rows@.take(i - 1)).push(self.rows@[i - 1].key));
        }
        assert(self.rows@.take(i as int) =~= self.rows@);
        r
    }

    /// Sets the counter of the row at `index`.
    pub fn set_count(&mut self, index: usize, count: i64)
        requires
            old(self).wf(),
            index < old(self).rows@.len(),
        ensures
            final(self).wf(),
            final(self).next_scope == old(self).next_scope,
            final(self).rows@ == old(self).rows@.update(index as int, ListRow { count, ..old(self).rows@[index as int] }),
    {
        let row = self.rows[index];
        self.rows.set(index, ListRow { count, ..row });
        assert(row_keys(self.rows@) =~= row_keys(old(self).rows@));
    }

    /// Brings the rows in line with `next`, a list of keys, each with the
    /// counter that its row starts with if it has to be created. Rows whose key
    /// stays keep their scope and counter; new rows get a fresh scope.
    pub fn update(&mut self, next: &Vec<(u64, i64)>) -> (r: Result<Vec<PatchOp>, ReconcileError>)
        requires
            old(self).wf(),
            old(self).next_scope + next@.len() <= u64::MAX,
        ensures
            final(self).wf(),
            old(self).next_scope <= final(self).next_scope <= old(self).next_scope + next@.len(),
            !unique(entry_keys(next@)) <==> r is Err,
            r is Err ==> final(self).rows@ == old(self).rows@ && final(self).next_scope == old(self).next_scope,
            r is Ok ==> {
                &&& exists|keep: Seq<bool>|
                    valid_keep(row_keys(old(self).rows@), entry_keys(next@), keep)
                        && r->Ok_0@ == #[trigger] patch(row_keys(old(self).rows@), entry_keys(next@), keep)
                        && forall|other: Seq<bool>| #[trigger] valid_keep(row_keys(old(self).rows@), entry_keys(next@), other)
                            ==> kept_count(other) <= kept_count(keep)
                &&& row_keys(final(self).rows@) == entry_keys(next@)
                &&& forall|i: int| 0 <= i < next@.len() ==> {
                    let k = #[trigger] next@[i].0;
                    let p = pos_of(row_keys(old(self).rows@), k);
                    if p >= 0 {
                        final(self).rows@[i] == old(self).rows@[p]
                    } else {
                        final(self).rows@[i].count == next@[i].1
                            && old(self).next_scope <= final(self).rows@[i].scope
                    }
                }
            },
    {
        let old_keys = self.keys();
        let mut next_keys: Vec<u64> = Vec::new();
        let mut i: usize = 0;
        while i < next.len()
            invariant
                i <= next@.len(),
                next_keys@ == entry_keys(next@.take(i as int)),
            decreases next@.len() - i,
        {
            next_keys.push(next[i].0);
            i = i + 1;
            assert(entry_keys(next@.take(i as int)) =~= entry_keys(next@.take(i - 1)).push(next@[i - 1].0));
        }
        assert(next@.take(i as int) =~= next@);
        let ops = match reconcile_keyed_list(&old_keys, &next_keys) {
            Ok(ops) => ops,
            Err(e) => {
                return Err(e);
            },
        };
        let mut rows: Vec<ListRow> = Vec::new();
        let mut scope = self.next_scope;
        i = 0;
        while i < next.len()
            invariant
                self.wf(),
                self.rows@ == old(self).rows@,
                self.next_scope == old(self).next_scope,
                old_keys@ == row_keys(self.rows@),
                next_keys@ == entry_keys(next@),
                unique(next_keys@),
                i <= next@.len(),
                rows@.len() == i,
                self.next_scope <= scope <= self.next_scope + i,
                self.next_scope + next@.len() <= u64::MAX,
                row_keys(rows@) == next_keys@.take(i as int),
                forall|k: int| 0 <= k < rows@.len() ==> #[trigger] rows@[k].scope < scope,
                forall|j: int| 0 <= j < i ==> {
                    let k = #[trigger] next@[j].0;
                    let p = pos_of(row_keys(old(self).rows@), k);
                    if p >= 0 {
                        rows@[j] == old(self).rows@[p]
                    } else {
                        rows@[j].count == next@[j].1 && old(self).next_scope <= rows@[j].scope
                    }
                },
            decreases next@.len() - i,
        {
            let (k, c) = next[i];
            assert(next_keys@[i as int] == k);
            let ghost before = rows@;
            match find_key(&old_keys, k) {
                Some(p) => {
                    rows.push(self.rows[p]);
                },
                None => {
                    rows.push(ListRow { key: k, scope, count: c });
                    scope = scope + 1;
                },
            }
            i = i + 1;
            assert(rows@.drop_last() =~= before);
            assert(row_keys(rows@) =~= row_keys(before).push(k));
            assert(next_keys@.take(i as int) =~= next_keys@.take(i - 1).push(k));
        }
        assert(next_keys@.take(i as int) =~= next_keys@);
        self.rows = rows;
        self.next_scope = scope;
        Ok(ops)
    }
}

} // verus!
