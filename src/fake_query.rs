use itertools::Itertools;
use vstd::prelude::*;
use vstd::set_lib::*;

use crate::algo::RegionQuery;
use crate::types::EngineError;

verus! {

/// Relies on itertools::Itertools::sorted_by_key: the same entries, in
/// ascending order of the key that the closure picks (the first field).
#[verifier::external_body]
fn sorted_by_first(v: Vec<(u64, usize)>) -> (r: Vec<(u64, usize)>)
    ensures
        r@.to_multiset() == v@.to_multiset(),
        forall|a: int, b: int| 0 <= a <= b < r.len() ==> r@[a].0 <= r@[b].0,
{
    v.into_iter().sorted_by_key(|e| e.0).collect()
}

/// The distance keys of a matrix, row by row.
pub open spec fn keys_view(keys: Seq<Vec<u64>>) -> Seq<Seq<u64>> {
    keys.map_values(|row: Vec<u64>| row@)
}

/// A square, symmetric matrix of distance keys whose diagonal is zero.
pub open spec fn valid_keys(d: Seq<Seq<u64>>) -> bool {
    &&& forall|i: int| 0 <= i < d.len() ==> (#[trigger] d[i]).len() == d.len()
    &&& forall|i: int| 0 <= i < d.len() ==> (#[trigger] d[i])[i] == 0
    &&& forall|i: int, j: int| 0 <= i < d.len() && 0 <= j < d.len() ==> #[trigger] d[i][j] == d[j][i]
}

/// Row `row` lists every point once, with its distance key from the row's
/// point, in ascending order of that key.
pub open spec fn sorted_row(d: Seq<Seq<u64>>, i: int, row: Seq<(u64, usize)>) -> bool {
    &&& row.len() == d.len()
    &&& forall|k: int|
        0 <= k < row.len() ==> (#[trigger] row[k]).1 < d.len() && row[k].0 == d[i][row[k].1 as int]
    &&& forall|a: int, b: int| 0 <= a <= b < row.len() ==> (#[trigger] row[a]).0 <= (#[trigger] row[b]).0
    &&& forall|a: int, b: int| 0 <= a < row.len() && 0 <= b < row.len() && a != b ==> (#[trigger] row[a]).1 != (#[trigger] row[b]).1
    &&& forall|j: usize| j < d.len() ==> #[trigger] row_has(row, j)
}

/// Some entry of `row` is for point `j`.
pub open spec fn row_has(row: Seq<(u64, usize)>, j: usize) -> bool {
    exists|k: int| 0 <= k < row.len() && (#[trigger] row[k]).1 == j
}

/// The points other than `p` whose key from `p` is below `r`.
pub open spec fn closer_than(d: Seq<Seq<u64>>, p: usize, r: u64) -> Set<usize> {
    Set::new(|j: usize| j < d.len() && j != p && d[p as int][j as int] < r)
}

/// The points other than `p` whose key from `p` is at most `r`.
pub open spec fn within(d: Seq<Seq<u64>>, p: usize, r: u64) -> Set<usize> {
    Set::new(|j: usize| j < d.len() && j != p && d[p as int][j as int] <= r)
}

/// `r` is the k-th smallest key from `p` to the other points, counted with
/// multiplicity: the key of some other point, with fewer than `k` others
/// strictly closer and at least `k` others no farther.
pub open spec fn is_kth_key(d: Seq<Seq<u64>>, p: usize, k: nat, r: u64) -> bool {
    &&& exists|j: usize| j < d.len() && j != p && #[trigger] d[p as int][j as int] == r
    &&& closer_than(d, p, r).len() < k
    &&& k <= within(d, p, r).len()
}

/// The reference engine: for each point, every point sorted by distance to it.
pub struct FakeQueryEngine {
    sorted_by_distance: Vec<Vec<(u64, usize)>>,
    keys: Ghost<Seq<Seq<u64>>>,
}

/// The entries `(d[j], j)` for every `j`.
pub open spec fn row_entries(d: Seq<u64>) -> Seq<(u64, usize)> {
    Seq::new(d.len(), |j: int| (d[j], j as usize))
}

proof fn lemma_sorted_row(d: Seq<Seq<u64>>, i: int, row: Seq<(u64, usize)>)
    requires
        valid_keys(d),
        0 <= i < d.len(),
        d.len() <= usize::MAX,
        row.to_multiset() == row_entries(d[i]).to_multiset(),
        forall|a: int, b: int| 0 <= a <= b < row.len() ==> row[a].0 <= row[b].0,
    ensures
        sorted_row(d, i, row),
{
    broadcast use vstd::seq_lib::to_multiset_contains;
    broadcast use vstd::seq_lib::to_multiset_len;

    let inp = row_entries(d[i]);
    assert(d[i].len() == d.len());
    assert(row.len() == inp.len()) by {
        assert(row.to_multiset().len() == inp.to_multiset().len());
    }
    assert forall|k: int| 0 <= k < row.len() implies (#[trigger] row[k]).1 < d.len() && row[k].0
        == d[i][row[k].1 as int] by {
        assert(row.to_multiset().count(row[k]) > 0);
        assert(inp.contains(row[k]));
    }
    assert(inp.no_duplicates());
    inp.lemma_multiset_has_no_duplicates();
    row.lemma_multiset_has_no_duplicates_conv();
    assert forall|j: usize| j < d.len() implies #[trigger] row_has(row, j) by {
        assert(inp[j as int] == (d[i][j as int], j));
        assert(inp.contains(inp[j as int]));
        assert(inp.to_multiset().count(inp[j as int]) > 0);
        assert(row.to_multiset().count(inp[j as int]) > 0);
        assert(row.contains(inp[j as int]));
        let k = choose|k: int| 0 <= k < row.len() && row[k] == inp[j as int];
        assert(row[k].1 == j);
    }
}

impl FakeQueryEngine {
    /// The distance keys that the engine was built from.
    pub closed spec fn distance_keys(&self) -> Seq<Seq<u64>> {
        self.keys@
    }

    /// An engine with no points; `init` gives it its points.
    pub fn new() -> (r: Self)
        ensures
            r.wf(),
            r.distance_keys().len() == 0,
    {
        FakeQueryEngine { sorted_by_distance: Vec::new(), keys: Ghost(Seq::empty()) }
    }

    /// Builds the sorted rows from a matrix of distance keys: `keys[i][j]`
    /// is the key of the distance from point `i` to point `j`.
    pub fn init(&mut self, keys: Vec<Vec<u64>>) -> (r: Result<(), EngineError>)
        ensures
            r is Ok <==> valid_keys(keys_view(keys@)),
            !valid_keys(keys_view(keys@)) ==> r == Err::<(), EngineError>(EngineError::InvalidDistances),
            r is Ok ==> final(self).wf() && final(self).distance_keys() == keys_view(keys@),
            r is Err ==> *final(self) == *old(self),
    {
        let n = keys.len();
        let mut i: usize = 0;
        while i < n
            invariant
                n == keys.len(),
                i <= n,
                forall|k: int| 0 <= k < i ==> (#[trigger] keys@[k])@.len() == n && keys@[k]@[k] == 0,
            decreases n - i,
        {
            if keys[i].len() != n || keys[i][i] != 0 {
                proof {
                    assert(keys_view(keys@)[i as int] == keys@[i as int]@);
                }
                return Err(EngineError::InvalidDistances);
            }
            i += 1;
        }
        let mut i: usize = 0;
        while i < n
            invariant
                n == keys.len(),
                i <= n,
                forall|k: int| 0 <= k < n ==> (#[trigger] keys@[k])@.len() == n && keys@[k]@[k] == 0,
                forall|a: int, b: int| 0 <= a < i && 0 <= b < n ==> #[trigger] keys@[a]@[b] == keys@[b]@[a],
            decreases n - i,
        {
            let mut j: usize = 0;
            while j < n
                invariant
                    n == keys.len(),
                    i < n,
                    j <= n,
                    forall|k: int| 0 <= k < n ==> (#[trigger] keys@[k])@.len() == n && keys@[k]@[k] == 0,
                    forall|a: int, b: int| 0 <= a < i && 0 <= b < n ==> #[trigger] keys@[a]@[b] == keys@[b]@[a],
                    forall|b: int| 0 <= b < j ==> #[trigger] keys@[i as int]@[b] == keys@[b]@[i as int],
                decreases n - j,
            {
                if keys[i][j] != keys[j][i] {
                    proof {
                        let kv = keys_view(keys@);
                        assert(kv[i as int] == keys@[i as int]@);
                        assert(kv[j as int] == keys@[j as int]@);
                        assert(kv[i as int][j as int] != kv[j as int][i as int]);
                    }
                    return Err(EngineError::InvalidDistances);
                }
                j += 1;
            }
            i += 1;
        }
        let ghost d = keys_view(keys@);
        assert(valid_keys(d)) by {
            assert forall|a: int, b: int| 0 <= a < d.len() && 0 <= b < d.len() implies #[trigger] d[a][b] == d[b][a] by {
                assert(d[a] == keys@[a]@);
                assert(d[b] == keys@[b]@);
            }
            assert forall|k: int| 0 <= k < d.len() implies (#[trigger] d[k]).len() == d.len() by {
                assert(d[k] == keys@[k]@);
            }
            assert forall|k: int| 0 <= k < d.len() implies (#[trigger] d[k])[k] == 0 by {
                assert(d[k] == keys@[k]@);
            }
        }
        let mut rows: Vec<Vec<(u64, usize)>> = Vec::new();
        let mut i: usize = 0;
        while i < n
            invariant
                n == keys.len(),
                d == keys_view(keys@),
                valid_keys(d),
                i <= n,
                rows.len() == i,
                forall|k: int| 0 <= k < i ==> sorted_row(d, k, #[trigger] rows@[k]@),
            decreases n - i,
        {
            let row = &keys[i];
            let mut entries: Vec<(u64, usize)> = Vec::new();
            let mut j: usize = 0;
            while j < n
                invariant
                    n == keys.len(),
                    d == keys_view(keys@),
                    valid_keys(d),
                    i < n,
                    row@ == d[i as int],
                    j <= n,
                    entries@ == row_entries(d[i as int]).subrange(0, j as int),
                decreases n - j,
            {
                entries.push((row[j], j));
                j += 1;
                proof {
                    assert(entries@ =~= row_entries(d[i as int]).subrange(0, j as int));
                }
            }
            assert(entries@ =~= row_entries(d[i as int]));
            let sorted = sorted_by_first(entries);
            proof {
                lemma_sorted_row(d, i as int, sorted@);
            }
            rows.push(sorted);
            i += 1;
        }
        self.sorted_by_distance = rows;
        self.keys = Ghost(d);
        Ok(())
    }
    /// The key of the distance from `point` to its k-th nearest neighbour,
    /// not counting `point` itself (by identity: coincident points count);
    /// `None` unless `1 <= k < N`.
    pub fn k_dist(&self, point: usize, k: usize) -> (r: Option<u64>)
        requires
            self.wf(),
            point < self.size(),
        ensures
            r is Some <==> 1 <= k < self.size(),
            r matches Some(v) ==> is_kth_key(self.distance_keys(), point, k as nat, v),
    {
        let ghost d = self.keys@;
        let ghost n = d.len();
        if k == 0 {
            return None;
        }
        let sorted = &self.sorted_by_distance[point];
        proof {
            assert(sorted_row(d, point as int, sorted@));
            assert(row_has(sorted@, point));
        }
        let ghost s = choose|x: int| 0 <= x < sorted.len() && (#[trigger] sorted@[x]).1 == point;
        let ghost mut acc: Seq<usize> = Seq::empty();
        let mut seen: usize = 0;
        let mut m: usize = 0;
        while m < sorted.len()
            invariant
                self.wf(),
                d == self.keys@,
                sorted == self.sorted_by_distance@[point as int],
                sorted_row(d, point as int, sorted@),
                n == sorted.len(),
                point < n,
                0 <= s < n,
                sorted@[s].1 == point,
                m <= n,
                1 <= k,
                seen < k,
                seen == acc.len(),
                seen == if s < m { m - 1 } else { m as int },
                acc.no_duplicates(),
                forall|x: int| 0 <= x < acc.len() ==> #[trigger] acc[x] != point && acc[x] < n && d[point as int][acc[x] as int] <= sorted@[m - 1].0,
                forall|j: usize| acc.contains(j) <==> j != point && exists|x: int| 0 <= x < m && (#[trigger] sorted@[x]).1 == j,
            decreases n - m,
        {
            let e = sorted[m];
            if e.1 != point {
                proof {
                    assert(!acc.contains(e.1));
                    let old_acc = acc;
                    acc = acc.push(e.1);
                    assert forall|j: usize| acc.contains(j) <==> j != point && exists|x: int| 0 <= x < m + 1 && (#[trigger] sorted@[x]).1 == j by {
                        if acc.contains(j) && j != e.1 {
                            let y = choose|y: int| 0 <= y < acc.len() && acc[y] == j;
                            assert(old_acc[y] == j);
                            assert(old_acc.contains(j));
                            let x = choose|x: int| 0 <= x < m && (#[trigger] sorted@[x]).1 == j;
                            assert(sorted@[x].1 == j);
                        }
                        if j != point && j != e.1 && exists|x: int| 0 <= x < m + 1 && (#[trigger] sorted@[x]).1 == j {
                            let x = choose|x: int| 0 <= x < m + 1 && (#[trigger] sorted@[x]).1 == j;
                            assert(old_acc.contains(j));
                            let y = choose|y: int| 0 <= y < old_acc.len() && old_acc[y] == j;
                            assert(acc[y] == j);
                        }
                        if j == e.1 {
                            assert(acc[acc.len() - 1] == j);
                            assert(sorted@[m as int].1 == j);
                        }
                    }
                    assert forall|x: int| 0 <= x < acc.len() implies #[trigger] acc[x] != point && acc[x] < n && d[point as int][acc[x] as int] <= sorted@[m as int].0 by {
                        if x < old_acc.len() {
                            assert(old_acc[x] == acc[x]);
                            assert(sorted@[m - 1].0 <= sorted@[m as int].0);
                        }
                    }
                }
                seen += 1;
                if seen == k {
                    proof {
                        self.lemma_kth(point, k as nat, m as int, acc);
                    }
                    return Some(e.0);
                }
            } else {
                proof {
                    assert forall|x: int| 0 <= x < acc.len() implies #[trigger] acc[x] != point && acc[x] < n && d[point as int][acc[x] as int] <= sorted@[m as int].0 by {
                        if m > 0 {
                            assert(sorted@[m - 1].0 <= sorted@[m as int].0);
                        }
                    }
                    assert forall|j: usize| acc.contains(j) <==> j != point && exists|x: int| 0 <= x < m + 1 && (#[trigger] sorted@[x]).1 == j by {
                        if j != point && exists|x: int| 0 <= x < m + 1 && (#[trigger] sorted@[x]).1 == j {
                            let x = choose|x: int| 0 <= x < m + 1 && (#[trigger] sorted@[x]).1 == j;
                            assert(x != m);
                        }
                    }
                }
            }
            m += 1;
        }
        None
    }

    proof fn lemma_kth(&self, point: usize, k: nat, m: int, acc: Seq<usize>)
        requires
            self.wf(),
            point < self.size(),
            sorted_row(self.keys@, point as int, self.sorted_by_distance@[point as int]@),
            0 <= m < self.size(),
            acc.len() == k,
            k >= 1,
            acc.no_duplicates(),
            acc[k - 1] == self.sorted_by_distance@[point as int]@[m].1,
            acc[k - 1] != point,
            forall|x: int| 0 <= x < acc.len() ==> #[trigger] acc[x] != point && acc[x] < self.keys@.len() && self.keys@[point as int][acc[x] as int] <= self.sorted_by_distance@[point as int]@[m].0,
            forall|j: usize| acc.contains(j) <==> j != point && exists|x: int| 0 <= x < m + 1 && (#[trigger] self.sorted_by_distance@[point as int]@[x]).1 == j,
        ensures
            is_kth_key(self.keys@, point, k, self.sorted_by_distance@[point as int]@[m].0),
    {
        let d = self.keys@;
        let row = self.sorted_by_distance@[point as int]@;
        let r = row[m].0;
        <usize as FiniteFull>::full_properties();
        let prev = acc.drop_last();
        assert(acc == prev.push(acc[k - 1]));
        assert(prev.no_duplicates());
        prev.unique_seq_to_set();
        acc.unique_seq_to_set();
        assert(d[point as int][row[m].1 as int] == r);
        assert forall|j: usize| closer_than(d, point, r).contains(j) implies prev.to_set().contains(j) by {
            assert(row_has(row, j));
            let x = choose|x: int| 0 <= x < row.len() && (#[trigger] row[x]).1 == j;
            if x >= m {
                assert(row[m].0 <= row[x].0);
            }
            assert(acc.contains(j));
            let y = choose|y: int| 0 <= y < acc.len() && acc[y] == j;
            if y == k - 1 {
                assert(row[m].1 == row[x].1);
            }
            assert(prev[y] == j);
        }
        lemma_len_subset(closer_than(d, point, r), prev.to_set());
        assert forall|j: usize| acc.to_set().contains(j) implies within(d, point, r).contains(j) by {
            let y = choose|y: int| 0 <= y < acc.len() && acc[y] == j;
        }
        lemma_len_subset(within(d, point, r), Set::<usize>::full());
        lemma_len_subset(acc.to_set(), within(d, point, r));
    }
}

impl RegionQuery for FakeQueryEngine {
    open spec fn size(&self) -> nat {
        self.distance_keys().len()
    }

    closed spec fn wf(&self) -> bool {
        &&& valid_keys(self.keys@)
        &&& self.keys@.len() <= usize::MAX
        &&& self.sorted_by_distance.len() == self.keys@.len()
        &&& forall|i: int|
            0 <= i < self.keys@.len() ==> sorted_row(self.keys@, i, #[trigger] self.sorted_by_distance@[i]@)
    }

    open spec fn serves(&self, eps: u64) -> bool {
        true
    }

    open spec fn region(&self, point: usize, eps: u64) -> Set<usize> {
        Set::new(|j: usize| j < self.size() && self.distance_keys()[point as int][j as int] <= eps)
    }

    proof fn lemma_region_bounds(&self, point: usize, eps: u64) {
        assert(self.keys@[point as int][point as int] == 0);
    }

    proof fn lemma_region_symmetric(&self, p: usize, c: usize, eps: u64) {
        assert(self.keys@[p as int][c as int] == self.keys@[c as int][p as int]);
    }

    fn serves_radius(&self, eps: u64) -> (r: bool) {
        true
    }

    fn len(&self) -> (r: usize) {
        self.sorted_by_distance.len()
    }

    /// Binary search for the longest prefix of the point's sorted row whose
    /// keys are at most `eps`.
    fn run(&self, point: usize, eps: u64) -> (r: Vec<usize>) {
        let ghost d = self.keys@;
        let sorted = &self.sorted_by_distance[point];
        proof {
            assert(sorted_row(d, point as int, sorted@));
            assert(row_has(sorted@, point));
            let k0 = choose|k: int| 0 <= k < sorted.len() && (#[trigger] sorted@[k]).1 == point;
            assert(sorted@[0].0 <= sorted@[k0].0);
        }
        let mut lt: usize = 0;
        let mut ge: usize = sorted.len();
        while ge - lt > 1
            invariant
                sorted_row(d, point as int, sorted@),
                0 <= lt < ge <= sorted.len(),
                sorted@[lt as int].0 <= eps,
                ge < sorted.len() ==> sorted@[ge as int].0 > eps,
            decreases ge - lt,
        {
            let mid = lt + (ge - lt) / 2;
            if sorted[mid].0 <= eps {
                lt = mid;
            } else {
                ge = mid;
            }
        }
        let mut out: Vec<usize> = Vec::new();
        let mut k: usize = 0;
        while k < ge
            invariant
                sorted_row(d, point as int, sorted@),
                0 <= lt < ge <= sorted.len(),
                ge == lt + 1,
                sorted@[lt as int].0 <= eps,
                k <= ge,
                out.len() == k,
                forall|m: int| 0 <= m < k ==> #[trigger] out@[m] == sorted@[m].1,
            decreases ge - k,
        {
            out.push(sorted[k].1);
            k += 1;
        }
        proof {
            assert forall|a: int, b: int| 0 <= a < out.len() && 0 <= b < out.len() && a != b implies out@[a] != out@[b] by {
                assert(sorted@[a].1 != sorted@[b].1);
            }
            assert forall|j: usize| #[trigger] out@.to_set().contains(j) == self.region(point, eps).contains(j) by {
                if out@.contains(j) {
                    let m = choose|m: int| 0 <= m < out.len() && out@[m] == j;
                    assert(sorted@[m].0 <= sorted@[lt as int].0);
                }
                if self.region(point, eps).contains(j) {
                    assert(row_has(sorted@, j));
                    let m = choose|m: int| 0 <= m < sorted.len() && (#[trigger] sorted@[m]).1 == j;
                    if m >= ge {
                        assert(sorted@[ge as int].0 <= sorted@[m].0);
                    }
                    assert(out@[m] == j);
                }
            }
            assert(out@.to_set() =~= self.region(point, eps));
        }
        out
    }
}

} // verus!
