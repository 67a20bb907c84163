use vstd::prelude::*;

use crate::algo::RegionQuery;
use crate::types::EngineError;

verus! {

/// The regions of a table, as sequences.
pub open spec fn lists_view(regions: Seq<Vec<usize>>) -> Seq<Seq<usize>> {
    regions.map_values(|row: Vec<usize>| row@)
}

/// Each region names existing points, each once, and holds its centre.
pub open spec fn valid_regions(r: Seq<Seq<usize>>) -> bool {
    forall|i: int| 0 <= i < r.len() ==> #[trigger] valid_region(r, i)
}

/// Region `i` names existing points, each once, holds point `i`, and each
/// point that it names has point `i` in its own region.
pub open spec fn valid_region(r: Seq<Seq<usize>>, i: int) -> bool {
    &&& r[i].no_duplicates()
    &&& r[i].contains(i as usize)
    &&& forall|k: int| 0 <= k < r[i].len() ==> (#[trigger] r[i][k]) < r.len()
    &&& forall|k: int| 0 <= k < r[i].len() ==> r[(#[trigger] r[i][k]) as int].contains(i as usize)
}

/// Whether `row` names `x`.
fn row_contains(row: &Vec<usize>, x: usize) -> (r: bool)
    ensures
        r == row@.contains(x),
{
    let mut k: usize = 0;
    while k < row.len()
        invariant
            k <= row.len(),
            forall|m: int| 0 <= m < k ==> row@[m] != x,
        decreases row.len() - k,
    {
        if row[k] == x {
            return true;
        }
        k += 1;
    }
    false
}

/// Regions computed elsewhere for one radius, such as by a spatial index,
/// served to the clustering driver.
pub struct RegionTable {
    eps: u64,
    regions: Vec<Vec<usize>>,
}

impl RegionTable {
    /// The radius that the regions were computed for.
    pub closed spec fn radius(&self) -> u64 {
        self.eps
    }

    /// The region of each point.
    pub closed spec fn lists(&self) -> Seq<Seq<usize>> {
        lists_view(self.regions@)
    }

    /// A table of the regions of radius `eps`: `regions[i]` holds the points
    /// within `eps` of point `i`.
    pub fn new(eps: u64, regions: Vec<Vec<usize>>) -> (r: Result<Self, EngineError>)
        ensures
            r is Ok <==> valid_regions(lists_view(regions@)),
            r is Err ==> r == Err::<Self, EngineError>(EngineError::InvalidRegions),
            r matches Ok(t) ==> t.wf() && t.radius() == eps && t.lists() == lists_view(regions@),
    {
        let ghost v = lists_view(regions@);
        let n = regions.len();
        let mut marks: Vec<usize> = Vec::new();
        let mut i: usize = 0;
        while i < n
            invariant
                i <= n,
                marks.len() == i,
                forall|x: int| 0 <= x < i ==> #[trigger] marks@[x] == 0,
            decreases n - i,
        {
            marks.push(0);
            i += 1;
        }
        let mut i: usize = 0;
        while i < n
            invariant
                n == regions.len(),
                v == lists_view(regions@),
                i <= n,
                marks.len() == n,
                forall|x: int| 0 <= x < n ==> #[trigger] marks@[x] <= i,
                forall|k: int| 0 <= k < i ==> valid_region(v, k),
            decreases n - i,
        {
            let row = &regions[i];
            assert(row@ == v[i as int]);
            let mut k: usize = 0;
            while k < row.len()
                invariant
                    n == regions.len(),
                    v == lists_view(regions@),
                    i < n,
                    row@ == v[i as int],
                    k <= row.len(),
                    marks.len() == n,
                    forall|x: int| 0 <= x < n ==> #[trigger] marks@[x] <= i + 1,
                    forall|x: int| 0 <= x < n ==> (#[trigger] marks@[x] == i + 1 <==> row@.subrange(0, k as int).contains(x as usize)),
                    forall|m: int| 0 <= m < k ==> #[trigger] row@[m] < n,
                    row@.subrange(0, k as int).no_duplicates(),
                decreases row.len() - k,
            {
                let j = row[k];
                if j >= n {
                    proof {
                        assert(v[i as int][k as int] == j);
                        assert(!valid_region(v, i as int));
                    }
                    return Err(EngineError::InvalidRegions);
                }
                if marks[j] == i + 1 {
                    proof {
                        let m = choose|m: int| 0 <= m < k && row@.subrange(0, k as int)[m] == j;
                        assert(row@[m] == row@[k as int]);
                        assert(!valid_region(v, i as int));
                    }
                    return Err(EngineError::InvalidRegions);
                }
                let ghost before = row@.subrange(0, k as int);
                marks.set(j, i + 1);
                k += 1;
                proof {
                    assert(row@.subrange(0, k as int) == before.push(j));
                    assert forall|x: int| 0 <= x < n implies (#[trigger] marks@[x] == i + 1 <==> row@.subrange(0, k as int).contains(x as usize)) by {
                        if x == j {
                            assert(row@.subrange(0, k as int)[k - 1] == j);
                        } else if before.push(j).contains(x as usize) {
                            let m = choose|m: int| 0 <= m < k && before.push(j)[m] == x as usize;
                            assert(before[m] == x as usize);
                        }
                    }
                }
            }
            assert(row@.subrange(0, k as int) == row@);
            if marks[i] != i + 1 {
                proof {
                    assert(!valid_region(v, i as int));
                }
                return Err(EngineError::InvalidRegions);
            }
            let mut k: usize = 0;
            while k < row.len()
                invariant
                    n == regions.len(),
                    v == lists_view(regions@),
                    i < n,
                    row@ == v[i as int],
                    k <= row.len(),
                    forall|m: int| 0 <= m < row.len() ==> #[trigger] row@[m] < n,
                    forall|m: int| 0 <= m < k ==> v[(#[trigger] row@[m]) as int].contains(i),
                decreases row.len() - k,
            {
                let j = row[k];
                assert(v[j as int] == regions@[j as int]@);
                if !row_contains(&regions[j], i) {
                    proof {
                        assert(v[i as int][k as int] == j);
                        assert(!valid_region(v, i as int));
                    }
                    return Err(EngineError::InvalidRegions);
                }
                k += 1;
            }
            i += 1;
        }
        Ok(RegionTable { eps, regions })
    }
}

impl RegionQuery for RegionTable {
    open spec fn size(&self) -> nat {
        self.lists().len()
    }

    closed spec fn wf(&self) -> bool {
        &&& valid_regions(self.lists())
        &&& self.regions.len() <= usize::MAX
    }

    open spec fn serves(&self, eps: u64) -> bool {
        eps == self.radius()
    }

    open spec fn region(&self, point: usize, eps: u64) -> Set<usize> {
        self.lists()[point as int].to_set()
    }

    proof fn lemma_region_bounds(&self, point: usize, eps: u64) {
        assert(valid_region(self.lists(), point as int));
    }

    proof fn lemma_region_symmetric(&self, p: usize, c: usize, eps: u64) {
        let l = self.lists();
        assert(valid_region(l, p as int));
        assert(valid_region(l, c as int));
        if l[p as int].contains(c) {
            let k = choose|k: int| 0 <= k < l[p as int].len() && l[p as int][k] == c;
            assert(l[p as int][k] == c);
        }
        if l[c as int].contains(p) {
            let k = choose|k: int| 0 <= k < l[c as int].len() && l[c as int][k] == p;
            assert(l[c as int][k] == p);
        }
    }

    fn serves_radius(&self, eps: u64) -> (r: bool) {
        eps == self.eps
    }

    fn len(&self) -> (r: usize) {
        self.regions.len()
    }

    fn run(&self, point: usize, eps: u64) -> (r: Vec<usize>) {
        proof {
            assert(valid_region(self.lists(), point as int));
        }
        let row = &self.regions[point];
        let mut out: Vec<usize> = Vec::new();
        let mut k: usize = 0;
        while k < row.len()
            invariant
                row@ == self.lists()[point as int],
                k <= row.len(),
                out@ == row@.subrange(0, k as int),
            decreases row.len() - k,
        {
            out.push(row[k]);
            k += 1;
            proof {
                assert(out@ =~= row@.subrange(0, k as int));
            }
        }
        assert(out@ == row@);
        out
    }
}

} // verus!
