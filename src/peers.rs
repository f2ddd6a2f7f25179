//! The peer relation: cells that share a row, a column or a 3x3 block.

use vstd::prelude::*;

verus! {

/// Cells `i` and `j` (row-major indices) are distinct and share a row, a
/// column or a 3x3 block.
pub open spec fn is_peer(i: int, j: int) -> bool {
    &&& 0 <= i < 81
    &&& 0 <= j < 81
    &&& i != j
    &&& {
        ||| i / 9 == j / 9
        ||| i % 9 == j % 9
        ||| (i / 9 / 3 == j / 9 / 3 && i % 9 / 3 == j % 9 / 3)
    }
}

/// For each of the 81 cells, the list of its peers.
pub struct PeerTable {
    pub peers: Vec<Vec<usize>>,
}

impl PeerTable {
    /// Each list holds the 20 peers of its cell, each once, and nothing else.
    pub open spec fn wf(&self) -> bool {
        &&& self.peers@.len() == 81
        &&& forall|i: int| 0 <= i < 81 ==> Self::lists_peers_of(#[trigger] self.peers@[i]@, i)
    }

    /// `p` holds the 20 peers of cell `i`, each once, in ascending order.
    pub open spec fn lists_peers_of(p: Seq<usize>, i: int) -> bool {
        &&& p.len() == 20
        &&& forall|k: int| 0 <= k < p.len() ==> is_peer(i, #[trigger] p[k] as int)
        &&& forall|j: int| #[trigger] is_peer(i, j) ==> exists|k: int| 0 <= k < p.len() && p[k] == j
        &&& forall|k1: int, k2: int| 0 <= k1 < k2 < p.len() ==> p[k1] < p[k2]
    }

    /// Builds the table once; it is read-only afterwards.
    pub fn new() -> (r: Self)
        ensures
            r.wf(),
    {
        let mut peers: Vec<Vec<usize>> = Vec::new();
        let mut i: usize = 0;
        while i < 81
            invariant
                i <= 81,
                peers@.len() == i,
                forall|i2: int| 0 <= i2 < i ==> Self::lists_peers_of(#[trigger] peers@[i2]@, i2),
            decreases 81 - i,
        {
            let p = peers_of(i);
            peers.push(p);
            i = i + 1;
        }
        PeerTable { peers }
    }

    /// The peers of cell `i`.
    pub fn get(&self, i: usize) -> (r: &Vec<usize>)
        requires
            self.wf(),
            i < 81,
        ensures
            Self::lists_peers_of(r@, i as int),
    {
        &self.peers[i]
    }
}

/// Whether cells `i` and `j` are peers.
pub fn peer_test(i: usize, j: usize) -> (r: bool)
    requires
        i < 81,
        j < 81,
    ensures
        r == is_peer(i as int, j as int),
{
    let (ri, ci) = (i / 9, i % 9);
    let (rj, cj) = (j / 9, j % 9);
    i != j && (ri == rj || ci == cj || (ri / 3 == rj / 3 && ci / 3 == cj / 3))
}

/// How many of the rows (or columns) below `n` lie in the band that starts at `lo`.
pub open spec fn band_count(lo: int, n: int) -> int {
    if n <= lo {
        0
    } else if n >= lo + 3 {
        3
    } else {
        n - lo
    }
}

/// How many peers of the cell at (`row`, `col`) lie in the rows below `r2`.
pub open spec fn peers_before_row(row: int, col: int, r2: int) -> int {
    r2 + 2 * band_count(row / 3 * 3, r2) + if row < r2 { 5int } else { 0int }
}

/// How many peers of the cell at (`row`, `col`) lie in row `r2`, left of column `c2`.
pub open spec fn peers_in_row_before(row: int, col: int, r2: int, c2: int) -> int {
    if r2 == row {
        c2 - if col < c2 { 1int } else { 0int }
    } else if r2 / 3 == row / 3 {
        band_count(col / 3 * 3, c2)
    } else if col < c2 {
        1
    } else {
        0
    }
}

/// The peers of cell `i`, in ascending order.
fn peers_of(i: usize) -> (r: Vec<usize>)
    requires
        i < 81,
    ensures
        PeerTable::lists_peers_of(r@, i as int),
        r@.len() == 20,
{
    let row = i / 9;
    let col = i % 9;
    let mut p: Vec<usize> = Vec::new();
    let mut r2: usize = 0;
    while r2 < 9
        invariant
            i < 81,
            row == i / 9,
            col == i % 9,
            r2 <= 9,
            forall|k: int| 0 <= k < p@.len() ==> is_peer(i as int, #[trigger] p@[k] as int),
            forall|k: int| 0 <= k < p@.len() ==> #[trigger] p@[k] < 9 * r2,
            forall|j2: int|
                #[trigger] is_peer(i as int, j2) && j2 < 9 * r2 ==> exists|k: int|
                    0 <= k < p@.len() && p@[k] == j2,
            forall|k1: int, k2: int| 0 <= k1 < k2 < p@.len() ==> p@[k1] < p@[k2],
            p@.len() == peers_before_row(row as int, col as int, r2 as int),
        decreases 9 - r2,
    {
        let mut c2: usize = 0;
        while c2 < 9
            invariant
                i < 81,
                row == i / 9,
                col == i % 9,
                r2 < 9,
                c2 <= 9,
                forall|k: int| 0 <= k < p@.len() ==> is_peer(i as int, #[trigger] p@[k] as int),
                forall|k: int| 0 <= k < p@.len() ==> #[trigger] p@[k] < 9 * r2 + c2,
                forall|j2: int|
                    #[trigger] is_peer(i as int, j2) && j2 < 9 * r2 + c2 ==> exists|k: int|
                        0 <= k < p@.len() && p@[k] == j2,
                forall|k1: int, k2: int| 0 <= k1 < k2 < p@.len() ==> p@[k1] < p@[k2],
                p@.len() == peers_before_row(row as int, col as int, r2 as int)
                    + peers_in_row_before(row as int, col as int, r2 as int, c2 as int),
            decreases 9 - c2,
        {
            let j = 9 * r2 + c2;
            assert(j / 9 == r2 && j % 9 == c2);
            let ghost prev = p@;
            if peer_test(i, j) {
                p.push(j);
                assert(p@[p@.len() - 1] == j);
            }
            assert forall|j2: int| #[trigger] is_peer(i as int, j2) && j2 < j + 1 implies exists|k: int|
                0 <= k < p@.len() && p@[k] == j2 by {
                if j2 == j {
                    assert(p@[p@.len() - 1] == j2);
                } else {
                    let k = choose|k: int| 0 <= k < prev.len() && prev[k] == j2;
                    assert(p@[k] == j2);
                }
            }
            c2 = c2 + 1;
        }
        r2 = r2 + 1;
    }
    p
}

} // verus!
