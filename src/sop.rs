//! Sequential Ordering Problem instances: the cost matrix and, for every
//! city, the cities that must precede it and the cities that may follow it.
use vstd::prelude::*;

use crate::format::{parse_row, parse_u32, row_values, u32_text};

verus! {

pub type CityId = u32;

pub type Cost = i32;

/// `l` lists, in increasing order, exactly the columns `j < row.len()` other
/// than `own` whose entry is negative (when `neg`) or non-negative (when
/// `!neg`). A city is never listed in its own row.
pub open spec fn lists_by_sign(l: Seq<CityId>, row: Seq<Cost>, own: int, neg: bool) -> bool {
    &&& forall|a: int, b: int| 0 <= a < b < l.len() ==> l[a] < l[b]
    &&& forall|k: int|
        0 <= k < l.len() ==> (#[trigger] l[k] as int) < row.len() && l[k] != own && (row[l[k] as int]
            < 0) == neg
    &&& forall|j: int|
        0 <= j < row.len() && j != own && (#[trigger] row[j] < 0) == neg ==> l.contains(
            j as CityId,
        )
}

/// Why an instance text was rejected. Rows are numbered from 0, the line
/// after the header being row 0.
#[derive(Debug, PartialEq, Eq, Structural)]
pub enum LoadError {
    /// There is no first line, or it is not a `u32`.
    InvalidHeader,
    /// The text ends before this row.
    MissingRow(usize),
    /// This row holds a field that is not an `i32`, or not one entry per city.
    InvalidRow(usize),
}

/// The number of cities the header line announces.
pub open spec fn header_value(lines: Seq<Vec<u8>>) -> Option<u32> {
    if lines.len() == 0 {
        None
    } else {
        u32_text(lines[0]@)
    }
}

/// Row `i` is present and holds `n` integers.
pub open spec fn row_ok(lines: Seq<Vec<u8>>, n: int, i: int) -> bool {
    &&& i + 1 < lines.len()
    &&& row_values(lines[i + 1]@) matches Some(r) && r.len() == n
}

/// The header is a `u32` `n` and the `n` rows after it are well formed.
pub open spec fn text_ok(lines: Seq<Vec<u8>>) -> bool {
    match header_value(lines) {
        Some(n) => forall|i: int| 0 <= i < n ==> row_ok(lines, n as int, i),
        None => false,
    }
}

/// The header is a `u32` `n`, `i < n`, and the rows before row `i` are well
/// formed.
pub open spec fn rows_ok_before(lines: Seq<Vec<u8>>, i: int) -> bool {
    match header_value(lines) {
        Some(n) => 0 <= i < n && forall|k: int| 0 <= k < i ==> row_ok(lines, n as int, k),
        None => false,
    }
}

proof fn lemma_text_rejected(lines: Seq<Vec<u8>>, n: u32, i: int)
    requires
        header_value(lines) == Some(n),
        0 <= i < n,
        !row_ok(lines, n as int, i),
    ensures
        !text_ok(lines),
{
    if text_ok(lines) {
        let m = header_value(lines)->0;
        assert(m == n);
        assert(forall|k: int| 0 <= k < m ==> row_ok(lines, m as int, k));
        assert(row_ok(lines, n as int, i));
    }
}

/// The entries of row `i`.
pub open spec fn row_at(lines: Seq<Vec<u8>>, i: int) -> Seq<Cost> {
    match row_values(lines[i + 1]@) {
        Some(r) => r,
        None => Seq::empty(),
    }
}

/// Stores data about a SOP instance.
#[derive(Debug)]
pub struct Instance {
    name: String,
    n: CityId,
    matrix: Vec<Vec<Cost>>,
    predecessors: Vec<Vec<CityId>>,
    successors: Vec<Vec<CityId>>,
}

impl Instance {
    /// Number of cities.
    pub closed spec fn n_spec(&self) -> nat {
        self.n as nat
    }

    /// The cost / precedence matrix, row by row.
    pub closed spec fn matrix_spec(&self) -> Seq<Seq<Cost>> {
        self.matrix@.map_values(|r: Vec<Cost>| r@)
    }

    /// The stored predecessor list of city `i`.
    pub closed spec fn pred_spec(&self, i: int) -> Seq<CityId> {
        self.predecessors@[i]@
    }

    /// The stored successor list of city `i`.
    pub closed spec fn succ_spec(&self, i: int) -> Seq<CityId> {
        self.successors@[i]@
    }

    /// The name the instance was loaded under.
    pub closed spec fn name_spec(&self) -> Seq<char> {
        self.name@
    }

    /// Entry `(u, v)` of the matrix.
    pub open spec fn cost_spec(&self, u: int, v: int) -> Cost {
        self.matrix_spec()[u][v]
    }

    /// The stored vectors have one entry per city.
    pub closed spec fn shape(&self) -> bool {
        &&& self.matrix@.len() == self.n
        &&& self.predecessors@.len() == self.n
        &&& self.successors@.len() == self.n
    }

    /// The matrix is square, `predecessors(i)` lists the columns `j != i` of
    /// row `i` with a negative entry and `successors(i)` those with a
    /// non-negative one; the diagonal entry decides nothing.
    pub open spec fn wf(&self) -> bool {
        &&& self.shape()
        &&& self.n_spec() <= u32::MAX
        &&& self.matrix_spec().len() == self.n_spec()
        &&& forall|i: int|
            0 <= i < self.n_spec() ==> {
                &&& (#[trigger] self.matrix_spec()[i]).len() == self.n_spec()
                &&& lists_by_sign(self.pred_spec(i), self.matrix_spec()[i], i, true)
                &&& lists_by_sign(self.succ_spec(i), self.matrix_spec()[i], i, false)
            }
    }

    /// Reads an instance from the lines of its text: the first line holds
    /// the number of cities `n`, each of the next `n` lines one matrix row of
    /// `n` tab-separated integers. Lines after the last row are ignored.
    pub fn new(filename: &str, lines: &Vec<Vec<u8>>) -> (r: Result<Instance, LoadError>)
        ensures
            r == Err::<Instance, LoadError>(LoadError::InvalidHeader) <==> header_value(
                lines@,
            ) is None,
            r is Ok <==> text_ok(lines@),
            r matches Ok(inst) ==> {
                &&& inst.wf()
                &&& header_value(lines@) == Some(inst.n_spec() as u32)
                &&& forall|i: int|
                    0 <= i < inst.n_spec() ==> #[trigger] inst.matrix_spec()[i] == row_at(
                        lines@,
                        i,
                    )
                &&& inst.name_spec() == filename@
            },
            r matches Err(LoadError::MissingRow(i)) ==> rows_ok_before(lines@, i as int) && i + 1
                >= lines@.len(),
            r matches Err(LoadError::InvalidRow(i)) ==> rows_ok_before(lines@, i as int) && i + 1
                < lines@.len() && !row_ok(lines@, header_value(lines@)->0 as int, i as int),
    {
        if lines.len() == 0 {
            return Err(LoadError::InvalidHeader);
        }
        let n = match parse_u32(&lines[0]) {
            Some(v) => v,
            None => {
                return Err(LoadError::InvalidHeader);
            },
        };
        let mut matrix: Vec<Vec<Cost>> = Vec::new();
        let mut i: usize = 0;
        while i < n as usize
            invariant
                header_value(lines@) == Some(n),
                i <= n,
                matrix@.len() == i,
                forall|k: int| 0 <= k < i ==> row_ok(lines@, n as int, k),
                forall|k: int| 0 <= k < i ==> (#[trigger] matrix@[k])@ == row_at(lines@, k),
            decreases n - i,
        {
            if i + 1 >= lines.len() {
                proof {
                    assert(!row_ok(lines@, n as int, i as int));
                    lemma_text_rejected(lines@, n, i as int);
                }
                return Err(LoadError::MissingRow(i));
            }
            match parse_row(&lines[i + 1]) {
                Some(row) => {
                    if row.len() != n as usize {
                        proof {
                            assert(!row_ok(lines@, n as int, i as int));
                            lemma_text_rejected(lines@, n, i as int);
                        }
                        return Err(LoadError::InvalidRow(i));
                    }
                    matrix.push(row);
                },
                None => {
                    proof {
                        assert(!row_ok(lines@, n as int, i as int));
                        lemma_text_rejected(lines@, n, i as int);
                    }
                    return Err(LoadError::InvalidRow(i));
                },
            }
            i += 1;
        }
        match Instance::from_matrix(filename, matrix) {
            Some(inst) => {
                proof {
                    assert forall|i: int| 0 <= i < inst.n_spec() implies #[trigger] inst.matrix_spec()[i]
                        == row_at(lines@, i) by {
                        assert(matrix@[i]@ == row_at(lines@, i));
                    }
                }
                Ok(inst)
            },
            // not reached: every row read holds `n` entries
            None => {
                proof {
                    assert(forall|k: int| 0 <= k < matrix@.len() ==> (#[trigger] matrix@[k])@.len() == matrix@.len()) by {
                        assert forall|k: int| 0 <= k < matrix@.len() implies (#[trigger] matrix@[k])@.len() == matrix@.len() by {
                            assert(row_ok(lines@, n as int, k));
                        }
                    }
                }
                Err(LoadError::InvalidHeader)
            },
        }
    }

    /// Builds an instance from a square matrix, computing the predecessor and
    /// successor lists of every city. Returns `None` when the matrix is not
    /// square or has more rows than a `CityId` can count.
    pub fn from_matrix(name: &str, matrix: Vec<Vec<Cost>>) -> (r: Option<Instance>)
        ensures
            r.is_some() <==> matrix@.len() <= u32::MAX && forall|i: int|
                0 <= i < matrix@.len() ==> (#[trigger] matrix@[i])@.len() == matrix@.len(),
            r matches Some(inst) ==> {
                &&& inst.wf()
                &&& inst.n_spec() == matrix@.len()
                &&& inst.matrix_spec() == matrix@.map_values(|row: Vec<Cost>| row@)
                &&& inst.name_spec() == name@
            },
    {
        let len = matrix.len();
        if len > u32::MAX as usize {
            return None;
        }
        let mut predecessors: Vec<Vec<CityId>> = Vec::new();
        let mut successors: Vec<Vec<CityId>> = Vec::new();
        let mut i: usize = 0;
        while i < len
            invariant
                len == matrix@.len(),
                len <= u32::MAX,
                i <= len,
                predecessors@.len() == i,
                successors@.len() == i,
                forall|k: int|
                    0 <= k < i ==> {
                        &&& (#[trigger] matrix@[k])@.len() == len
                        &&& lists_by_sign(predecessors@[k]@, matrix@[k]@, k, true)
                        &&& lists_by_sign(successors@[k]@, matrix@[k]@, k, false)
                    },
            decreases len - i,
        {
            if matrix[i].len() != len {
                return None;
            }
            let (p, s) = split_by_sign(&matrix[i], i);
            predecessors.push(p);
            successors.push(s);
            i += 1;
        }
        let inst = Instance {
            name: name.to_owned(),
            n: len as CityId,
            matrix,
            predecessors,
            successors,
        };
        assert(inst.matrix_spec().len() == inst.n_spec());
        assert forall|i: int| 0 <= i < inst.n_spec() implies {
            &&& (#[trigger] inst.matrix_spec()[i]).len() == inst.n_spec()
            &&& lists_by_sign(inst.pred_spec(i), inst.matrix_spec()[i], i, true)
            &&& lists_by_sign(inst.succ_spec(i), inst.matrix_spec()[i], i, false)
        } by {
            assert(inst.matrix_spec()[i] == inst.matrix@[i]@);
        }
        Some(inst)
    }

    /// Number of cities, the origin included.
    pub fn nb_cities(&self) -> (r: CityId)
        ensures
            r == self.n_spec(),
    {
        self.n
    }

    /// The cities that must be visited before `i`, in increasing order.
    pub fn predecessors(&self, i: &CityId) -> (r: &Vec<CityId>)
        requires
            self.wf(),
            *i < self.n_spec(),
        ensures
            r@ == self.pred_spec(*i as int),
    {
        &self.predecessors[*i as usize]
    }

    /// The cities that may be visited right after `i`, in increasing order.
    pub fn possible_successors(&self, i: &CityId) -> (r: &Vec<CityId>)
        requires
            self.wf(),
            *i < self.n_spec(),
        ensures
            r@ == self.succ_spec(*i as int),
    {
        &self.successors[*i as usize]
    }

    /// The matrix entry of the arc from `u` to `v`.
    pub fn cost_arc(&self, u: CityId, v: CityId) -> (r: Cost)
        requires
            self.wf(),
            u < self.n_spec(),
            v < self.n_spec(),
        ensures
            r == self.cost_spec(u as int, v as int),
    {
        proof {
            assert(self.matrix_spec()[u as int] == self.matrix@[u as int]@);
        }
        self.matrix[u as usize][v as usize]
    }
}

/// Every column of a row other than the row's own city is either a
/// predecessor or a possible successor of that city, never both, as the sign
/// of its entry says; the city itself is in neither list.
pub proof fn lemma_sign_partition(inst: Instance, i: int, j: int)
    requires
        inst.wf(),
        0 <= i < inst.n_spec(),
        0 <= j < inst.n_spec(),
    ensures
        j != i ==> (inst.pred_spec(i).contains(j as CityId) <==> inst.cost_spec(i, j) < 0),
        j != i ==> (inst.succ_spec(i).contains(j as CityId) <==> inst.cost_spec(i, j) >= 0),
        j != i ==> inst.pred_spec(i).contains(j as CityId) || inst.succ_spec(i).contains(
            j as CityId,
        ),
        !(inst.pred_spec(i).contains(j as CityId) && inst.succ_spec(i).contains(j as CityId)),
        !inst.pred_spec(i).contains(i as CityId),
        !inst.succ_spec(i).contains(i as CityId),
{
    let row = inst.matrix_spec()[i];
    let pl = inst.pred_spec(i);
    let sl = inst.succ_spec(i);
    if pl.contains(j as CityId) {
        let k = choose|k: int| 0 <= k < pl.len() && pl[k] == j as CityId;
        assert(row[pl[k] as int] < 0);
    }
    if sl.contains(j as CityId) {
        let k = choose|k: int| 0 <= k < sl.len() && sl[k] == j as CityId;
        assert(row[sl[k] as int] >= 0);
    }
    if pl.contains(i as CityId) {
        let k = choose|k: int| 0 <= k < pl.len() && pl[k] == i as CityId;
        assert(pl[k] != i);
    }
    if sl.contains(i as CityId) {
        let k = choose|k: int| 0 <= k < sl.len() && sl[k] == i as CityId;
        assert(sl[k] != i);
    }
    if j != i {
        if row[j] < 0 {
            assert(pl.contains(j as CityId));
        } else {
            assert(sl.contains(j as CityId));
        }
    }
}

/// Splits the columns of row `own` other than `own` itself by the sign of
/// their entry: negative entries first, non-negative entries second, each
/// list in increasing order.
fn split_by_sign(row: &Vec<Cost>, own: usize) -> (r: (Vec<CityId>, Vec<CityId>))
    requires
        row@.len() <= u32::MAX,
    ensures
        lists_by_sign(r.0@, row@, own as int, true),
        lists_by_sign(r.1@, row@, own as int, false),
{
    let mut neg: Vec<CityId> = Vec::new();
    let mut pos: Vec<CityId> = Vec::new();
    let mut j: usize = 0;
    while j < row.len()
        invariant
            row@.len() <= u32::MAX,
            j <= row@.len(),
            forall|a: int, b: int| 0 <= a < b < neg@.len() ==> neg@[a] < neg@[b],
            forall|a: int, b: int| 0 <= a < b < pos@.len() ==> pos@[a] < pos@[b],
            forall|k: int|
                0 <= k < neg@.len() ==> (#[trigger] neg@[k] as int) < j && neg@[k] != own
                    && row@[neg@[k] as int] < 0,
            forall|k: int|
                0 <= k < pos@.len() ==> (#[trigger] pos@[k] as int) < j && pos@[k] != own
                    && row@[pos@[k] as int] >= 0,
            forall|x: int|
                0 <= x < j && x != own && #[trigger] row@[x] < 0 ==> neg@.contains(x as CityId),
            forall|x: int|
                0 <= x < j && x != own && #[trigger] row@[x] >= 0 ==> pos@.contains(x as CityId),
        decreases row@.len() - j,
    {
        let ghost old_neg = neg@;
        let ghost old_pos = pos@;
        if j == own {
        } else if row[j] < 0 {
            neg.push(j as CityId);
            assert(neg@[neg@.len() - 1] == j as CityId);
        } else {
            pos.push(j as CityId);
            assert(pos@[pos@.len() - 1] == j as CityId);
        }
        assert forall|y: CityId| old_neg.contains(y) implies neg@.contains(y) by {
            let k = choose|k: int| 0 <= k < old_neg.len() && old_neg[k] == y;
            assert(neg@[k] == y);
        }
        assert forall|y: CityId| old_pos.contains(y) implies pos@.contains(y) by {
            let k = choose|k: int| 0 <= k < old_pos.len() && old_pos[k] == y;
            assert(pos@[k] == y);
        }
        j += 1;
    }
    (neg, pos)
}

} // verus!
