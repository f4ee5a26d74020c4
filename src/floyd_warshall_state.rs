use vstd::prelude::*;
use vstd::arithmetic::div_mod::lemma_fundamental_div_mod_converse;

use crate::utils::{get_1D_index_from, lemma_side_square_fits};

verus! {

/// The complete runtime state of the stepwise Floyd-Warshall interpreter.
///
/// `dist` and `next` are `V x V` matrices stored row-major; they stay `None` until the
/// program table allocates them.
#[allow(non_snake_case)]
pub struct FloydWarshallState {
    pub current_step: u32,
    pub current_line: u8,
    pub is_done: bool,
    pub V: u16,
    pub u: Option<u16>,
    pub v: Option<u16>,
    pub k: Option<u16>,
    pub i: Option<u16>,
    pub j: Option<u16>,
    pub dist: Option<Vec<u16>>,
    pub next: Option<Vec<Option<u16>>>,
}

/// Mathematical model of a `FloydWarshallState`: the same fields, with the matrices
/// seen as sequences.
#[allow(non_snake_case)]
pub struct StateView {
    pub current_step: u32,
    pub current_line: u8,
    pub is_done: bool,
    pub V: u16,
    pub u: Option<u16>,
    pub v: Option<u16>,
    pub k: Option<u16>,
    pub i: Option<u16>,
    pub j: Option<u16>,
    pub dist: Option<Seq<u16>>,
    pub next: Option<Seq<Option<u16>>>,
}

/// Flat offset of cell `(r, c)` in a row-major matrix of side `n`.
pub open spec fn flat(r: int, c: int, n: int) -> int {
    r * n + c
}

/// Cells of a square matrix map to offsets inside its flat storage.
pub proof fn lemma_flat_in_bounds(r: int, c: int, n: int)
    requires
        0 <= r < n,
        0 <= c < n,
    ensures
        0 <= flat(r, c, n) < n * n,
{
    assert(0 <= r * n + c < n * n) by (nonlinear_arith)
        requires
            0 <= r < n,
            0 <= c < n,
    ;
}

/// The input matrix flattened row-major into distance cells.
pub open spec fn flatten_matrix(m: Seq<Seq<u8>>, n: int) -> Seq<u16> {
    Seq::new((n * n) as nat, |p: int| m[p / n][p % n] as u16)
}

/// The matrix is square with side `n`.
pub open spec fn is_square(m: Seq<Seq<u8>>, n: int) -> bool {
    &&& m.len() == n
    &&& forall|r: int| 0 <= r < n ==> (#[trigger] m[r]).len() == n
}

/// A register holds either nothing or a vertex index below `n`.
pub open spec fn reg_ok(r: Option<u16>, n: u16) -> bool {
    match r {
        Some(x) => x < n,
        None => true,
    }
}

impl StateView {
    /// Distance estimate stored for the pair `(r, c)`.
    pub open spec fn dist_at(self, r: int, c: int) -> u16 {
        self.dist.unwrap()[flat(r, c, self.V as int)]
    }

    /// Successor stored for the pair `(r, c)`.
    pub open spec fn next_at(self, r: int, c: int) -> Option<u16> {
        self.next.unwrap()[flat(r, c, self.V as int)]
    }

    /// Allocated matrices have `V * V` cells and every register names a vertex.
    pub open spec fn wf(self) -> bool {
        &&& (self.dist matches Some(d) ==> d.len() == self.V * self.V)
        &&& (self.next matches Some(x) ==> x.len() == self.V * self.V)
        &&& reg_ok(self.u, self.V)
        &&& reg_ok(self.v, self.V)
        &&& reg_ok(self.k, self.V)
        &&& reg_ok(self.i, self.V)
        &&& reg_ok(self.j, self.V)
    }

    pub open spec fn with_dist(self, r: int, c: int, value: u16) -> StateView {
        StateView { dist: Some(self.dist.unwrap().update(flat(r, c, self.V as int), value)), ..self }
    }

    pub open spec fn with_next(self, r: int, c: int, value: Option<u16>) -> StateView {
        StateView { next: Some(self.next.unwrap().update(flat(r, c, self.V as int), value)), ..self }
    }
}

/// The state that `make` builds for a graph of `n` vertices.
pub open spec fn initial(n: u16) -> StateView {
    StateView {
        current_step: 0,
        current_line: 0,
        is_done: false,
        V: n,
        u: None,
        v: None,
        k: None,
        i: None,
        j: None,
        dist: None,
        next: None,
    }
}

impl FloydWarshallState {
    pub open spec fn view(&self) -> StateView {
        StateView {
            current_step: self.current_step,
            current_line: self.current_line,
            is_done: self.is_done,
            V: self.V,
            u: self.u,
            v: self.v,
            k: self.k,
            i: self.i,
            j: self.j,
            dist: match self.dist {
                Some(d) => Some(d@),
                None => None,
            },
            next: match self.next {
                Some(x) => Some(x@),
                None => None,
            },
        }
    }

    /// A fresh state for a graph of `matrix_length` vertices: counters at their start,
    /// registers empty, matrices not yet allocated.
    pub fn make(matrix_length: u16) -> (r: Self)
        ensures
            r@ == initial(matrix_length),
            r@.wf(),
    {
        FloydWarshallState {
            current_step: 0,
            current_line: 0,
            is_done: false,
            V: matrix_length,
            u: None,
            v: None,
            k: None,
            i: None,
            j: None,
            dist: None,
            next: None,
        }
    }

    /// Allocates `dist` as a copy of the square input matrix, flattened row-major.
    pub fn init_dist_from(&mut self, adjacency_matrix: &Vec<Vec<u8>>)
        requires
            is_square(adjacency_matrix@.map_values(|row: Vec<u8>| row@), old(self).V as int),
        ensures
            final(self)@ == (StateView {
                dist: Some(flatten_matrix(adjacency_matrix@.map_values(|row: Vec<u8>| row@), old(self).V as int)),
                ..old(self)@
            }),
    {
        let ghost m = adjacency_matrix@.map_values(|row: Vec<u8>| row@);
        let n: usize = self.V as usize;
        let mut dist: Vec<u16> = Vec::new();
        let mut y: usize = 0;
        while y < n
            invariant
                n == self.V,
                m == adjacency_matrix@.map_values(|row: Vec<u8>| row@),
                is_square(m, n as int),
                y <= n,
                dist@.len() == y * n,
                forall|p: int| 0 <= p < dist@.len() ==> dist@[p] == m[p / (n as int)][p % (n as int)] as u16,
            decreases n - y,
        {
            assert(m[y as int] == adjacency_matrix@[y as int]@);
            let mut x: usize = 0;
            while x < n
                invariant
                    n == self.V,
                    m == adjacency_matrix@.map_values(|row: Vec<u8>| row@),
                    is_square(m, n as int),
                    y < n,
                    x <= n,
                    m[y as int] == adjacency_matrix@[y as int]@,
                    dist@.len() == y * n + x,
                    forall|p: int| 0 <= p < dist@.len() ==> dist@[p] == m[p / (n as int)][p % (n as int)] as u16,
                decreases n - x,
            {
                proof {
                    lemma_fundamental_div_mod_converse((y * n + x) as int, n as int, y as int, x as int);
                }
                dist.push(adjacency_matrix[y][x] as u16);
                x = x + 1;
            }
            proof {
                assert((y + 1) * n == y * n + n) by (nonlinear_arith);
            }
            y = y + 1;
        }
        assert(dist@ =~= flatten_matrix(m, n as int));
        self.dist = Some(dist);
    }

    /// Allocates `next` with `V * V` cells, each holding no successor.
    pub fn init_next(&mut self)
        ensures
            final(self)@ == (StateView {
                next: Some(Seq::new((old(self).V * old(self).V) as nat, |p: int| None::<u16>)),
                ..old(self)@
            }),
    {
        proof {
            lemma_side_square_fits(self.V);
        }
        let n: usize = self.V as usize;
        let total: usize = n * n;
        let mut next: Vec<Option<u16>> = Vec::new();
        let mut p: usize = 0;
        while p < total
            invariant
                total == self.V * self.V,
                p <= total,
                next@ =~= Seq::new(p as nat, |q: int| None::<u16>),
            decreases total - p,
        {
            next.push(None);
            p = p + 1;
        }
        self.next = Some(next);
    }

    /// Stores `value` as the distance estimate of the pair `(i, j)`.
    pub fn update_dist(&mut self, i: u16, j: u16, value: u16)
        requires
            old(self)@.wf(),
            old(self).dist is Some,
            i < old(self).V,
            j < old(self).V,
        ensures
            final(self)@ == old(self)@.with_dist(i as int, j as int, value),
            final(self)@.wf(),
    {
        proof {
            lemma_side_square_fits(self.V);
        }
        let index = get_1D_index_from(i as usize, j as usize, self.V as usize);
        match &mut self.dist {
            Some(d) => {
                d.set(index, value);
            },
            None => {},
        }
    }

    /// Stores `value` as the successor of the pair `(i, j)`.
    pub fn update_next(&mut self, i: u16, j: u16, value: Option<u16>)
        requires
            old(self)@.wf(),
            old(self).next is Some,
            i < old(self).V,
            j < old(self).V,
        ensures
            final(self)@ == old(self)@.with_next(i as int, j as int, value),
            final(self)@.wf(),
    {
        proof {
            lemma_side_square_fits(self.V);
        }
        let index = get_1D_index_from(i as usize, j as usize, self.V as usize);
        match &mut self.next {
            Some(x) => {
                x.set(index, value);
            },
            None => {},
        }
    }

    /// The distance estimate of the pair `(i, j)`.
    pub fn get_dist(&self, i: u16, j: u16) -> (r: u16)
        requires
            self@.wf(),
            self.dist is Some,
            i < self.V,
            j < self.V,
        ensures
            r == self@.dist_at(i as int, j as int),
    {
        proof {
            lemma_side_square_fits(self.V);
        }
        let index = get_1D_index_from(i as usize, j as usize, self.V as usize);
        match &self.dist {
            Some(d) => d[index],
            None => 0,
        }
    }

    /// The successor of the pair `(i, j)`.
    pub fn get_next(&self, i: u16, j: u16) -> (r: Option<u16>)
        requires
            self@.wf(),
            self.next is Some,
            i < self.V,
            j < self.V,
        ensures
            r == self@.next_at(i as int, j as int),
    {
        proof {
            lemma_side_square_fits(self.V);
        }
        let index = get_1D_index_from(i as usize, j as usize, self.V as usize);
        match &self.next {
            Some(x) => x[index],
            None => None,
        }
    }
}

} // verus!
