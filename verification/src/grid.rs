//! The shape of a grid: cells, their row-major indices and their neighbors.
use vstd::arithmetic::div_mod::*;
use vstd::arithmetic::mul::*;
use vstd::prelude::*;

verus! {

/// Half the size of the address space, `2^(usize::BITS - 1)`.
pub open spec fn half_usize() -> nat {
    (usize::MAX as nat + 1) / 2
}

/// `x + d` modulo `2^usize::BITS`: an offset `d` stands for `d - 2^usize::BITS` when large.
pub open spec fn wrap_add(x: usize, d: usize) -> int {
    (x + d) % (usize::MAX as int + 1)
}

/// The shape of a grid with `h` rows and `w` columns: the cells `[0, h) x [0, w)`.
#[derive(Clone, Copy)]
pub struct GridShape {
    h: usize,
    w: usize,
}

/// The row-major index `i w + j` of the cell `(i, j)`.
pub open spec fn spec_index(w: nat, i: nat, j: nat) -> nat {
    i * w + j
}

impl GridShape {
    #[verifier::type_invariant]
    spec fn wf(self) -> bool {
        &&& self.h * self.w <= usize::MAX
        &&& self.h <= half_usize()
        &&& self.w <= half_usize()
    }

    /// The number of rows.
    pub closed spec fn spec_h(self) -> nat {
        self.h as nat
    }

    /// The number of columns.
    pub closed spec fn spec_w(self) -> nat {
        self.w as nat
    }

    /// Whether `(i, j)` is a cell of the grid.
    pub open spec fn contains(self, i: int, j: int) -> bool {
        0 <= i < self.spec_h() && 0 <= j < self.spec_w()
    }

    /// The shape of a grid with `h` rows and `w` columns.
    pub fn new(h: usize, w: usize) -> (g: Self)
        requires
            h * w <= usize::MAX,
            h <= half_usize(),
            w <= half_usize(),
        ensures
            g.spec_h() == h,
            g.spec_w() == w,
    {
        GridShape { h, w }
    }

    /// The number of rows.
    pub fn h(&self) -> (h: usize)
        ensures
            h == self.spec_h(),
    {
        self.h
    }

    /// The number of columns.
    pub fn w(&self) -> (w: usize)
        ensures
            w == self.spec_w(),
    {
        self.w
    }

    /// The row-major index `i w + j` of the cell `(i, j)`.
    pub fn index(&self, i: usize, j: usize) -> (u: usize)
        requires
            self.contains(i as int, j as int),
        ensures
            u == spec_index(self.spec_w(), i as nat, j as nat),
            u < self.spec_h() * self.spec_w(),
    {
        proof {
            use_type_invariant(self);
            lemma_mul_inequality(i as int + 1, self.h as int, self.w as int);
            lemma_mul_is_distributive_add_other_way(self.w as int, i as int, 1);
        }
        i * self.w + j
    }

    /// The cell `(u / w, u % w)` whose row-major index is `u`.
    pub fn coord(&self, u: usize) -> (c: (usize, usize))
        requires
            u < self.spec_h() * self.spec_w(),
        ensures
            self.contains(c.0 as int, c.1 as int),
            spec_index(self.spec_w(), c.0 as nat, c.1 as nat) == u,
    {
        proof {
            use_type_invariant(self);
            if self.w == 0 {
                lemma_mul_basics(self.h as int);
            }
            lemma_fundamental_div_mod(u as int, self.w as int);
            lemma_mod_bound(u as int, self.w as int);
            lemma_div_pos_is_pos(u as int, self.w as int);
            lemma_mul_is_commutative(self.h as int, self.w as int);
            if u / self.w >= self.h {
                lemma_mul_inequality(self.h as int, (u / self.w) as int, self.w as int);
                lemma_mul_is_commutative(self.w as int, (u / self.w) as int);
            }
            lemma_mul_is_commutative(self.w as int, (u / self.w) as int);
        }
        (u / self.w, u % self.w)
    }

    /// The cell `(i + di, j + dj)`, the offsets taken modulo `2^usize::BITS`, or `None` if it is
    /// outside the grid.
    pub fn shift(&self, c: (usize, usize), d: (usize, usize)) -> (r: Option<(usize, usize)>)
        requires
            self.contains(c.0 as int, c.1 as int),
        ensures
            r == (if self.contains(wrap_add(c.0, d.0), wrap_add(c.1, d.1)) {
                Some((wrap_add(c.0, d.0) as usize, wrap_add(c.1, d.1) as usize))
            } else {
                None
            }),
    {
        let (i, j) = c;
        let (di, dj) = d;
        let ni = i.wrapping_add(di);
        let nj = j.wrapping_add(dj);
        proof {
            let m = usize::MAX as int + 1;
            if i + di > usize::MAX {
                lemma_fundamental_div_mod_converse(i + di, m, 1, i + di - m);
            } else {
                lemma_small_mod((i + di) as nat, m as nat);
            }
            if j + dj > usize::MAX {
                lemma_fundamental_div_mod_converse(j + dj, m, 1, j + dj - m);
            } else {
                lemma_small_mod((j + dj) as nat, m as nat);
            }
        }
        if ni < self.h && nj < self.w {
            Some((ni, nj))
        } else {
            None
        }
    }

    /// The cells among `cells` inside the grid, in order.
    pub open spec fn inside(self, cells: Seq<(int, int)>) -> Seq<(int, int)> {
        cells.filter(|c: (int, int)| self.contains(c.0, c.1))
    }

    /// The 4-neighbors of the cell `(i, j)`: the cells of the grid at distance `1`, in the order
    /// `(i - 1, j)`, `(i, j - 1)`, `(i, j + 1)`, `(i + 1, j)`.
    pub fn neighbors4(&self, i: usize, j: usize) -> (r: Vec<(usize, usize)>)
        requires
            self.contains(i as int, j as int),
        ensures
            r@.map_values(|c: (usize, usize)| (c.0 as int, c.1 as int)) == self.inside(
                seq![(i - 1, j as int), (i as int, j - 1), (i as int, j + 1), (i + 1, j as int)],
            ),
    {
        let dirs: [(usize, usize); 4] = [(usize::MAX, 0), (0, usize::MAX), (0, 1), (1, 0)];
        let ghost cells = seq![
            (i - 1, j as int),
            (i as int, j - 1),
            (i as int, j + 1),
            (i + 1, j as int),
        ];
        self.neighbors_by(i, j, &dirs, Ghost(cells))
    }

    /// The 8-neighbors of the cell `(i, j)`: the cells of the grid at Chebyshev distance `1`, in
    /// lexicographic order.
    pub fn neighbors8(&self, i: usize, j: usize) -> (r: Vec<(usize, usize)>)
        requires
            self.contains(i as int, j as int),
        ensures
            r@.map_values(|c: (usize, usize)| (c.0 as int, c.1 as int)) == self.inside(
                seq![
                    (i - 1, j - 1),
                    (i - 1, j as int),
                    (i - 1, j + 1),
                    (i as int, j - 1),
                    (i as int, j + 1),
                    (i + 1, j - 1),
                    (i + 1, j as int),
                    (i + 1, j + 1),
                ],
            ),
    {
        let dirs: [(usize, usize); 8] = [
            (usize::MAX, usize::MAX),
            (usize::MAX, 0),
            (usize::MAX, 1),
            (0, usize::MAX),
            (0, 1),
            (1, usize::MAX),
            (1, 0),
            (1, 1),
        ];
        let ghost cells = seq![
            (i - 1, j - 1),
            (i - 1, j as int),
            (i - 1, j + 1),
            (i as int, j - 1),
            (i as int, j + 1),
            (i + 1, j - 1),
            (i + 1, j as int),
            (i + 1, j + 1),
        ];
        self.neighbors_by(i, j, &dirs, Ghost(cells))
    }

    /// The cells `(i + di, j + dj)` inside the grid, for the offsets `(di, dj)` of `dirs` in order,
    /// each of which is `-1`, `0` or `1` modulo `2^usize::BITS`.
    fn neighbors_by(&self, i: usize, j: usize, dirs: &[(usize, usize)], Ghost(cells): Ghost<
        Seq<(int, int)>,
    >) -> (r: Vec<(usize, usize)>)
        requires
            self.contains(i as int, j as int),
            dirs@.len() == cells.len(),
            forall|k: int|
                0 <= k < dirs@.len() ==> (#[trigger] dirs@[k].0 == usize::MAX && cells[k].0 == i - 1
                    || dirs@[k].0 == 0 && cells[k].0 == i || dirs@[k].0 == 1 && cells[k].0 == i + 1)
                    && (dirs@[k].1 == usize::MAX && cells[k].1 == j - 1 || dirs@[k].1 == 0
                    && cells[k].1 == j || dirs@[k].1 == 1 && cells[k].1 == j + 1),
        ensures
            r@.map_values(|c: (usize, usize)| (c.0 as int, c.1 as int)) == self.inside(cells),
    {
        proof {
            use_type_invariant(self);
        }
        let mut r: Vec<(usize, usize)> = Vec::new();
        let mut k: usize = 0;
        while k < dirs.len()
            invariant
                k <= dirs@.len(),
                self.wf(),
                self.contains(i as int, j as int),
                dirs@.len() == cells.len(),
                forall|k: int|
                    0 <= k < dirs@.len() ==> (#[trigger] dirs@[k].0 == usize::MAX && cells[k].0 == i
                        - 1 || dirs@[k].0 == 0 && cells[k].0 == i || dirs@[k].0 == 1 && cells[k].0
                        == i + 1) && (dirs@[k].1 == usize::MAX && cells[k].1 == j - 1 || dirs@[k].1
                        == 0 && cells[k].1 == j || dirs@[k].1 == 1 && cells[k].1 == j + 1),
                r@.map_values(|c: (usize, usize)| (c.0 as int, c.1 as int)) == self.inside(
                    cells.take(k as int),
                ),
            decreases dirs@.len() - k,
        {
            let s = self.shift((i, j), dirs[k]);
            proof {
                let m = usize::MAX as int + 1;
                let d = dirs@[k as int];
                if d.0 == usize::MAX {
                    if i == 0 {
                        lemma_small_mod(usize::MAX as nat, m as nat);
                    } else {
                        lemma_fundamental_div_mod_converse(i + d.0, m, 1, i - 1);
                    }
                } else {
                    lemma_small_mod((i + d.0) as nat, m as nat);
                }
                if d.1 == usize::MAX {
                    if j == 0 {
                        lemma_small_mod(usize::MAX as nat, m as nat);
                    } else {
                        lemma_fundamental_div_mod_converse(j + d.1, m, 1, j - 1);
                    }
                } else {
                    lemma_small_mod((j + d.1) as nat, m as nat);
                }
                reveal_with_fuel(Seq::<_>::filter, 1);
                assert(cells.take(k as int + 1).drop_last() =~= cells.take(k as int));
            }
            match s {
                Some(c) => {
                    r.push(c);
                },
                None => {},
            }
            proof {
                let f = |c: (usize, usize)| (c.0 as int, c.1 as int);
                assert(r@.map_values(f) =~= self.inside(cells.take(k as int + 1)));
            }
            k = k + 1;
        }
        proof {
            assert(cells.take(k as int) =~= cells);
        }
        r
    }
}

} // verus!
