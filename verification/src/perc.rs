//! Percolation model: an n-by-n grid of sites, each open or closed, over
//! two union-find structures. One structure carries a virtual top element
//! (index 0) and a virtual bottom element (index n*n+1) and answers the
//! percolation query; the second carries only the virtual top and answers
//! the fullness query, so that a bottom-row site connected to the virtual
//! bottom alone is never reported full (the backwash artifact).
//!
//! Site (row, col), both 1-indexed, is stored at flat grid index
//! (row-1)*n + (col-1) and at element (row-1)*n + col in both structures.

use crate::union_find::QuickFind;
use crate::union_find::absorbed_into;
use crate::union_find::lemma_absorbed_extend;
use crate::union_find::lemma_absorbed_refl;
use crate::union_find::same_set;
use vstd::prelude::*;

verus! {

/// Flat grid index of site (row, col) on an n-by-n grid.
pub open spec fn site_index(n: int, row: int, col: int) -> int {
    (row - 1) * n + (col - 1)
}

/// Union-find element of site (row, col); element 0 is the virtual top.
pub open spec fn field_of(n: int, row: int, col: int) -> int {
    (row - 1) * n + col
}

/// The number of open sites among the first bound entries of the grid.
pub open spec fn count_open(grid: Seq<bool>, bound: int) -> int
    decreases bound,
{
    if bound <= 0 {
        0
    } else {
        count_open(grid, bound - 1) + if grid[bound - 1] {
            1int
        } else {
            0int
        }
    }
}

/// The elements whose component is merged into the component of site
/// (row, col) when that site is opened on the grid `grid` over the
/// partition `rep`: the site's own element, the virtual top if the site
/// is in the top row, the virtual bottom if it is in the bottom row (in
/// the structure that has one), and each already-open adjacent site.
pub open spec fn merges_with(
    n: int,
    grid: Seq<bool>,
    rep: Seq<usize>,
    row: int,
    col: int,
    with_bottom: bool,
    x: int,
) -> bool {
    ||| same_set(rep, x, field_of(n, row, col))
    ||| (row == 1 && same_set(rep, x, 0))
    ||| (with_bottom && row == n && same_set(rep, x, n * n + 1))
    ||| (row > 1 && grid[site_index(n, row - 1, col)] && same_set(rep, x, field_of(n, row - 1, col)))
    ||| (row < n && grid[site_index(n, row + 1, col)] && same_set(rep, x, field_of(n, row + 1, col)))
    ||| (col > 1 && grid[site_index(n, row, col - 1)] && same_set(rep, x, field_of(n, row, col - 1)))
    ||| (col < n && grid[site_index(n, row, col + 1)] && same_set(rep, x, field_of(n, row, col + 1)))
}

pub struct Perc {
    quick_union_structure: QuickFind,
    quick_union_structure_for_is_full: QuickFind,
    grid_size: usize,
    grid: Vec<bool>,
    virtual_top_site: usize,
    virtual_bottom_site: usize,
    open_count: usize,
}

/// Opening a closed in-range site marks exactly that site open, counts it,
/// and merges, in each union-find structure, exactly the components of the
/// elements listed by `merges_with` — nothing else changes.
pub open spec fn open_step(pre: Perc, post: Perc, row: int, col: int) -> bool {
    let n = pre.gsize();
    &&& post.gsize() == n
    &&& post.sites() == pre.sites().update(site_index(n, row, col), true)
    &&& post.count() == pre.count() + 1
    &&& post.full_rep().len() == pre.full_rep().len()
    &&& post.fill_rep().len() == pre.fill_rep().len()
    &&& forall|x: int, y: int|
        0 <= x < n * n + 2 && 0 <= y < n * n + 2 ==> (#[trigger] same_set(post.full_rep(), x, y)
            <==> (same_set(pre.full_rep(), x, y) || (merges_with(
            n,
            pre.sites(),
            pre.full_rep(),
            row,
            col,
            true,
            x,
        ) && merges_with(n, pre.sites(), pre.full_rep(), row, col, true, y))))
    &&& forall|x: int, y: int|
        0 <= x < n * n + 1 && 0 <= y < n * n + 1 ==> (#[trigger] same_set(post.fill_rep(), x, y)
            <==> (same_set(pre.fill_rep(), x, y) || (merges_with(
            n,
            pre.sites(),
            pre.fill_rep(),
            row,
            col,
            false,
            x,
        ) && merges_with(n, pre.sites(), pre.fill_rep(), row, col, false, y))))
}

/// A freshly built n-by-n model: every site closed, nothing counted,
/// and every element of both union-find structures its own singleton
/// component.
pub open spec fn fresh_model(p: Perc, n: int) -> bool {
    &&& p.wf()
    &&& p.gsize() == n
    &&& p.count() == 0
    &&& p.sites().len() == n * n
    &&& p.full_rep().len() == n * n + 2
    &&& p.fill_rep().len() == n * n + 1
    &&& forall|i: int| 0 <= i < n * n ==> !p.sites()[i]
    &&& forall|i: int| 0 <= i < n * n + 2 ==> p.full_rep()[i] == i
    &&& forall|i: int| 0 <= i < n * n + 1 ==> p.fill_rep()[i] == i
}

impl Perc {
    /// Lattice dimension n.
    pub closed spec fn gsize(&self) -> int {
        self.grid_size as int
    }

    /// Openness of the n*n sites, flat, site (row, col) at site_index.
    pub closed spec fn sites(&self) -> Seq<bool> {
        self.grid@
    }

    /// Partition of the n*n+2 elements of the percolation structure.
    pub closed spec fn full_rep(&self) -> Seq<usize> {
        self.quick_union_structure@
    }

    /// Partition of the n*n+1 elements of the fullness structure.
    pub closed spec fn fill_rep(&self) -> Seq<usize> {
        self.quick_union_structure_for_is_full@
    }

    /// The number of open sites.
    pub closed spec fn count(&self) -> int {
        self.open_count as int
    }

    /// Is site (row, col) marked open?
    pub open spec fn open_at(&self, row: int, col: int) -> bool {
        self.sites()[site_index(self.gsize(), row, col)]
    }

    /// 1-indexed coordinates on the lattice.
    pub open spec fn in_range(&self, row: int, col: int) -> bool {
        1 <= row <= self.gsize() && 1 <= col <= self.gsize()
    }

    pub closed spec fn wf(&self) -> bool {
        let n = self.grid_size as int;
        &&& n >= 1
        &&& n * n + 2 <= usize::MAX as int
        &&& self.grid@.len() == n * n
        &&& self.quick_union_structure.wf()
        &&& self.quick_union_structure@.len() == n * n + 2
        &&& self.quick_union_structure_for_is_full.wf()
        &&& self.quick_union_structure_for_is_full@.len() == n * n + 1
        &&& self.virtual_top_site == 0
        &&& self.virtual_bottom_site as int == n * n + 1
        &&& self.open_count as int == count_open(self.grid@, n * n)
    }

    /// An n-by-n grid with every site closed and every element of both
    /// union-find structures in a singleton component.
    pub fn new(n: usize) -> (r: Perc)
        requires
            n >= 1,
            n * n + 2 <= usize::MAX,
        ensures
            fresh_model(r, n as int),
    {
        let nn = n * n;
        let mut grid: Vec<bool> = Vec::new();
        let mut i: usize = 0;
        while i < nn
            invariant
                i <= nn,
                grid@.len() == i,
                forall|k: int| 0 <= k < i ==> !grid@[k],
            decreases nn - i,
        {
            grid.push(false);
            i = i + 1;
        }
        let r = Perc {
            quick_union_structure: QuickFind::new(nn + 2),
            quick_union_structure_for_is_full: QuickFind::new(nn + 1),
            grid_size: n,
            grid,
            virtual_top_site: 0,
            virtual_bottom_site: nn + 1,
            open_count: 0,
        };
        proof {
            lemma_count_open_all_closed(r.grid@, nn as int);
        }
        r
    }

    /// Dimensions that well-formedness fixes: n*n sites, n*n+2 elements
    /// in the percolation structure, n*n+1 in the fullness structure, and
    /// an open-site count that matches the grid.
    pub proof fn lemma_wf_dims(&self)
        requires
            self.wf(),
        ensures
            self.gsize() >= 1,
            self.sites().len() == self.gsize() * self.gsize(),
            self.full_rep().len() == self.gsize() * self.gsize() + 2,
            self.fill_rep().len() == self.gsize() * self.gsize() + 1,
            self.count() == count_open(self.sites(), self.gsize() * self.gsize()),
            0 <= self.count() <= self.gsize() * self.gsize(),
    {
        lemma_count_open_le(self.sites(), self.gsize() * self.gsize());
    }

    /// Is the site (row, col) open?
    pub fn is_open(&self, row: usize, col: usize) -> (r: bool)
        requires
            self.wf(),
            self.in_range(row as int, col as int),
        ensures
            r == self.open_at(row as int, col as int),
    {
        proof {
            lemma_site_bounds(self.gsize(), row as int, col as int);
        }
        self.grid[(row - 1) * self.grid_size + (col - 1)]
    }

    /// Union-find element index of the site (row, col).
    fn field_index(&self, row: usize, col: usize) -> (r: usize)
        requires
            self.wf(),
            self.in_range(row as int, col as int),
        ensures
            r as int == field_of(self.gsize(), row as int, col as int),
            1 <= r as int <= self.gsize() * self.gsize(),
    {
        proof {
            lemma_site_bounds(self.gsize(), row as int, col as int);
        }
        (row - 1) * self.grid_size + col
    }

    /// Open the site (row, col) if it is not open already: mark it open,
    /// and union its element with the virtual top if it is in the top row,
    /// with the virtual bottom (percolation structure only) if it is in
    /// the bottom row, and with each adjacent open site, in both
    /// structures. Opening an already-open site changes nothing.
    pub fn open(&mut self, row: usize, col: usize)
        requires
            old(self).wf(),
            old(self).in_range(row as int, col as int),
        ensures
            final(self).wf(),
            old(self).open_at(row as int, col as int) ==> *final(self) == *old(self),
            !old(self).open_at(row as int, col as int) ==> open_step(
                *old(self),
                *final(self),
                row as int,
                col as int,
            ),
    {
        if !self.is_open(row, col) {
            let ghost n = self.gsize();
            let ghost grid0 = self.grid@;
            let ghost f0 = self.quick_union_structure@;
            let ghost g0 = self.quick_union_structure_for_is_full@;
            let field = self.field_index(row, col);
            let ghost fld = field as int;
            proof {
                lemma_site_bounds(n, row as int, col as int);
                lemma_absorbed_refl(f0, fld);
                lemma_absorbed_refl(g0, fld);
            }
            if row == 1 {
                let ghost fa = self.quick_union_structure@;
                let ghost ga = self.quick_union_structure_for_is_full@;
                self.quick_union_structure.union(self.virtual_top_site, field);
                self.quick_union_structure_for_is_full.union(self.virtual_top_site, field);
                proof {
                    lemma_absorbed_extend(f0, fa, self.quick_union_structure@, fld, 0);
                    lemma_absorbed_extend(g0, ga, self.quick_union_structure_for_is_full@, fld, 0);
                }
            }
            proof {
                assert(absorbed_into(f0, self.quick_union_structure@, fld));
                assert(absorbed_into(g0, self.quick_union_structure_for_is_full@, fld));
                assert forall|x: int| 0 <= x < f0.len() implies (#[trigger] same_set(
                    self.quick_union_structure@,
                    x,
                    fld,
                ) <==> (same_set(f0, x, fld) || (row == 1 && same_set(f0, x, 0)))) by {}
                assert forall|x: int| 0 <= x < g0.len() implies (#[trigger] same_set(
                    self.quick_union_structure_for_is_full@,
                    x,
                    fld,
                ) <==> (same_set(g0, x, fld) || (row == 1 && same_set(g0, x, 0)))) by {}
            }
            if row == self.grid_size {
                let ghost fa = self.quick_union_structure@;
                self.quick_union_structure.union(field, self.virtual_bottom_site);
                proof {
                    lemma_absorbed_extend(
                        f0,
                        fa,
                        self.quick_union_structure@,
                        fld,
                        n * n + 1,
                    );
                }
            }
            proof {
                assert(absorbed_into(f0, self.quick_union_structure@, fld));
                assert forall|x: int| 0 <= x < f0.len() implies (#[trigger] same_set(
                    self.quick_union_structure@,
                    x,
                    fld,
                ) <==> (same_set(f0, x, fld) || (row == 1 && same_set(f0, x, 0)) || (row == n
                    && same_set(f0, x, n * n + 1)))) by {}
            }
            if row > 1 {
                if self.is_open(row - 1, col) {
                    let neighbour = self.field_index(row - 1, col);
                    let ghost fa = self.quick_union_structure@;
                    let ghost ga = self.quick_union_structure_for_is_full@;
                    self.quick_union_structure.union(neighbour, field);
                    self.quick_union_structure_for_is_full.union(neighbour, field);
                    proof {
                        lemma_absorbed_extend(
                            f0,
                            fa,
                            self.quick_union_structure@,
                            fld,
                            neighbour as int,
                        );
                        lemma_absorbed_extend(
                            g0,
                            ga,
                            self.quick_union_structure_for_is_full@,
                            fld,
                            neighbour as int,
                        );
                    }
                }
            }
            proof {
                assert(absorbed_into(f0, self.quick_union_structure@, fld));
                assert(absorbed_into(g0, self.quick_union_structure_for_is_full@, fld));
                assert forall|x: int| 0 <= x < f0.len() implies (#[trigger] same_set(
                    self.quick_union_structure@,
                    x,
                    fld,
                ) <==> (same_set(f0, x, fld) || (row == 1 && same_set(f0, x, 0)) || (row == n
                    && same_set(f0, x, n * n + 1)) || (row > 1 && grid0[site_index(
                    n,
                    row - 1,
                    col as int,
                )] && same_set(f0, x, field_of(n, row - 1, col as int))))) by {}
                assert forall|x: int| 0 <= x < g0.len() implies (#[trigger] same_set(
                    self.quick_union_structure_for_is_full@,
                    x,
                    fld,
                ) <==> (same_set(g0, x, fld) || (row == 1 && same_set(g0, x, 0)) || (row > 1
                    && grid0[site_index(n, row - 1, col as int)] && same_set(
                    g0,
                    x,
                    field_of(n, row - 1, col as int),
                )))) by {}
            }
            if row < self.grid_size {
                if self.is_open(row + 1, col) {
                    let neighbour = self.field_index(row + 1, col);
                    let ghost fa = self.quick_union_structure@;
                    let ghost ga = self.quick_union_structure_for_is_full@;
                    self.quick_union_structure.union(neighbour, field);
                    self.quick_union_structure_for_is_full.union(neighbour, field);
                    proof {
                        lemma_absorbed_extend(
                            f0,
                            fa,
                            self.quick_union_structure@,
                            fld,
                            neighbour as int,
                        );
                        lemma_absorbed_extend(
                            g0,
                            ga,
                            self.quick_union_structure_for_is_full@,
                            fld,
                            neighbour as int,
                        );
                    }
                }
            }
            proof {
                assert(absorbed_into(f0, self.quick_union_structure@, fld));
                assert(absorbed_into(g0, self.quick_union_structure_for_is_full@, fld));
                assert forall|x: int| 0 <= x < f0.len() implies (#[trigger] same_set(
                    self.quick_union_structure@,
                    x,
                    fld,
                ) <==> (same_set(f0, x, fld) || (row == 1 && same_set(f0, x, 0)) || (row == n
                    && same_set(f0, x, n * n + 1)) || (row > 1 && grid0[site_index(
                    n,
                    row - 1,
                    col as int,
                )] && same_set(f0, x, field_of(n, row - 1, col as int))) || (row < n
                    && grid0[site_index(n, row + 1, col as int)] && same_set(
                    f0,
                    x,
                    field_of(n, row + 1, col as int),
                )))) by {}
                assert forall|x: int| 0 <= x < g0.len() implies (#[trigger] same_set(
                    self.quick_union_structure_for_is_full@,
                    x,
                    fld,
                ) <==> (same_set(g0, x, fld) || (row == 1 && same_set(g0, x, 0)) || (row > 1
                    && grid0[site_index(n, row - 1, col as int)] && same_set(
                    g0,
                    x,
                    field_of(n, row - 1, col as int),
                )) || (row < n && grid0[site_index(n, row + 1, col as int)] && same_set(
                    g0,
                    x,
                    field_of(n, row + 1, col as int),
                )))) by {}
            }
            if col > 1 {
                if self.is_open(row, col - 1) {
                    let neighbour = self.field_index(row, col - 1);
                    let ghost fa = self.quick_union_structure@;
                    let ghost ga = self.quick_union_structure_for_is_full@;
                    self.quick_union_structure.union(neighbour, field);
                    self.quick_union_structure_for_is_full.union(neighbour, field);
                    proof {
                        lemma_absorbed_extend(
                            f0,
                            fa,
                            self.quick_union_structure@,
                            fld,
                            neighbour as int,
                        );
                        lemma_absorbed_extend(
                            g0,
                            ga,
                            self.quick_union_structure_for_is_full@,
                            fld,
                            neighbour as int,
                        );
                    }
                }
            }
            proof {
                assert(absorbed_into(f0, self.quick_union_structure@, fld));
                assert(absorbed_into(g0, self.quick_union_structure_for_is_full@, fld));
                assert forall|x: int| 0 <= x < f0.len() implies (#[trigger] same_set(
                    self.quick_union_structure@,
                    x,
                    fld,
                ) <==> (same_set(f0, x, fld) || (row == 1 && same_set(f0, x, 0)) || (row == n
                    && same_set(f0, x, n * n + 1)) || (row > 1 && grid0[site_index(
                    n,
                    row - 1,
                    col as int,
                )] && same_set(f0, x, field_of(n, row - 1, col as int))) || (row < n
                    && grid0[site_index(n, row + 1, col as int)] && same_set(
                    f0,
                    x,
                    field_of(n, row + 1, col as int),
                )) || (col > 1 && grid0[site_index(n, row as int, col - 1)] && same_set(
                    f0,
                    x,
                    field_of(n, row as int, col - 1),
                )))) by {}
                assert forall|x: int| 0 <= x < g0.len() implies (#[trigger] same_set(
                    self.quick_union_structure_for_is_full@,
                    x,
                    fld,
                ) <==> (same_set(g0, x, fld) || (row == 1 && same_set(g0, x, 0)) || (row > 1
                    && grid0[site_index(n, row - 1, col as int)] && same_set(
                    g0,
                    x,
                    field_of(n, row - 1, col as int),
                )) || (row < n && grid0[site_index(n, row + 1, col as int)] && same_set(
                    g0,
                    x,
                    field_of(n, row + 1, col as int),
                )) || (col > 1 && grid0[site_index(n, row as int, col - 1)] && same_set(
                    g0,
                    x,
                    field_of(n, row as int, col - 1),
                )))) by {}
            }
            if col < self.grid_size {
                if self.is_open(row, col + 1) {
                    let neighbour = self.field_index(row, col + 1);
                    let ghost fa = self.quick_union_structure@;
                    let ghost ga = self.quick_union_structure_for_is_full@;
                    self.quick_union_structure.union(neighbour, field);
                    self.quick_union_structure_for_is_full.union(neighbour, field);
                    proof {
                        lemma_absorbed_extend(
                            f0,
                            fa,
                            self.quick_union_structure@,
                            fld,
                            neighbour as int,
                        );
                        lemma_absorbed_extend(
                            g0,
                            ga,
                            self.quick_union_structure_for_is_full@,
                            fld,
                            neighbour as int,
                        );
                    }
                }
            }
            proof {
                assert(absorbed_into(f0, self.quick_union_structure@, fld));
                assert(absorbed_into(g0, self.quick_union_structure_for_is_full@, fld));
                assert forall|x: int| 0 <= x < f0.len() implies (#[trigger] same_set(
                    self.quick_union_structure@,
                    x,
                    fld,
                ) <==> merges_with(n, grid0, f0, row as int, col as int, true, x)) by {}
                assert forall|x: int| 0 <= x < g0.len() implies (#[trigger] same_set(
                    self.quick_union_structure_for_is_full@,
                    x,
                    fld,
                ) <==> merges_with(n, grid0, g0, row as int, col as int, false, x)) by {}
            }
            let site = (row - 1) * self.grid_size + (col - 1);
            proof {
                lemma_count_open_le(grid0, n * n);
                lemma_count_open_update(grid0, site as int, n * n);
            }
            self.grid[site] = true;
            self.open_count = self.open_count + 1;
            proof {
                assert forall|x: int, y: int| 0 <= x < n * n + 2 && 0 <= y < n * n + 2 implies (
                #[trigger] same_set(self.quick_union_structure@, x, y) <==> (same_set(f0, x, y) || (
                merges_with(n, grid0, f0, row as int, col as int, true, x) && merges_with(
                    n,
                    grid0,
                    f0,
                    row as int,
                    col as int,
                    true,
                    y,
                )))) by {
                    assert(same_set(self.quick_union_structure@, x, y) <==> (same_set(f0, x, y) || (
                    same_set(self.quick_union_structure@, x, fld) && same_set(
                        self.quick_union_structure@,
                        y,
                        fld,
                    ))));
                }
                assert forall|x: int, y: int| 0 <= x < n * n + 1 && 0 <= y < n * n + 1 implies (
                #[trigger] same_set(self.quick_union_structure_for_is_full@, x, y) <==> (same_set(
                    g0,
                    x,
                    y,
                ) || (merges_with(n, grid0, g0, row as int, col as int, false, x) && merges_with(
                    n,
                    grid0,
                    g0,
                    row as int,
                    col as int,
                    false,
                    y,
                )))) by {
                    assert(same_set(self.quick_union_structure_for_is_full@, x, y) <==> (same_set(
                        g0,
                        x,
                        y,
                    ) || (same_set(self.quick_union_structure_for_is_full@, x, fld) && same_set(
                        self.quick_union_structure_for_is_full@,
                        y,
                        fld,
                    ))));
                }
            }
        }
    }

    /// Is the site (row, col) full: open and connected to the virtual top
    /// in the structure without a virtual bottom?
    pub fn is_full(&mut self, row: usize, col: usize) -> (r: bool)
        requires
            old(self).wf(),
            old(self).in_range(row as int, col as int),
        ensures
            final(self).wf(),
            final(self).gsize() == old(self).gsize(),
            final(self).sites() == old(self).sites(),
            final(self).full_rep() == old(self).full_rep(),
            final(self).fill_rep() == old(self).fill_rep(),
            final(self).count() == old(self).count(),
            r == (old(self).open_at(row as int, col as int) && same_set(
                old(self).fill_rep(),
                0,
                field_of(old(self).gsize(), row as int, col as int),
            )),
    {
        let field = self.field_index(row, col);
        if self.is_open(row, col) {
            self.quick_union_structure_for_is_full.connected(self.virtual_top_site, field)
        } else {
            false
        }
    }

    /// The number of open sites.
    pub fn number_of_open_sites(&mut self) -> (r: usize)
        requires
            old(self).wf(),
        ensures
            *final(self) == *old(self),
            r as int == old(self).count(),
    {
        self.open_count
    }

    /// Does the system percolate: are the virtual top and the virtual
    /// bottom connected in the percolation structure?
    pub fn percolates(&mut self) -> (r: bool)
        requires
            old(self).wf(),
        ensures
            final(self).wf(),
            final(self).gsize() == old(self).gsize(),
            final(self).sites() == old(self).sites(),
            final(self).full_rep() == old(self).full_rep(),
            final(self).fill_rep() == old(self).fill_rep(),
            final(self).count() == old(self).count(),
            r == same_set(
                old(self).full_rep(),
                0,
                old(self).gsize() * old(self).gsize() + 1,
            ),
    {
        self.quick_union_structure.connected(self.virtual_top_site, self.virtual_bottom_site)
    }
}

/// Flat index bounds of an in-range site and of its union-find element.
proof fn lemma_site_bounds(n: int, row: int, col: int)
    requires
        1 <= row <= n,
        1 <= col <= n,
    ensures
        0 <= (row - 1) * n + (col - 1),
        (row - 1) * n + (col - 1) < n * n,
        1 <= (row - 1) * n + col,
        (row - 1) * n + col <= n * n,
{
    assert(0 <= (row - 1) * n + (col - 1) && (row - 1) * n + (col - 1) < n * n && 1 <= (row - 1) * n
        + col && (row - 1) * n + col <= n * n) by (nonlinear_arith)
        requires
            1 <= row <= n,
            1 <= col <= n,
    ;
}

/// A grid with every site closed has no open sites.
proof fn lemma_count_open_all_closed(grid: Seq<bool>, bound: int)
    requires
        0 <= bound <= grid.len(),
        forall|k: int| 0 <= k < grid.len() ==> !grid[k],
    ensures
        count_open(grid, bound) == 0,
    decreases bound,
{
    if bound > 0 {
        lemma_count_open_all_closed(grid, bound - 1);
    }
}

/// The open-site count never exceeds the number of sites counted.
proof fn lemma_count_open_le(grid: Seq<bool>, bound: int)
    requires
        0 <= bound,
    ensures
        0 <= count_open(grid, bound) <= bound,
    decreases bound,
{
    if bound > 0 {
        lemma_count_open_le(grid, bound - 1);
    }
}

/// Opening one closed site raises the open-site count by exactly one.
proof fn lemma_count_open_update(grid: Seq<bool>, i: int, bound: int)
    requires
        0 <= i < grid.len(),
        bound <= grid.len(),
        !grid[i],
    ensures
        count_open(grid.update(i, true), bound) == count_open(grid, bound) + if i < bound {
            1int
        } else {
            0int
        },
    decreases bound,
{
    if bound > 0 {
        lemma_count_open_update(grid, i, bound - 1);
    }
}

} // verus!
