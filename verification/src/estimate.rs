//! Monte Carlo trials for the percolation threshold: each trial opens
//! uniformly random closed sites of a fresh n-by-n grid, one at a time,
//! until the system percolates, and reports how many sites were open at
//! that moment, together with the percolating model and a ghost trace of
//! the run. Summary statistics over many trials are left to callers.

use crate::perc::Perc;
use crate::perc::fresh_model;
use crate::perc::open_step;
use crate::union_find::same_set;
use vstd::prelude::*;

verus! {

/// Relies on rand::random_range over 0..n: a uniform draw from a
/// nonempty range lies in the range, so the result is below n.
#[verifier::external_body]
fn random_below(n: usize) -> (r: usize)
    requires
        n >= 1,
    ensures
        r < n,
{
    rand::random_range(0..n)
}

/// The outcome of one trial: how many sites were open when the system
/// first percolated, the model in that state, and a ghost trace behind
/// it — the models after 0, 1, ... opened sites, and the site opened at
/// each step.
pub struct Trial {
    pub opened: usize,
    pub model: Perc,
    pub trace: Ghost<Seq<Perc>>,
    pub sites: Ghost<Seq<(int, int)>>,
}

/// Step k of a trace: the site opened at that step is in range and was
/// closed, and opening it is exactly what took the model from trace
/// entry k to entry k+1.
pub open spec fn trial_step(hist: Seq<Perc>, sites: Seq<(int, int)>, k: int) -> bool {
    &&& hist[k].in_range(sites[k].0, sites[k].1)
    &&& !hist[k].open_at(sites[k].0, sites[k].1)
    &&& open_step(hist[k], hist[k + 1], sites[k].0, sites[k].1)
}

/// A complete trial on an n-by-n grid: starting from a fresh model, one
/// closed site is opened per step, no proper prefix of the opened sites
/// percolates, and the run stops at the first count of opens whose model
/// percolates (after n*n opens every site is open and the run stops
/// whatever the percolation structure says).
pub open spec fn trial_run(n: int, count: int, hist: Seq<Perc>, sites: Seq<(int, int)>) -> bool {
    &&& 1 <= count <= n * n
    &&& hist.len() == count + 1
    &&& sites.len() == count
    &&& fresh_model(hist[0], n)
    &&& forall|k: int| 0 <= k < count ==> #[trigger] trial_step(hist, sites, k)
    &&& forall|k: int| 0 <= k < count ==> !same_set(#[trigger] hist[k].full_rep(), 0, n * n + 1)
    &&& (same_set(hist[count].full_rep(), 0, n * n + 1) || count == n * n)
}

/// One simulation to failure: on a fresh grid_size-by-grid_size grid,
/// open a uniformly random closed site, one per step, until the system
/// percolates. The ghost trace witnesses that the returned count is the
/// length of the first percolating prefix of the sites the trial opened,
/// and the returned model is the percolating state itself.
pub fn run_trial(grid_size: usize) -> (r: Trial)
    requires
        grid_size >= 1,
        grid_size * grid_size + 2 <= usize::MAX,
    ensures
        1 <= r.opened <= grid_size * grid_size,
        trial_run(grid_size as int, r.opened as int, r.trace@, r.sites@),
        r.model == r.trace@[r.opened as int],
        r.model.wf(),
        r.model.gsize() == grid_size,
        r.model.count() == r.opened,
{
    let n = grid_size;
    let nn = n * n;
    let mut p = Perc::new(n);
    let mut remaining: Vec<usize> = Vec::new();
    let mut i: usize = 0;
    while i < nn
        invariant
            i <= nn,
            remaining@.len() == i,
            forall|k: int| 0 <= k < i ==> #[trigger] remaining@[k] == k,
        decreases nn - i,
    {
        remaining.push(i);
        i = i + 1;
    }
    let mut count: usize = 0;
    let mut percolated = p.percolates();
    let ghost mut trace: Seq<Perc> = seq![p];
    let ghost mut opened_sites: Seq<(int, int)> = Seq::empty();
    while !percolated && remaining.len() > 0
        invariant
            p.wf(),
            p.gsize() == n,
            n >= 1,
            nn == n * n,
            n * n + 2 <= usize::MAX,
            count + remaining@.len() == nn,
            p.count() == count,
            count == 0 ==> !percolated,
            forall|k: int| 0 <= k < remaining@.len() ==> #[trigger] remaining@[k] < nn,
            forall|k: int|
                0 <= k < remaining@.len() ==> !p.sites()[#[trigger] remaining@[k] as int],
            forall|k1: int, k2: int|
                0 <= k1 < k2 < remaining@.len() ==> remaining@[k1] != remaining@[k2],
            percolated == same_set(p.full_rep(), 0, n * n + 1),
            trace.len() == count + 1,
            opened_sites.len() == count,
            fresh_model(trace[0], n as int),
            trace[count as int] == p,
            forall|k: int| 0 <= k < count ==> #[trigger] trial_step(trace, opened_sites, k),
            forall|k: int|
                0 <= k < count ==> !same_set(#[trigger] trace[k].full_rep(), 0, n * n + 1),
        decreases remaining@.len(),
    {
        let ghost rem0 = remaining@;
        let ghost sites0 = p.sites();
        let ghost prev = p;
        let ghost trace0 = trace;
        let ghost opened0 = opened_sites;
        let j = random_below(remaining.len());
        let site = remaining.swap_remove(j);
        proof {
            p.lemma_wf_dims();
            lemma_decompose(site as int, n as int);
            assert forall|k: int| 0 <= k < remaining@.len() implies #[trigger] remaining@[k] != site
                && remaining@[k] < nn && !sites0[remaining@[k] as int] by {
                assert(remaining@[k] == if k == j {
                    rem0[rem0.len() - 1]
                } else {
                    rem0[k]
                });
            }
        }
        let row = site / n + 1;
        let col = site % n + 1;
        p.open(row, col);
        count = count + 1;
        percolated = p.percolates();
        proof {
            p.lemma_wf_dims();
            assert(p.sites() == sites0.update(site as int, true));
            assert forall|k: int| 0 <= k < remaining@.len() implies !p.sites()[#[trigger] remaining@[k] as int] by {
                assert(remaining@[k] != site);
                assert(remaining@[k] < nn);
                assert(!sites0[remaining@[k] as int]);
                assert(p.sites()[remaining@[k] as int] == sites0[remaining@[k] as int]);
            }
            trace = trace.push(p);
            opened_sites = opened_sites.push((row as int, col as int));
            assert(open_step(prev, p, row as int, col as int));
            assert(trial_step(trace, opened_sites, count - 1));
            assert forall|k: int| 0 <= k < count implies #[trigger] trial_step(
                trace,
                opened_sites,
                k,
            ) by {
                if k < count - 1 {
                    assert(trial_step(trace0, opened0, k));
                    assert(trace[k] == trace0[k] && trace[k + 1] == trace0[k + 1]);
                    assert(opened_sites[k] == opened0[k]);
                }
            }
        }
    }
    proof {
        assert(n * n >= 1) by (nonlinear_arith)
            requires
                n >= 1,
        ;
    }
    Trial { opened: count, model: p, trace: Ghost(trace), sites: Ghost(opened_sites) }
}

/// Independent trials on fresh grid_size-by-grid_size grids; entry k of
/// the counts is the number of open sites at which trial k first
/// percolated, witnessed by the k-th ghost trace and site sequence.
pub fn run_trials(grid_size: usize, trials: usize) -> (r: (
    Vec<usize>,
    Ghost<Seq<Seq<Perc>>>,
    Ghost<Seq<Seq<(int, int)>>>,
))
    requires
        grid_size >= 1,
        trials >= 1,
        grid_size * grid_size + 2 <= usize::MAX,
    ensures
        r.0@.len() == trials,
        r.1@.len() == trials,
        r.2@.len() == trials,
        forall|t: int|
            0 <= t < trials ==> trial_run(
                grid_size as int,
                #[trigger] r.0@[t] as int,
                r.1@[t],
                r.2@[t],
            ),
{
    let mut results: Vec<usize> = Vec::new();
    let ghost mut traces: Seq<Seq<Perc>> = Seq::empty();
    let ghost mut site_seqs: Seq<Seq<(int, int)>> = Seq::empty();
    let mut t: usize = 0;
    while t < trials
        invariant
            t <= trials,
            results@.len() == t,
            traces.len() == t,
            site_seqs.len() == t,
            grid_size >= 1,
            grid_size * grid_size + 2 <= usize::MAX,
            forall|k: int|
                0 <= k < t ==> trial_run(
                    grid_size as int,
                    #[trigger] results@[k] as int,
                    traces[k],
                    site_seqs[k],
                ),
        decreases trials - t,
    {
        let trial = run_trial(grid_size);
        results.push(trial.opened);
        proof {
            traces = traces.push(trial.trace@);
            site_seqs = site_seqs.push(trial.sites@);
        }
        t = t + 1;
    }
    (results, Ghost(traces), Ghost(site_seqs))
}

/// A flat site index below n*n decomposes into a 1-indexed row and
/// column on the n-by-n lattice, and recomposes to the same index.
proof fn lemma_decompose(site: int, n: int)
    requires
        0 <= site,
        n >= 1,
        site < n * n,
    ensures
        1 <= site / n + 1 <= n,
        1 <= site % n + 1 <= n,
        (site / n + 1 - 1) * n + (site % n + 1 - 1) == site,
{
    assert(0 <= site / n && site / n < n && 0 <= site % n && site % n < n && (site / n) * n + site
        % n == site) by (nonlinear_arith)
        requires
            0 <= site,
            n >= 1,
            site < n * n,
    ;
}

} // verus!
