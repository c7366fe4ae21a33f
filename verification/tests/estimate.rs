use percolation::estimate::run_trial;
use percolation::estimate::run_trials;

#[test]
fn trial_on_single_site_grid_opens_it() {
    let mut trial = run_trial(1);
    assert_eq!(trial.opened, 1);
    assert!(trial.model.percolates());
    assert!(trial.model.is_open(1, 1));
}

#[test]
fn trial_stops_on_a_percolating_model() {
    for _ in 0..10 {
        let mut trial = run_trial(3);
        assert!(trial.model.percolates());
        assert_eq!(trial.model.number_of_open_sites(), trial.opened);
    }
}

#[test]
fn trial_counts_stay_in_range() {
    for _ in 0..20 {
        let c = run_trial(2).opened;
        assert!(c >= 2);
        assert!(c <= 4);
    }
    for _ in 0..10 {
        let c = run_trial(3).opened;
        assert!(c >= 3);
        assert!(c <= 9);
    }
}

#[test]
fn trials_come_back_one_per_request() {
    let (rs, _, _) = run_trials(4, 7);
    assert_eq!(rs.len(), 7);
    for &c in rs.iter() {
        assert!(c >= 4);
        assert!(c <= 16);
    }
}

#[test]
fn threshold_statistics_are_sane() {
    let grid_size: usize = 20;
    let trial_count: usize = 100;
    let (rs, _, _) = run_trials(grid_size, trial_count);
    let total = (grid_size * grid_size) as f64;
    let fractions: Vec<f64> = rs.iter().map(|&c| c as f64 / total).collect();
    let mean = fractions.iter().sum::<f64>() / trial_count as f64;
    assert!(mean > 0.45, "mean {} unexpectedly low", mean);
    assert!(mean < 0.75, "mean {} unexpectedly high", mean);
    let var = fractions.iter().map(|x| (x - mean) * (x - mean)).sum::<f64>()
        / (trial_count - 1) as f64;
    let stddev = var.sqrt();
    let confidence_low = mean - 1.96 * stddev / (trial_count as f64).sqrt();
    let confidence_high = mean + 1.96 * stddev / (trial_count as f64).sqrt();
    assert!(confidence_low <= mean);
    assert!(mean <= confidence_high);
}
