use percolation::perc::Perc;

#[test]
fn perc_basics() {
    let mut p = Perc::new(5);
    assert_eq!(p.is_open(1, 2), false);
    p.open(1, 2);

    assert!(p.is_open(1, 2));
    assert_eq!(p.is_full(2, 2), false);
    p.open(2, 2);
    assert!(p.is_full(2, 2));
    p.open(3, 2);
    p.open(4, 2);

    assert_eq!(p.percolates(), false);
    p.open(5, 2);
    println!("{:#?}", p.number_of_open_sites());
    assert!(p.percolates());
}

#[test]
fn single_site_grid() {
    let mut p = Perc::new(1);
    assert_eq!(p.percolates(), false);
    assert_eq!(p.is_full(1, 1), false);
    p.open(1, 1);
    assert!(p.percolates());
    assert!(p.is_full(1, 1));
}

#[test]
fn open_column_percolates() {
    let mut p = Perc::new(5);
    p.open(2, 2);
    assert_eq!(p.is_full(2, 2), false);
    p.open(1, 2);
    assert!(p.is_full(2, 2));
    p.open(3, 2);
    p.open(4, 2);
    assert_eq!(p.percolates(), false);
    p.open(5, 2);
    assert!(p.percolates());
    assert!(p.is_full(5, 2));
}

#[test]
fn backwash_site_is_not_full() {
    let mut p = Perc::new(3);
    p.open(1, 1);
    p.open(2, 1);
    p.open(3, 1);
    assert!(p.percolates());
    p.open(3, 3);
    assert!(p.is_open(3, 3));
    assert!(p.percolates());
    assert_eq!(p.is_full(3, 3), false);
    assert!(p.is_full(3, 1));
}

#[test]
fn open_is_idempotent() {
    let mut p = Perc::new(3);
    p.open(2, 2);
    assert_eq!(p.number_of_open_sites(), 1);
    let was_open = p.is_open(2, 2);
    let was_full = p.is_full(2, 2);
    let percolated = p.percolates();
    p.open(2, 2);
    assert_eq!(p.number_of_open_sites(), 1);
    assert_eq!(p.is_open(2, 2), was_open);
    assert_eq!(p.is_full(2, 2), was_full);
    assert_eq!(p.percolates(), percolated);
}

#[test]
fn open_sites_are_counted_once() {
    let mut p = Perc::new(4);
    assert_eq!(p.number_of_open_sites(), 0);
    p.open(1, 1);
    p.open(1, 2);
    p.open(4, 4);
    p.open(1, 2);
    assert_eq!(p.number_of_open_sites(), 3);
}
