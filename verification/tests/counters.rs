use rasters::cli::counters::{Counter, DetailCounter, Snapshot};
use rasters::cli::progress::Flag;
use rasters::utils::OutputArgs;
use rayon::prelude::{IntoParallelIterator, ParallelIterator};

#[test]
fn counter_adds_and_subtracts() {
    let c = Counter::new();
    assert_eq!(c.load(), 0);
    c.store(5);
    assert_eq!(c.fetch_add(3), 5);
    assert_eq!(c.load(), 8);
    assert_eq!(c.fetch_sub(8), 8);
    assert_eq!(c.load(), 0);
    assert_eq!(c.fetch_sub(1), 0);
    assert_eq!(c.load(), usize::MAX);
}

#[test]
fn counter_is_shared_between_threads() {
    let c = Counter::default();
    (0..4000usize).into_par_iter().for_each(|_| {
        c.fetch_add(1);
    });
    assert_eq!(c.load(), 4000);
}

#[test]
fn detail_counter_starts_at_zero() {
    let d = DetailCounter::new("chunks");
    assert_eq!(d.name(), "chunks");
    d.total.store(10);
    d.processed.fetch_add(1);
    let s = d.snapshot();
    assert_eq!((s.total, s.processed, s.skipped), (10, 1, 0));
}

#[test]
fn flag_is_set_and_cleared() {
    let f = Flag::new();
    assert!(!f.load());
    f.store(true);
    assert!(f.load());
    f.store(false);
    assert!(!f.load());
    assert!(!Flag::default().load());
}

#[test]
fn output_args_hold_path_and_driver() {
    let args = OutputArgs {
        path: std::path::PathBuf::from("out.tif"),
        driver: String::from("GTIFF"),
    };
    assert_eq!(args.path.to_str(), Some("out.tif"));
    assert_eq!(args.driver, "GTIFF");
}

#[test]
fn snapshot_holds_the_counts_it_was_given() {
    let s = Snapshot::new(10, 7, 2);
    assert_eq!((s.total, s.processed, s.skipped), (10, 7, 2));
}
