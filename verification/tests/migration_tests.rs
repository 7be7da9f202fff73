use quipu::migration::{plan_migration, BATCH_SIZE, EMBEDDING_DIM};

#[test]
fn a_dry_run_counts_but_plans_no_writes() {
    let lens = vec![EMBEDDING_DIM; 5];
    let plan = plan_migration(&lens, true);
    assert_eq!(plan.report.total, 5);
    assert_eq!(plan.report.migrated, 5);
    assert_eq!(plan.report.skipped, 0);
    assert!(plan.batches.is_empty());
}

#[test]
fn rows_of_the_wrong_dimension_are_skipped() {
    let lens = vec![EMBEDDING_DIM, 12, EMBEDDING_DIM, 0];
    let plan = plan_migration(&lens, false);
    assert_eq!(plan.keep, vec![0, 2]);
    assert_eq!((plan.report.total, plan.report.migrated, plan.report.skipped), (4, 2, 2));
    assert_eq!(plan.batches, vec![(0, 2)]);
}

#[test]
fn rows_move_in_bounded_batches() {
    let lens = vec![EMBEDDING_DIM; 2 * BATCH_SIZE + 500];
    let plan = plan_migration(&lens, false);
    assert_eq!(plan.batches, vec![(0, 1000), (1000, 2000), (2000, 2500)]);
    assert_eq!(plan.report.migrated, 2500);
}

#[test]
fn nothing_to_move_means_no_batches() {
    let plan = plan_migration(&[7, 8], false);
    assert!(plan.batches.is_empty());
    assert_eq!(plan.report.skipped, 2);
    let empty = plan_migration(&[], false);
    assert_eq!(empty.report.total, 0);
}
