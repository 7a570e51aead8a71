use prismerge::progress::{ProgressAction, ProgressIndicator, ProgressType};

fn line(action: ProgressAction) -> String {
    match action {
        ProgressAction::Print(line) => line,
        other => panic!("no line but {:?}", other),
    }
}

#[test]
fn lines_report_the_records_so_far() {
    let mut progress = ProgressIndicator::new("Owner", 10, false);
    assert_eq!(progress.progress_type(), ProgressType::Console);
    assert_eq!(line(progress.inc(3)), "Owner: Processed 3/10 records");
    assert!(matches!(progress.inc(0), ProgressAction::Nothing));
    assert_eq!(line(progress.inc(4)), "Owner: Processed 7/10 records");
    assert_eq!(line(progress.finish()), "Owner: Processed 10/10 records");
}

#[test]
fn the_count_of_the_lines_stops_at_the_greatest_number() {
    let mut progress = ProgressIndicator::new("T", 5, false);
    assert_eq!(line(progress.inc(u64::MAX)), "T: Processed 18446744073709551615/5 records");
    assert_eq!(line(progress.inc(1)), "T: Processed 18446744073709551615/5 records");
}

#[test]
fn a_bar_moves_and_completes() {
    let mut progress = ProgressIndicator::new("Owner", 10, true);
    assert_eq!(progress.progress_type(), ProgressType::Bar);
    assert_eq!(
        progress.bar_template(),
        "{spinner:.green} Owner [{elapsed_precise}] [{wide_bar:.cyan/blue}] {pos}/{len}"
    );
    assert!(matches!(progress.inc(3), ProgressAction::Advance(3)));
    assert!(matches!(progress.inc(0), ProgressAction::Advance(0)));
    assert!(matches!(progress.finish(), ProgressAction::Complete));
}

#[test]
fn no_progress_shows_nothing() {
    let mut progress = ProgressIndicator::null();
    assert_eq!(progress.progress_type(), ProgressType::Null);
    assert!(matches!(progress.inc(3), ProgressAction::Nothing));
    assert!(matches!(progress.finish(), ProgressAction::Nothing));
}
