use sendme_core::{AggregateProgress, ProgressAggregator, ProgressEvent, ProgressStep};

fn update(done: u64, total: u64) -> ProgressStep {
    ProgressStep::Update(AggregateProgress { bytes_done: done, bytes_total: total })
}

#[test]
fn ingest_session_converges_to_total() {
    let mut a = ProgressAggregator::new(2, 0);
    assert_eq!(a.step(ProgressEvent::Found { id: 1, name: "a.txt".to_string() }), ProgressStep::Quiet);
    assert_eq!(a.step(ProgressEvent::SizeKnown { id: 1, size: 3 }), update(0, 3));
    assert_eq!(a.step(ProgressEvent::SizeKnown { id: 2, size: 5 }), update(0, 8));
    assert_eq!(a.step(ProgressEvent::BytesAdvanced { id: 1, offset: 2 }), update(2, 8));
    assert_eq!(a.step(ProgressEvent::BytesAdvanced { id: 2, offset: 4 }), update(6, 8));
    assert_eq!(a.step(ProgressEvent::ItemDone { id: 1 }), ProgressStep::Quiet);
    assert_eq!(a.step(ProgressEvent::ItemDone { id: 2 }), update(8, 8));
    assert_eq!(
        a.step(ProgressEvent::EndOfStream),
        ProgressStep::Finished(AggregateProgress { bytes_done: 8, bytes_total: 8 })
    );
    assert!(a.is_stopped());
    assert_eq!(a.step(ProgressEvent::SizeKnown { id: 3, size: 9 }), ProgressStep::Quiet);
    assert_eq!(a.progress(), AggregateProgress { bytes_done: 8, bytes_total: 8 });
}

#[test]
fn offsets_beyond_size_are_clamped() {
    let mut a = ProgressAggregator::new(1, 0);
    a.step(ProgressEvent::SizeKnown { id: 7, size: 3 });
    assert_eq!(a.step(ProgressEvent::BytesAdvanced { id: 7, offset: 100 }), update(3, 3));
}

#[test]
fn offsets_going_back_do_not_lower_progress() {
    let mut a = ProgressAggregator::new(1, 0);
    a.step(ProgressEvent::SizeKnown { id: 7, size: 10 });
    assert_eq!(a.step(ProgressEvent::BytesAdvanced { id: 7, offset: 6 }), update(6, 10));
    assert_eq!(a.step(ProgressEvent::BytesAdvanced { id: 7, offset: 2 }), update(6, 10));
    assert_eq!(a.step(ProgressEvent::BytesAdvanced { id: 7, offset: 9 }), update(9, 10));
}

#[test]
fn events_of_unknown_or_finished_items_are_ignored() {
    let mut a = ProgressAggregator::new(2, 0);
    assert_eq!(a.step(ProgressEvent::ItemDone { id: 4 }), ProgressStep::Quiet);
    assert_eq!(a.step(ProgressEvent::SizeKnown { id: 4, size: 10 }), update(0, 10));
    assert_eq!(a.step(ProgressEvent::BytesAdvanced { id: 4, offset: 10 }), update(10, 10));
    assert_eq!(a.step(ProgressEvent::ItemDone { id: 4 }), ProgressStep::Quiet);
    assert_eq!(a.step(ProgressEvent::BytesAdvanced { id: 4, offset: 12 }), ProgressStep::Quiet);
    assert_eq!(a.step(ProgressEvent::ItemDone { id: 4 }), ProgressStep::Quiet);
}

#[test]
fn repeated_size_replaces_previous() {
    let mut a = ProgressAggregator::new(2, 0);
    assert_eq!(a.step(ProgressEvent::SizeKnown { id: 1, size: 10 }), update(0, 10));
    assert_eq!(a.step(ProgressEvent::SizeKnown { id: 2, size: 5 }), update(0, 15));
    assert_eq!(a.step(ProgressEvent::SizeKnown { id: 1, size: 4 }), update(0, 9));
    assert_eq!(a.step(ProgressEvent::BytesAdvanced { id: 1, offset: 3 }), update(3, 9));
}

#[test]
fn progress_for_unsized_item_counts_from_zero() {
    let mut a = ProgressAggregator::new(3, 100);
    assert_eq!(a.step(ProgressEvent::BytesAdvanced { id: 5, offset: 30 }), update(30, 100));
    assert_eq!(a.step(ProgressEvent::BytesAdvanced { id: 5, offset: 45 }), update(45, 100));
}

#[test]
fn progress_for_unsized_item_is_clamped_to_total() {
    let mut a = ProgressAggregator::new(2, 0);
    assert_eq!(a.step(ProgressEvent::BytesAdvanced { id: 4, offset: 6 }), update(0, 0));
    assert_eq!(a.step(ProgressEvent::SizeKnown { id: 4, size: 10 }), update(0, 10));
    assert_eq!(a.step(ProgressEvent::BytesAdvanced { id: 4, offset: 8 }), update(2, 10));
}

#[test]
fn download_uses_preset_total_and_fails_on_abort() {
    let mut a = ProgressAggregator::new(3, 100);
    assert_eq!(a.step(ProgressEvent::Connected), update(0, 100));
    assert_eq!(a.step(ProgressEvent::ManifestFound { child_count: 2 }), ProgressStep::Quiet);
    assert_eq!(a.step(ProgressEvent::SizeKnown { id: 0, size: 40 }), update(0, 100));
    assert_eq!(a.step(ProgressEvent::BytesAdvanced { id: 0, offset: 25 }), update(25, 100));
    assert_eq!(
        a.step(ProgressEvent::Aborted("peer went away".to_string())),
        ProgressStep::Failed("peer went away".to_string())
    );
    assert!(a.is_stopped());
    assert_eq!(a.step(ProgressEvent::AllDone), ProgressStep::Quiet);
}

#[test]
fn all_done_reports_total_once() {
    let mut a = ProgressAggregator::new(5, 50);
    a.step(ProgressEvent::SizeKnown { id: 1, size: 20 });
    a.step(ProgressEvent::BytesAdvanced { id: 1, offset: 20 });
    assert_eq!(
        a.step(ProgressEvent::AllDone),
        ProgressStep::Finished(AggregateProgress { bytes_done: 50, bytes_total: 50 })
    );
    assert_eq!(a.step(ProgressEvent::AllDone), ProgressStep::Quiet);
}

#[test]
fn bytes_done_never_decrease_over_a_session() {
    let events = vec![
        ProgressEvent::SizeKnown { id: 1, size: 10 },
        ProgressEvent::BytesAdvanced { id: 1, offset: 7 },
        ProgressEvent::SizeKnown { id: 2, size: 4 },
        ProgressEvent::BytesAdvanced { id: 1, offset: 3 },
        ProgressEvent::BytesAdvanced { id: 2, offset: 9 },
        ProgressEvent::ItemDone { id: 1 },
        ProgressEvent::ItemDone { id: 2 },
        ProgressEvent::AllDone,
    ];
    let mut a = ProgressAggregator::new(2, 0);
    let mut last = 0;
    let mut finished = 0;
    for ev in events {
        match a.step(ev) {
            ProgressStep::Update(p) => {
                assert!(p.bytes_done >= last);
                assert!(p.bytes_done <= p.bytes_total);
                last = p.bytes_done;
            }
            ProgressStep::Finished(p) => {
                assert!(p.bytes_done >= last);
                assert_eq!(p.bytes_done, p.bytes_total);
                finished += 1;
            }
            _ => {}
        }
    }
    assert_eq!(finished, 1);
    assert_eq!(last, 14);
}

#[test]
fn sizes_are_clamped_so_the_total_fits() {
    let mut a = ProgressAggregator::new(2, 0);
    a.step(ProgressEvent::SizeKnown { id: 1, size: u64::MAX - 5 });
    assert_eq!(a.step(ProgressEvent::SizeKnown { id: 2, size: 10 }), update(0, u64::MAX));
}
