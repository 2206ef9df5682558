use metricchrono::{EventLog, MetricChronoError};

fn flags(ticks: &[f64]) -> Vec<bool> {
    ticks.iter().map(|tick| *tick > 0.0).collect()
}

#[test]
fn event_log_tracks_tier_local_next_events() {
    let mut log = EventLog::new(3).unwrap();
    assert_eq!(log.append("s0", flags(&[0.0, 0.0, 0.0])).unwrap(), 0);
    assert_eq!(log.append("s1", flags(&[1.0, 0.0, 0.0])).unwrap(), 1);
    assert_eq!(log.append("s2", flags(&[0.0, 2.0, 0.0])).unwrap(), 2);
    assert_eq!(log.append("s3", flags(&[1.0, 1.0, 0.0])).unwrap(), 3);

    assert_eq!(log.first_event(0), Some(1));
    assert_eq!(log.next_event(1, 0), Some(3));
    assert_eq!(log.next_event(2, 1), Some(3));

    let tier0 = log.event_indices(0);
    assert_eq!(tier0, vec![1, 3]);
    let summary = log.event_indices(1);
    assert_eq!(summary.len(), 2);
    assert_eq!(log.record(summary[0]).unwrap().state_id, "s2");
}

#[test]
fn event_log_rejects_zero_tiers_and_wrong_shapes() {
    assert!(matches!(
        EventLog::<u64>::new(0),
        Err(MetricChronoError::EmptyLadder)
    ));
    let mut log = EventLog::new(2).unwrap();
    assert_eq!(
        log.append(7u64, vec![true]).unwrap_err(),
        MetricChronoError::ShapeMismatch {
            expected: 2,
            actual: 1,
            context: "tick vector"
        }
    );
    assert!(log.is_empty());
    assert_eq!(log.len(), 0);
    assert_eq!(log.tier_count(), 2);
}

#[test]
fn event_log_out_of_range_queries_find_nothing() {
    let mut log = EventLog::new(2).unwrap();
    log.append(10u64, vec![true, false]).unwrap();
    log.append(11u64, vec![true, true]).unwrap();
    assert_eq!(log.next_event(0, 0), Some(1));
    assert_eq!(log.next_event(0, 1), None);
    assert_eq!(log.next_event(1, 0), None);
    assert_eq!(log.next_event(5, 0), None);
    assert_eq!(log.next_event(0, 5), None);
    assert_eq!(log.first_event(1), Some(1));
    assert_eq!(log.first_event(7), None);
    assert!(log.record(2).is_none());
    assert_eq!(log.get(1).unwrap().state_id, 11);
    assert!(log.event_indices(9).is_empty());
}

#[test]
fn skip_pointers_visit_every_event_and_keep_the_full_stream() {
    let pattern = [
        [true, false, false],
        [false, false, false],
        [true, true, false],
        [false, true, false],
        [false, false, false],
        [true, false, true],
        [false, true, false],
    ];
    let mut log = EventLog::new(3).unwrap();
    for (index, events) in pattern.iter().enumerate() {
        assert_eq!(log.append(index as u64 * 10, events.to_vec()).unwrap(), index);
    }
    assert_eq!(log.len(), pattern.len());
    for tier in 0..3 {
        let expected: Vec<usize> = (0..pattern.len()).filter(|i| pattern[*i][tier]).collect();
        assert_eq!(log.event_indices(tier), expected);
        let mut walked = Vec::new();
        let mut cur = log.first_event(tier);
        while let Some(index) = cur {
            walked.push(index);
            cur = log.next_event(index, tier);
        }
        assert_eq!(walked, expected);
    }
    for (index, record) in log.records().iter().enumerate() {
        assert_eq!(record.state_id, index as u64 * 10);
        assert_eq!(record.events, pattern[index].to_vec());
    }
    assert_eq!(log.record(1).unwrap().next_event, vec![None, None, None]);
    assert_eq!(
        log.record(2).unwrap().next_event,
        vec![Some(5), Some(3), None]
    );
}
