use tsuitate_bot::tuning::{resume_state, LogEvent, Resume};

#[test]
fn a_search_goes_on_from_its_last_step() {
    let log = vec![
        LogEvent::Start { run_seed: Some(7) },
        LogEvent::Eval { score: Some(10) },
        LogEvent::Iter { k: 0, has_point: true },
        LogEvent::Eval { score: Some(30) },
        LogEvent::Eval { score: None },
        LogEvent::Other,
        LogEvent::Iter { k: 1, has_point: true },
        LogEvent::Iter { k: 2, has_point: false },
        LogEvent::Eval { score: Some(30) },
    ];
    assert_eq!(
        resume_state(&log),
        Some(Resume {
            next_k: 2,
            point: 6,
            run_seed: Some(7),
            best: Some(3),
            config: Some(0),
        })
    );
}

#[test]
fn the_last_beginning_counts_even_behind_the_last_step() {
    let log = vec![
        LogEvent::Start { run_seed: Some(7) },
        LogEvent::Iter { k: 4, has_point: true },
        LogEvent::Start { run_seed: None },
    ];
    assert_eq!(
        resume_state(&log),
        Some(Resume { next_k: 5, point: 1, run_seed: None, best: None, config: Some(2) })
    );
}

#[test]
fn nothing_goes_on_without_a_step() {
    assert_eq!(resume_state(&vec![]), None);
    let log = vec![LogEvent::Start { run_seed: Some(1) }, LogEvent::Eval { score: Some(1) }];
    assert_eq!(resume_state(&log), None);
}
