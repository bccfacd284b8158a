use portscan::args::{Arguments, Word};
use portscan::config::{ConfigError, ScanConfig, Target};

#[test]
fn a_scan_without_workers_is_refused() {
    let refused = ScanConfig::new(Target::V4([127, 0, 0, 1]), 0);
    assert!(matches!(refused, Err(ConfigError::NoWorkers)));
}

#[test]
fn the_refusal_has_its_message() {
    assert_eq!(ConfigError::NoWorkers.message(), "the thread number must be at least 1");
}

#[test]
fn a_scan_keeps_its_target_and_worker_count() {
    let target = Target::V6([0, 0, 0, 0, 0, 0, 0, 1]);
    let config = ScanConfig::new(target, 4).unwrap();
    assert_eq!(config.target(), target);
    assert_eq!(config.worker_count(), 4);
    let most = ScanConfig::new(target, 65535).unwrap();
    assert_eq!(most.worker_count(), 65535);
}

#[test]
fn a_scan_has_one_task_for_each_worker() {
    let target = Target::V4([10, 0, 0, 7]);
    let config = ScanConfig::new(target, 5).unwrap();
    let tasks = config.tasks();
    assert_eq!(tasks.len(), 5);
    for (index, task) in tasks.iter().enumerate() {
        assert_eq!(task.offset() as usize, index);
        assert_eq!(task.stride(), 5);
        assert_eq!(task.target(), target);
        assert_eq!(task.pending(), Some(index as u16 + 1));
    }
}

#[test]
fn a_scan_has_no_task_beyond_its_workers() {
    let config = ScanConfig::new(Target::V4([127, 0, 0, 1]), 3).unwrap();
    assert!(config.task(0).is_some());
    assert!(config.task(2).is_some());
    assert!(config.task(3).is_none());
    assert!(config.task(65535).is_none());
    let task = config.task(2).unwrap();
    assert_eq!(task.remaining()[..3], [3, 6, 9]);
}

#[test]
fn a_worker_count_of_zero_on_the_command_line_sets_up_no_scan() {
    let home = Target::V4([127, 0, 0, 1]);
    let words = vec![
        Word { text: "scan".to_string(), addr: None },
        Word { text: "-th".to_string(), addr: None },
        Word { text: "0".to_string(), addr: None },
        Word { text: "127.0.0.1".to_string(), addr: Some(home) },
    ];
    let arguments = Arguments::new(&words).unwrap();
    assert_eq!(arguments.threads, 0);
    let refused = ScanConfig::new(arguments.ipaddr, arguments.threads);
    assert!(matches!(refused, Err(ConfigError::NoWorkers)));
}
