use file_retention::config::ConfigError;
use file_retention::policy::{
    cutoff_before, find_expired_files, find_mp4s_that_are_older_max_age, select_expired,
    SECONDS_PER_DAY,
};
use file_retention::scan::{Entry, FileRecord, ModifiedTime};

const DAY: u64 = 86_400;
const NOW: i64 = 1_700_000_000;

fn record(path: &str, seconds: u64) -> FileRecord {
    FileRecord { path: path.to_string(), modified_epoch_seconds: seconds }
}

fn file(name: &str, modified: ModifiedTime) -> Entry {
    Entry {
        path: format!("/videos/{}", name),
        file_name: name.to_string(),
        is_file: true,
        modified,
    }
}

fn mp4(index: usize, seconds: u64) -> Entry {
    file(&format!("clip{:02}.mp4", index), ModifiedTime::SinceEpoch(seconds))
}

fn days_ago(days: u64) -> u64 {
    NOW as u64 - days * DAY
}

#[test]
fn cutoff_is_now_minus_days() {
    assert_eq!(SECONDS_PER_DAY, 86_400);
    assert_eq!(cutoff_before(1_700_000_000, 14), 1_698_790_400);
    assert_eq!(cutoff_before(86_400, 1), 0);
    assert_eq!(cutoff_before(0, 1), -86_400);
    assert_eq!(cutoff_before(100, -2), 172_900);
    assert_eq!(cutoff_before(i64::MAX, i64::MIN), 796_908_567_356_289_484_587_007);
    assert_eq!(cutoff_before(i64::MIN, i64::MAX), -796_908_567_356_289_484_500_608);
}

#[test]
fn twelve_files_two_old_selects_the_two_oldest() {
    let mut entries = Vec::new();
    for i in 0..10 {
        entries.push(mp4(i, days_ago(1) + i as u64));
    }
    entries.insert(3, mp4(10, days_ago(30)));
    entries.insert(7, mp4(11, days_ago(20)));
    assert_eq!(entries.len(), 12);
    let selection = find_expired_files(&entries, "mp4", 10, 14, NOW).unwrap();
    assert_eq!(selection, vec!["/videos/clip11.mp4", "/videos/clip10.mp4"]);
}

#[test]
fn eight_files_below_floor_selects_nothing() {
    let mut entries = Vec::new();
    for i in 0..8 {
        entries.push(mp4(i, i as u64));
    }
    let selection = find_expired_files(&entries, "mp4", 10, 14, NOW).unwrap();
    assert_eq!(selection, Vec::<String>::new());
}

#[test]
fn twelve_files_of_equal_age_selects_two() {
    let mut entries = Vec::new();
    for i in 0..12 {
        entries.push(mp4(i, days_ago(100)));
    }
    let selection = find_expired_files(&entries, "mp4", 10, 14, NOW).unwrap();
    assert_eq!(selection, vec!["/videos/clip10.mp4", "/videos/clip11.mp4"]);
    let again = find_expired_files(&entries, "mp4", 10, 14, NOW).unwrap();
    assert_eq!(selection, again);
}

#[test]
fn count_equal_to_floor_selects_nothing() {
    let mut entries = Vec::new();
    for i in 0..10 {
        entries.push(mp4(i, 0));
    }
    assert_eq!(find_expired_files(&entries, "mp4", 10, 14, NOW).unwrap(), Vec::<String>::new());
    entries.push(mp4(10, 0));
    assert_eq!(
        find_expired_files(&entries, "mp4", 10, 14, NOW).unwrap(),
        vec!["/videos/clip10.mp4"]
    );
}

#[test]
fn newest_files_are_kept_however_old() {
    let records = vec![
        record("a", days_ago(400)),
        record("b", days_ago(300)),
        record("c", days_ago(500)),
        record("d", days_ago(200)),
    ];
    assert_eq!(select_expired(&records, 2, 14, NOW).unwrap(), vec!["a", "c"]);
    assert_eq!(select_expired(&records, 3, 14, NOW).unwrap(), vec!["c"]);
    assert_eq!(select_expired(&records, 4, 14, NOW).unwrap(), Vec::<String>::new());
    assert_eq!(select_expired(&records, 5, 14, NOW).unwrap(), Vec::<String>::new());
    assert_eq!(select_expired(&records, u16::MAX, 14, NOW).unwrap(), Vec::<String>::new());
}

#[test]
fn floor_of_zero_selects_every_old_file() {
    let records = vec![
        record("a", days_ago(15)),
        record("b", days_ago(1)),
        record("c", days_ago(14) - 1),
        record("d", days_ago(13)),
    ];
    assert_eq!(select_expired(&records, 0, 14, NOW).unwrap(), vec!["c", "a"]);
}

#[test]
fn only_files_older_than_cutoff_are_selected() {
    let cutoff = days_ago(14);
    let records = vec![
        record("at_cutoff", cutoff),
        record("just_older", cutoff - 1),
        record("just_newer", cutoff + 1),
        record("ancient", 0),
    ];
    assert_eq!(select_expired(&records, 0, 14, NOW).unwrap(), vec!["just_older", "ancient"]);
    assert_eq!(select_expired(&records, 0, 14, NOW + 1).unwrap(), vec![
        "at_cutoff",
        "just_older",
        "ancient"
    ]);
}

#[test]
fn files_beyond_floor_but_young_are_kept() {
    let records = vec![
        record("a", days_ago(1)),
        record("b", days_ago(2)),
        record("c", days_ago(3)),
        record("d", days_ago(20)),
    ];
    assert_eq!(select_expired(&records, 1, 14, NOW).unwrap(), vec!["d"]);
    assert_eq!(select_expired(&records, 1, 30, NOW).unwrap(), Vec::<String>::new());
    assert_eq!(select_expired(&records, 1, 2, NOW).unwrap(), vec!["c", "d"]);
}

#[test]
fn files_from_the_future_are_kept() {
    let records = vec![
        record("future", NOW as u64 + 10 * DAY),
        record("far_future", u64::MAX),
        record("old", days_ago(100)),
    ];
    assert_eq!(select_expired(&records, 0, 14, NOW).unwrap(), vec!["old"]);
    assert_eq!(select_expired(&records, 1, 14, NOW).unwrap(), vec!["old"]);
    assert_eq!(select_expired(&records, 2, 14, NOW).unwrap(), vec!["old"]);
    assert_eq!(select_expired(&records, 3, 14, NOW).unwrap(), Vec::<String>::new());
}

#[test]
fn cutoff_before_1970_selects_nothing() {
    let records = vec![record("a", 0), record("b", 1), record("c", 2)];
    assert_eq!(select_expired(&records, 0, 1, 86_400).unwrap(), Vec::<String>::new());
    assert_eq!(select_expired(&records, 0, 1, 86_401).unwrap(), vec!["a"]);
    assert_eq!(select_expired(&records, 0, 1, 0).unwrap(), Vec::<String>::new());
    assert_eq!(select_expired(&records, 0, 14, -5).unwrap(), Vec::<String>::new());
    assert_eq!(select_expired(&records, 0, i64::MAX, i64::MAX).unwrap(), Vec::<String>::new());
    assert_eq!(select_expired(&records, 0, i64::MAX, i64::MIN).unwrap(), Vec::<String>::new());
}

#[test]
fn ties_at_the_floor_go_by_scan_order() {
    let t = days_ago(50);
    let records = vec![
        record("a", t),
        record("b", t + 5),
        record("c", t),
        record("d", t),
        record("e", t + 5),
    ];
    assert_eq!(select_expired(&records, 3, 14, NOW).unwrap(), vec!["c", "d"]);
    assert_eq!(select_expired(&records, 2, 14, NOW).unwrap(), vec!["a", "c", "d"]);
    assert_eq!(select_expired(&records, 1, 14, NOW).unwrap(), vec!["e", "a", "c", "d"]);
}

#[test]
fn selection_is_the_same_when_run_twice() {
    let mut entries = Vec::new();
    for i in 0..40usize {
        entries.push(mp4(i, days_ago(((i * 7) % 30) as u64)));
    }
    let first = find_expired_files(&entries, "mp4", 10, 14, NOW).unwrap();
    let second = find_expired_files(&entries, "mp4", 10, 14, NOW).unwrap();
    assert_eq!(first, second);
    assert!(!first.is_empty());
    for path in &first {
        let entry = entries.iter().find(|e| &e.path == path).unwrap();
        match entry.modified {
            ModifiedTime::SinceEpoch(seconds) => {
                assert!((seconds as i128) < (NOW as i128) - 14 * 86_400)
            }
            _ => panic!("a file without age was selected"),
        }
    }
    assert!(entries.len() - first.len() >= 10);
}

#[test]
fn keep_days_below_one_fails_the_run() {
    let entries = vec![mp4(0, 0), mp4(1, 0)];
    let records = vec![record("a", 0), record("b", 0)];
    for keep_days in [0, -1, -14, i64::MIN] {
        assert_eq!(
            find_expired_files(&entries, "mp4", 0, keep_days, NOW),
            Err(ConfigError::KeepDaysNotPositive)
        );
        assert_eq!(
            select_expired(&records, 0, keep_days, NOW),
            Err(ConfigError::KeepDaysNotPositive)
        );
        assert_eq!(
            find_mp4s_that_are_older_max_age(&entries, None, 0, keep_days),
            Err(ConfigError::KeepDaysNotPositive)
        );
    }
    assert!(find_expired_files(&entries, "mp4", 0, 1, NOW).is_ok());
}

#[test]
fn upper_case_extension_is_not_selected() {
    let entries = vec![
        file("a.MP4", ModifiedTime::SinceEpoch(0)),
        file("b.mp4", ModifiedTime::SinceEpoch(0)),
        file("c.Mp4", ModifiedTime::SinceEpoch(0)),
        file("d.mp4.bak", ModifiedTime::SinceEpoch(0)),
        file("e", ModifiedTime::SinceEpoch(0)),
    ];
    assert_eq!(find_expired_files(&entries, "mp4", 0, 14, NOW).unwrap(), vec!["/videos/b.mp4"]);
    assert_eq!(find_expired_files(&entries, "MP4", 0, 14, NOW).unwrap(), vec!["/videos/a.MP4"]);
}

#[test]
fn other_files_do_not_count_towards_the_floor() {
    let mut entries = Vec::new();
    for i in 0..3 {
        entries.push(mp4(i, 0));
    }
    for i in 0..20 {
        entries.push(file(&format!("note{}.txt", i), ModifiedTime::SinceEpoch(0)));
    }
    let mut dir = mp4(99, 0);
    dir.is_file = false;
    entries.push(dir);
    assert_eq!(find_expired_files(&entries, "mp4", 3, 14, NOW).unwrap(), Vec::<String>::new());
    assert_eq!(
        find_expired_files(&entries, "mp4", 2, 14, NOW).unwrap(),
        vec!["/videos/clip02.mp4"]
    );
}

#[test]
fn files_without_age_are_never_selected() {
    let entries = vec![
        file("a.mp4", ModifiedTime::Unreadable),
        file("b.mp4", ModifiedTime::SinceEpoch(5)),
        file("c.mp4", ModifiedTime::BeforeEpoch),
        file("d.mp4", ModifiedTime::SinceEpoch(3)),
        file("e.mp4", ModifiedTime::Unreadable),
    ];
    assert_eq!(
        find_expired_files(&entries, "mp4", 0, 14, NOW).unwrap(),
        vec!["/videos/b.mp4", "/videos/d.mp4"]
    );
    assert_eq!(find_expired_files(&entries, "mp4", 1, 14, NOW).unwrap(), vec!["/videos/d.mp4"]);
    assert_eq!(find_expired_files(&entries, "mp4", 2, 14, NOW).unwrap(), Vec::<String>::new());
    assert_eq!(find_expired_files(&entries, "mp4", 5, 14, NOW).unwrap(), Vec::<String>::new());
}

#[test]
fn empty_scan_selects_nothing() {
    assert_eq!(find_expired_files(&Vec::new(), "mp4", 0, 14, NOW).unwrap(), Vec::<String>::new());
    assert_eq!(select_expired(&Vec::new(), 0, 14, NOW).unwrap(), Vec::<String>::new());
    assert_eq!(
        find_mp4s_that_are_older_max_age(&Vec::new(), None, 10, 14).unwrap(),
        Vec::<String>::new()
    );
}

#[test]
fn run_by_the_clock_selects_ancient_files_beyond_floor() {
    let entries = vec![
        mp4(0, 1_000),
        mp4(1, u64::MAX),
        mp4(2, 3_000),
        file("other.avi", ModifiedTime::SinceEpoch(0)),
        mp4(3, 2_000),
    ];
    assert_eq!(
        find_mp4s_that_are_older_max_age(&entries, None, 2, 14).unwrap(),
        vec!["/videos/clip03.mp4", "/videos/clip00.mp4"]
    );
    assert_eq!(
        find_mp4s_that_are_older_max_age(&entries, Some("mp4".to_string()), 0, 1).unwrap(),
        vec!["/videos/clip02.mp4", "/videos/clip03.mp4", "/videos/clip00.mp4"]
    );
    assert_eq!(
        find_mp4s_that_are_older_max_age(&entries, Some("avi".to_string()), 0, 14).unwrap(),
        vec!["/videos/other.avi"]
    );
    assert_eq!(
        find_mp4s_that_are_older_max_age(&entries, Some("avi".to_string()), 1, 14).unwrap(),
        Vec::<String>::new()
    );
}

#[test]
fn run_by_the_clock_keeps_files_of_the_last_days() {
    let now = chrono::Utc::now().timestamp() as u64;
    let entries = vec![
        mp4(0, now - 3_600),
        mp4(1, now - 13 * DAY),
        mp4(2, now - 15 * DAY),
        mp4(3, now + 3_600),
    ];
    assert_eq!(
        find_mp4s_that_are_older_max_age(&entries, None, 0, 14).unwrap(),
        vec!["/videos/clip02.mp4"]
    );
    assert_eq!(
        find_mp4s_that_are_older_max_age(&entries, None, 0, 16).unwrap(),
        Vec::<String>::new()
    );
}

#[test]
fn more_files_than_sixteen_bits_count() {
    let mut entries = Vec::new();
    for i in 0..65_541usize {
        entries.push(mp4(i, i as u64));
    }
    let selection = find_expired_files(&entries, "mp4", 65_535, 14, NOW).unwrap();
    assert_eq!(
        selection,
        vec![
            "/videos/clip05.mp4",
            "/videos/clip04.mp4",
            "/videos/clip03.mp4",
            "/videos/clip02.mp4",
            "/videos/clip01.mp4",
            "/videos/clip00.mp4"
        ]
    );
}

#[test]
fn second_pass_selects_nothing() {
    let mut entries = Vec::new();
    for i in 0..60usize {
        entries.push(mp4(i, days_ago(((i * 11) % 40) as u64)));
    }
    for min_files in [0u16, 1, 10, 25, 59, 60] {
        let first = find_expired_files(&entries, "mp4", min_files, 14, NOW).unwrap();
        let left: Vec<Entry> =
            entries.iter().filter(|e| !first.contains(&e.path)).cloned().collect();
        assert_eq!(left.len() + first.len(), entries.len());
        assert!(left.len() >= (min_files as usize).min(entries.len()));
        let mut shuffled = left.clone();
        shuffled.reverse();
        assert_eq!(
            find_expired_files(&left, "mp4", min_files, 14, NOW).unwrap(),
            Vec::<String>::new()
        );
        assert_eq!(
            find_expired_files(&shuffled, "mp4", min_files, 14, NOW).unwrap(),
            Vec::<String>::new()
        );
    }
}
