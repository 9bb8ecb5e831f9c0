use game_time_tracker::process::{
    normalize_for_filter, select_offered, snapshot_runs, strip_exe, windir_prefix, ProcessInfo,
    ProcessMonitor,
};

fn on_windows() -> bool {
    std::path::MAIN_SEPARATOR == '\\'
}

#[test]
fn test_strip_exe_removes_extension() {
    assert_eq!(strip_exe("firefox.exe"), "firefox");
    assert_eq!(strip_exe("firefox"), "firefox");
    assert_eq!(strip_exe("some.game.exe"), "some.game");
    assert_eq!(strip_exe("noextension"), "noextension");
    assert_eq!(strip_exe(""), "");
}

#[test]
fn strip_exe_ignores_the_suffix_case() {
    assert_eq!(strip_exe("Game.EXE"), "Game");
    assert_eq!(strip_exe("firefox.Exe"), "firefox");
    assert_eq!(strip_exe("tool.eXe"), "tool");
    assert_eq!(strip_exe(".EXE"), "");
    assert_eq!(strip_exe("game.ex"), "game.ex");
    assert_eq!(strip_exe("gameexe"), "gameexe");
}

#[test]
fn test_process_monitor_creation() {
    let mut monitor = ProcessMonitor::new();
    assert!(!monitor.is_running("nonexistent_process_12345.exe"));
}

#[test]
fn fresh_monitor_holds_no_process_until_refreshed() {
    let mut loaded = ProcessMonitor::new();
    let names = loaded.list_processes(false, None);
    assert!(!names.is_empty());
    let name = names[0].clone();
    assert!(loaded.is_running_cached(&name));
    let fresh = ProcessMonitor::new();
    assert!(!fresh.is_running_cached(&name));
}

#[test]
fn test_process_monitor_nonexistent() {
    let mut monitor = ProcessMonitor::new();
    let result = monitor.is_running("this_process_definitely_does_not_exist_12345.exe");
    assert!(!result);
}

#[test]
fn test_process_monitor_case_insensitive() {
    let mut monitor = ProcessMonitor::new();
    let result1 = monitor.is_running("EXPLORER.EXE");
    let result2 = monitor.is_running("explorer.exe");
    assert_eq!(result1, result2);
}

#[test]
fn test_is_running_without_exe_suffix() {
    let mut monitor = ProcessMonitor::new();
    let with_ext = monitor.is_running("explorer.exe");
    let without_ext = monitor.is_running("explorer");
    assert_eq!(
        with_ext, without_ext,
        "is_running should match regardless of .exe suffix"
    );
}

fn windir() -> Option<String> {
    None
}

#[test]
fn test_list_processes_returns_sorted_unique() {
    let mut monitor = ProcessMonitor::new();
    let list = monitor.list_processes(on_windows(), windir().as_deref());
    let lower: Vec<String> = list.iter().map(|s| s.to_lowercase()).collect();
    let mut dedup = lower.clone();
    dedup.sort();
    dedup.dedup();
    assert_eq!(lower.len(), dedup.len(), "list should be deduplicated");
}

#[test]
fn test_list_processes_ordered_by_recent() {
    let mut monitor = ProcessMonitor::new();
    let list = monitor.list_processes(on_windows(), windir().as_deref());
    if on_windows() && list.len() >= 2 {
        let lower: Vec<String> = list.iter().map(|s| s.to_lowercase()).collect();
        let mut dedup = lower.clone();
        dedup.sort();
        dedup.dedup();
        assert_eq!(lower.len(), dedup.len());
    }
}

#[test]
fn test_list_processes_nonempty() {
    let mut monitor = ProcessMonitor::new();
    let list = monitor.list_processes(on_windows(), windir().as_deref());
    assert!(!list.is_empty(), "expected at least one running process");
}

#[test]
fn test_list_processes_filters_to_exe_on_windows() {
    let mut monitor = ProcessMonitor::new();
    let list = monitor.list_processes(on_windows(), windir().as_deref());
    if on_windows() {
        for name in &list {
            assert!(
                name.to_lowercase().ends_with(".exe"),
                "expected only .exe processes on Windows, got {name}"
            );
        }
        let lower: Vec<String> = list.iter().map(|s| s.to_lowercase()).collect();
        assert!(
            !lower.contains(&"explorer.exe".to_string()),
            "system explorer.exe should be filtered from non-system list"
        );
    }
}

fn proc_info(name: &str, exe: Option<&str>, start: u64) -> ProcessInfo {
    ProcessInfo {
        name: Some(name.to_string()),
        exe: exe.map(|e| e.to_string()),
        start_time: start,
    }
}

#[test]
fn snapshot_matching_ignores_case_and_exe_suffix() {
    let procs = vec![
        proc_info("RocketLeague.exe", None, 1),
        ProcessInfo { name: None, exe: None, start_time: 2 },
    ];
    assert!(snapshot_runs(&procs, "rocketleague.EXE"));
    assert!(snapshot_runs(&procs, "ROCKETLEAGUE"));
    assert!(!snapshot_runs(&procs, "rocket"));
    assert!(!snapshot_runs(&[], "rocketleague.exe"));
}

#[test]
fn offered_list_dedups_keeps_latest_and_orders_newest_first() {
    let procs = vec![
        proc_info("Game.exe", Some("D:\\Games\\Game.exe"), 10),
        proc_info("other.exe", Some("D:\\Other\\other.exe"), 30),
        proc_info("GAME.EXE", Some("D:\\Games\\GAME.EXE"), 40),
        proc_info("game.exe", Some("D:\\Games\\game.exe"), 40),
        proc_info("svchost.exe", Some("C:\\Windows\\System32\\svchost.exe"), 50),
        proc_info("winexe.exe", Some("\\\\?\\C:\\WINDOWS\\winexe.exe"), 55),
        proc_info("System", None, 60),
        proc_info("", Some("D:\\x.exe"), 70),
        proc_info("noexe.exe", None, 80),
        proc_info("late.exe", Some("D:\\late.exe"), 5),
    ];
    let prefix = Some(windir_prefix(Some("C:\\Windows\\")));
    let names = select_offered(&procs, &prefix);
    // GAME.EXE replaced Game.exe (later start); the tie with game.exe keeps GAME.EXE.
    assert_eq!(names, vec!["GAME.EXE", "other.exe", "late.exe"]);

    let all = select_offered(&procs, &None);
    assert_eq!(
        all,
        vec!["noexe.exe", "System", "winexe.exe", "svchost.exe", "GAME.EXE", "other.exe", "late.exe"]
    );
}

#[test]
fn windows_directory_prefix_and_normalized_paths() {
    assert_eq!(windir_prefix(None), "c:\\windows\\");
    assert_eq!(windir_prefix(Some("D:\\WinNT\\\\")), "d:\\winnt\\");
    assert_eq!(normalize_for_filter("\\\\?\\C:\\Windows\\x.EXE"), "c:\\windows\\x.exe");
    assert_eq!(normalize_for_filter("C:\\Games"), "c:\\games");
}
