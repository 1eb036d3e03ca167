use cpumon::cpu::{CPUState, Cpu};
use cpumon::process::{ProcessInfo, ProcessTable};
use cpumon::tui::{action_for_key, table_height, table_row, Action, App, Key};

fn cpu(id: u32) -> Cpu {
    Cpu {
        id,
        path: format!("/sys/devices/system/cpu/cpufreq/policy{}", id),
        scaling_gov: "schedutil".to_string(),
        scaling_available_governors: vec!["performance".to_string(), "schedutil".to_string()],
        scaling_cur_freq: "1000".to_string(),
        scaling_driver: "acpi-cpufreq".to_string(),
        scaling_governor: "schedutil".to_string(),
        scaling_max_freq: "3000".to_string(),
        scaling_min_freq: "800".to_string(),
    }
}

fn state(ids: &[u32]) -> CPUState {
    CPUState {
        cpu: ids.iter().map(|&i| cpu(i)).collect(),
        path: ids.iter().map(|&i| format!("/sys/devices/system/cpu/cpufreq/policy{}", i)).collect(),
    }
}

fn table() -> ProcessTable {
    let mut t = ProcessTable::new();
    t.insert(ProcessInfo { pid: 1, ppid: 0, name: "init".to_string(), last_cpu: Some(4) });
    t
}

#[test]
fn keys() {
    assert!(matches!(action_for_key(Key::Char('q'), true), Action::Quit));
    assert!(matches!(action_for_key(Key::Esc, true), Action::Quit));
    assert!(matches!(action_for_key(Key::Down, true), Action::Next));
    assert!(matches!(action_for_key(Key::Char('j'), true), Action::Next));
    assert!(matches!(action_for_key(Key::Up, true), Action::Previous));
    assert!(matches!(action_for_key(Key::Char('k'), true), Action::Previous));
    assert!(matches!(action_for_key(Key::Char('r'), true), Action::Refresh));
    assert!(matches!(action_for_key(Key::Char('x'), true), Action::Ignore));
    assert!(matches!(action_for_key(Key::Other, true), Action::Ignore));
    assert!(matches!(action_for_key(Key::Char('q'), false), Action::Ignore));
}

#[test]
fn new_selects_first() {
    let app = App::new(state(&[4, 5]), &table());
    assert_eq!(app.selected(), Some(0));
    assert_eq!(app.selected_cpu_id(), Some(4));
    assert_eq!(
        app.process_tree_lines(),
        &vec!["process tree cpu 4".to_string(), "* marker = currently on selected cpu".to_string(), "1 init *".to_string()]
    );
}

#[test]
fn new_without_cpus() {
    let app = App::new(state(&[]), &table());
    assert_eq!(app.selected(), None);
    assert_eq!(app.selected_cpu_id(), None);
    assert_eq!(app.process_tree_lines(), &vec!["no cpu selected".to_string()]);
}

#[test]
fn next_wraps_round() {
    let t = ProcessTable::new();
    let mut app = App::new(state(&[0, 1, 2]), &t);
    app.select_next(&t);
    assert_eq!(app.selected(), Some(1));
    app.select_next(&t);
    assert_eq!(app.selected(), Some(2));
    app.select_next(&t);
    assert_eq!(app.selected(), Some(0));
    assert_eq!(app.process_tree_lines(), &vec!["process tree cpu 0".to_string(), "no process data from /proc".to_string()]);
}

#[test]
fn previous_wraps_round() {
    let t = ProcessTable::new();
    let mut app = App::new(state(&[0, 1, 2]), &t);
    app.select_previous(&t);
    assert_eq!(app.selected(), Some(2));
    assert_eq!(app.selected_cpu_id(), Some(2));
    app.select_previous(&t);
    assert_eq!(app.selected(), Some(1));
    app.select_next(&t);
    assert_eq!(app.selected(), Some(2));
}

#[test]
fn refresh_clamps_selection() {
    let t = ProcessTable::new();
    let mut app = App::new(state(&[0, 1, 2]), &t);
    app.select_previous(&t);
    assert_eq!(app.selected(), Some(2));
    app.refresh(state(&[7, 8]), &t);
    assert_eq!(app.selected(), Some(1));
    assert_eq!(app.selected_cpu_id(), Some(8));
    app.refresh(state(&[7, 8, 9]), &t);
    assert_eq!(app.selected(), Some(1));
    app.refresh(state(&[]), &t);
    assert_eq!(app.selected(), None);
    assert_eq!(app.process_tree_lines(), &vec!["no cpu selected".to_string()]);
    app.select_next(&t);
    assert_eq!(app.selected(), None);
    app.refresh(state(&[3]), &t);
    assert_eq!(app.selected(), Some(0));
}

#[test]
fn update_process_tree_reads_new_table() {
    let mut app = App::new(state(&[4]), &ProcessTable::new());
    assert_eq!(app.process_tree_lines().len(), 2);
    app.update_process_tree(&table());
    assert_eq!(app.process_tree_lines()[2], "1 init *");
    assert_eq!(app.cpu_state().cpu.len(), 1);
}

#[test]
fn heights() {
    assert_eq!(table_height(4, 40), 5);
    assert_eq!(table_height(4, 5), 3);
    assert_eq!(table_height(0, 40), 1);
    assert_eq!(table_height(4, 2), 1);
    assert_eq!(table_height(4, 0), 1);
    assert_eq!(table_height(65535, 100), 98);
    assert_eq!(table_height(65535, u16::MAX), 65533);
    assert_eq!(table_height(65536, 10), 1);
}

#[test]
fn heights_agree_with_std() {
    for (n, h) in [(0usize, 0u16), (3, 4), (3, 5), (10, 7), (70000, 300), (65535, 65535), (65534, 65535)] {
        let rows = n as u16;
        let desired = rows.saturating_add(1);
        let max = h.saturating_sub(2);
        assert_eq!(table_height(n, h), desired.clamp(1, max.max(1)), "{} {}", n, h);
    }
}

#[test]
fn row_cells() {
    assert_eq!(
        table_row(&cpu(3)),
        vec!["3", "/sys/devices/system/cpu/cpufreq/policy3", "schedutil", "1000", "800", "3000", "acpi-cpufreq"]
    );
}

#[test]
fn directories_follow_the_state() {
    let t = ProcessTable::new();
    let mut app = App::new(state(&[0, 1]), &t);
    assert_eq!(app.cpu_state().path, vec!["/sys/devices/system/cpu/cpufreq/policy0", "/sys/devices/system/cpu/cpufreq/policy1"]);
    app.select_next(&t);
    app.select_previous(&t);
    app.update_process_tree(&t);
    assert_eq!(app.cpu_state().path.len(), 2);
    app.refresh(state(&[5]), &t);
    assert_eq!(app.cpu_state().path, vec!["/sys/devices/system/cpu/cpufreq/policy5"]);
}
