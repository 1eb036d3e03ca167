use cpumon::process::{parse_stat, stat_cut_invalid, ProcessInfo, ProcessTable};
use cpumon::tree::build_process_tree_lines;

fn stat_line(pid: i32, name: &str, ppid: i32, cpu: &str) -> String {
    let mut fields: Vec<String> = vec!["S".to_string(), ppid.to_string()];
    for i in 2..36 {
        fields.push((i * 3).to_string());
    }
    fields.push(cpu.to_string());
    for i in 37..52 {
        fields.push(i.to_string());
    }
    format!("{} ({}) {}\n", pid, name, fields.join(" "))
}

fn info(pid: i32, ppid: i32, name: &str, cpu: Option<u32>) -> ProcessInfo {
    ProcessInfo { pid, ppid, name: name.to_string(), last_cpu: cpu }
}

#[test]
fn parse_stat_reads_name_parent_and_cpu() {
    let line = stat_line(1234, "bash", 1000, "3");
    assert_eq!(parse_stat(&line), Some(("bash".to_string(), 1000, Some(3))));
}

#[test]
fn parse_stat_name_with_parentheses_and_spaces() {
    let line = stat_line(7, "a (b) c", 1, "0");
    assert_eq!(parse_stat(&line), Some(("a (b) c".to_string(), 1, Some(0))));
}

#[test]
fn parse_stat_cpu_not_a_number() {
    let line = stat_line(7, "x", 1, "-1");
    assert_eq!(parse_stat(&line), Some(("x".to_string(), 1, None)));
}

#[test]
fn parse_stat_rejects() {
    assert_eq!(parse_stat(""), None);
    assert_eq!(parse_stat("1 bash S 1"), None);
    assert_eq!(parse_stat("1 (bash"), None);
    assert_eq!(parse_stat("1 (bash)"), None);
    assert_eq!(parse_stat("1 (bash) S 1 2 3"), None);
    let line = stat_line(7, "x", 1, "0").replacen(" 1 ", " p ", 1);
    assert_eq!(parse_stat(&line), None);
}

#[test]
fn stat_cuts() {
    assert!(!stat_cut_invalid("1 (bash) S"));
    assert!(stat_cut_invalid(") x ("));
    assert!(stat_cut_invalid("1 (a)\u{e9}b"));
    assert!(stat_cut_invalid(")("));
    assert!(!stat_cut_invalid(")"));
    assert!(!stat_cut_invalid("no parens"));
}

#[test]
fn table_insert_replaces() {
    let mut t = ProcessTable::new();
    assert!(t.is_empty());
    t.insert(info(5, 1, "a", Some(0)));
    t.insert(info(6, 1, "b", None));
    t.insert(info(5, 2, "c", Some(1)));
    assert_eq!(t.len(), 2);
    let p = t.get(5).unwrap();
    assert_eq!(p.ppid, 2);
    assert_eq!(p.name, "c");
    assert!(t.get(7).is_none());
    assert_eq!(t.entry(1).pid, 6);
}

fn sample_table() -> ProcessTable {
    let mut t = ProcessTable::new();
    t.insert(info(300, 1, "cron", Some(2)));
    t.insert(info(201, 200, "vim", Some(2)));
    t.insert(info(1, 0, "systemd", Some(0)));
    t.insert(info(400, 1, "other", Some(3)));
    t.insert(info(100, 1, "sshd", Some(1)));
    t.insert(info(200, 100, "bash", Some(2)));
    t
}

#[test]
fn tree_of_empty_table() {
    let t = ProcessTable::new();
    assert_eq!(build_process_tree_lines(4, &t), vec!["process tree cpu 4", "no process data from /proc"]);
}

#[test]
fn tree_without_processes_on_cpu() {
    let t = sample_table();
    assert_eq!(
        build_process_tree_lines(9, &t),
        vec!["process tree cpu 9", "no process currently scheduled on this cpu"]
    );
}

#[test]
fn tree_with_ancestors() {
    let t = sample_table();
    assert_eq!(
        build_process_tree_lines(2, &t),
        vec![
            "process tree cpu 2",
            "* marker = currently on selected cpu",
            "1 systemd",
            "|-- 100 sshd",
            "|   `-- 200 bash *",
            "|       `-- 201 vim *",
            "`-- 300 cron *",
        ]
    );
}

#[test]
fn tree_root_on_cpu() {
    let t = sample_table();
    assert_eq!(
        build_process_tree_lines(0, &t),
        vec!["process tree cpu 0", "* marker = currently on selected cpu", "1 systemd *"]
    );
}

#[test]
fn tree_with_two_roots() {
    let mut t = ProcessTable::new();
    t.insert(info(20, 0, "b", Some(1)));
    t.insert(info(10, 0, "a", Some(1)));
    t.insert(info(30, 10, "c", Some(1)));
    t.insert(info(31, 10, "d", Some(5)));
    assert_eq!(
        build_process_tree_lines(1, &t),
        vec!["process tree cpu 1", "* marker = currently on selected cpu", "10 a *", "`-- 30 c *", "20 b *"]
    );
}

#[test]
fn tree_parent_missing_from_table() {
    let mut t = ProcessTable::new();
    t.insert(info(50, 7, "orphan", Some(1)));
    assert_eq!(
        build_process_tree_lines(1, &t),
        vec!["process tree cpu 1", "* marker = currently on selected cpu"]
    );
}

#[test]
fn tree_cycle_draws_nothing() {
    let mut t = ProcessTable::new();
    t.insert(info(10, 11, "a", Some(5)));
    t.insert(info(11, 10, "b", Some(5)));
    assert_eq!(
        build_process_tree_lines(5, &t),
        vec!["process tree cpu 5", "* marker = currently on selected cpu"]
    );
}

#[test]
fn tree_self_parent_is_root() {
    let mut t = ProcessTable::new();
    t.insert(info(10, 10, "self", Some(5)));
    t.insert(info(12, 10, "kid", Some(6)));
    assert_eq!(
        build_process_tree_lines(5, &t),
        vec!["process tree cpu 5", "* marker = currently on selected cpu", "10 self *"]
    );
}

#[test]
fn tree_ancestor_walk_is_bounded() {
    // A chain 1 <- 2 <- ... <- 200; only the process at the bottom is on the CPU.
    let mut t = ProcessTable::new();
    for pid in 1..=200 {
        t.insert(info(pid, pid - 1, "p", if pid == 200 { Some(1) } else { None }));
    }
    let lines = build_process_tree_lines(1, &t);
    // The walk stops 129 steps up, at process 71, whose parent is not in the tree.
    assert_eq!(lines.len(), 2 + 130);
    assert_eq!(lines[2], "71 p");
    assert!(lines[lines.len() - 1].ends_with("`-- 200 p *"));
}
