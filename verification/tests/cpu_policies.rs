use cpumon::cpu::{parse_policy_id, CPUState, Cpu, PolicyReading, Val};

fn reading(name: &str, governors: &str) -> PolicyReading {
    PolicyReading {
        path: format!("/sys/devices/system/cpu/cpufreq/{}", name),
        name: name.to_string(),
        available_governors: governors.to_string(),
        cur_freq: "1800000\n".to_string(),
        driver: "intel_pstate\n".to_string(),
        governor: "powersave\n".to_string(),
        max_freq: " 4200000\n".to_string(),
        min_freq: "400000\n".to_string(),
    }
}

#[test]
fn policy_ids() {
    assert_eq!(parse_policy_id("policy0"), Some(0));
    assert_eq!(parse_policy_id("policy12"), Some(12));
    assert_eq!(parse_policy_id("policypolicy7"), Some(7));
    assert_eq!(parse_policy_id("policy+5"), Some(5));
    assert_eq!(parse_policy_id("policy"), None);
    assert_eq!(parse_policy_id("cpu1"), None);
    assert_eq!(parse_policy_id("policy1a"), None);
    assert_eq!(parse_policy_id("3"), Some(3));
}

#[test]
fn policy_ids_agree_with_std() {
    for name in ["policy0", "policy15", "policypolicy2", "policy", "xpolicy1", "policy-1", "policy4294967295"] {
        let expected = name.trim_start_matches("policy").parse::<usize>().ok().map(|n| n as u32);
        assert_eq!(parse_policy_id(name), expected, "{}", name);
    }
}

#[test]
fn cpu_from_reading_trims_and_splits() {
    let cpu = Cpu::from_reading(&reading("policy3", "performance powersave\n"));
    assert_eq!(cpu.id, 3);
    assert_eq!(cpu.path, "/sys/devices/system/cpu/cpufreq/policy3");
    assert_eq!(cpu.scaling_available_governors, vec!["performance", "powersave"]);
    assert_eq!(cpu.scaling_cur_freq, "1800000");
    assert_eq!(cpu.scaling_driver, "intel_pstate");
    assert_eq!(cpu.scaling_governor, "powersave");
    assert_eq!(cpu.scaling_gov, "powersave");
    assert_eq!(cpu.scaling_max_freq, "4200000");
    assert_eq!(cpu.scaling_min_freq, "400000");
}

#[test]
fn cpu_state_keeps_order() {
    let st = CPUState::new(vec![reading("policy0", "a b"), reading("policy10", "c"), reading("policy2", "")]);
    assert_eq!(st.cpu.len(), 3);
    assert_eq!(st.path.len(), 3);
    assert_eq!(st.cpu[0].id, 0);
    assert_eq!(st.cpu[1].id, 10);
    assert_eq!(st.cpu[2].id, 2);
    assert_eq!(st.path[1], "/sys/devices/system/cpu/cpufreq/policy10");
    assert_eq!(st.cpu[2].scaling_available_governors, vec![""]);
}

#[test]
fn cpu_state_empty() {
    let st = CPUState::new(Vec::new());
    assert!(st.cpu.is_empty());
    assert!(st.path.is_empty());
}

#[test]
fn val_contents() {
    assert_eq!(Val::String("performance".to_string()).to_contents(), "performance");
    assert_eq!(Val::Int(2400000).to_contents(), "2400000");
    assert_eq!(Val::Int(0).to_contents(), "0");
}

#[test]
fn written_numbers_read_back() {
    for n in [0u32, 5, 800000, u32::MAX] {
        assert_eq!(cpumon::numeric::parse_u32(&Val::Int(n).to_contents()), Some(n));
    }
}

#[test]
fn policy_name_of_number() {
    for n in [0u32, 7, 123, u32::MAX] {
        assert_eq!(parse_policy_id(&format!("policy{}", n)), Some(n));
    }
}
