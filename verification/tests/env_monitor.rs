use llmperf_rs::env_monitor::{linux_dimm_sizes, windows_dimm_sizes, EnvMonitor, SystemFacts};

#[test]
fn test_format_dimm_config_uniform() {
    assert_eq!(EnvMonitor::format_dimm_config(&[64, 64, 64, 64]), "64G*4");
}

#[test]
fn test_format_dimm_config_mixed() {
    let result = EnvMonitor::format_dimm_config(&[64, 64, 32]);
    assert!(result.contains("64G*2"));
    assert!(result.contains("32G*1"));
}

#[test]
fn test_format_dimm_config_empty() {
    assert_eq!(EnvMonitor::format_dimm_config(&[]), "");
}

#[test]
fn largest_modules_come_first() {
    assert_eq!(EnvMonitor::format_dimm_config(&[8, 64, 32, 64, 8, 8]), "64G*2 32G*1 8G*3");
    assert_eq!(EnvMonitor::format_dimm_config(&[64, 8, 8, 32, 8, 64]), "64G*2 32G*1 8G*3");
}

#[test]
fn modules_that_dmidecode_lists() {
    let output = "Memory Device\n\tSize: 32 GB\n\tSize: No Module Installed\n\tSize: 16 GB\r\n\
        \tMax Size: 64 GB\n\tSize: 0 GB\n\tSize: Unknown\n\tSize:\n";
    assert_eq!(linux_dimm_sizes(&output.as_bytes().to_vec()), vec![32, 16]);
    assert_eq!(linux_dimm_sizes(&b"\xff\nSize: 4\n".to_vec()), vec![4]);
}

#[test]
fn modules_that_wmic_lists() {
    let output = "Capacity  \r\n17179869184  \r\n\r\n1024\r\nabc\r\n8589934592\r\n";
    assert_eq!(windows_dimm_sizes(&output.as_bytes().to_vec()), vec![16, 8]);
    assert!(windows_dimm_sizes(&vec![]).is_empty());
    assert!(windows_dimm_sizes(&b"17179869184".to_vec()).is_empty());
}

#[test]
fn memory_by_modules_or_by_size() {
    let gib = 1024 * 1024 * 1024;
    assert_eq!(EnvMonitor::format_memory_info(&[16, 16], 5 * gib, gib), "16G*2");
    assert_eq!(
        EnvMonitor::format_memory_info(&[], 5 * gib + 7, gib - 1),
        "5 GB total, 0 GB available"
    );
}

fn pair(a: &str, b: &str) -> (String, String) {
    (a.to_string(), b.to_string())
}

#[test]
fn cards_that_nvidia_smi_lists() {
    let output = "\n0, NVIDIA A100, 81920\n1, NVIDIA T4 , x\nbroken, line\n2,a,3,4\n\n";
    assert_eq!(
        EnvMonitor::get_nvidia_info(Some(output.as_bytes().to_vec())).unwrap(),
        vec![pair("0", "NVIDIA A100 81920MB"), pair("1", "NVIDIA T4 0MB"), pair("2", "a 3MB")]
    );
    assert_eq!(EnvMonitor::get_nvidia_info(Some(vec![])).unwrap(), vec![]);
    assert_eq!(EnvMonitor::get_nvidia_info(None).unwrap_err(), "No GPU info available");
}

#[test]
fn cards_that_wmic_lists() {
    let output = "Name AdapterRAM\r\nRadeon RX 580  4293918720\r\nBasic 1024\r\nArc A770 17179869184\r\nx\r\n";
    assert_eq!(
        EnvMonitor::get_gpu_info_windows(Some(output.as_bytes().to_vec())).unwrap(),
        vec![pair("1", "Radeon RX 580 3G"), pair("2", "Arc A770 16G")]
    );
    let none = "No GPU info available";
    assert_eq!(EnvMonitor::get_gpu_info_windows(None).unwrap_err(), none);
    assert_eq!(EnvMonitor::get_gpu_info_windows(Some(b"head\n".to_vec())).unwrap_err(), none);
}

#[test]
fn description_of_the_machine() {
    let facts = SystemFacts {
        os_name: Some("Ubuntu".to_string()),
        os_version: Some("24.04".to_string()),
        cpu_model: None,
        cpu_cores: 8,
    };
    let cards = vec![pair("0", "A100 81920MB")];
    assert_eq!(
        EnvMonitor::collect_with_lang("en", &facts, "64G*4", &cards),
        "OS: Ubuntu 24.04\nCPU: Unknown (8 cores)\nMemory: 64G*4\nGPU 0: A100 81920MB\n"
    );
    let facts = SystemFacts { os_name: None, os_version: None, cpu_model: Some("X".to_string()), cpu_cores: 1 };
    assert_eq!(
        EnvMonitor::collect_with_lang("zh", &facts, "m", &vec![]),
        "操作系统:  \nCPU: X (1 核心)\n内存: m\n"
    );
}
