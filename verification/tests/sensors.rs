use std::path::PathBuf;
use std::time::{Duration, Instant};

use ant_monitor::sensors::{cpu_usage_step, find_fan_input, find_gpu_temp_input, parse_meminfo,
    ram_usage, read_u64_text, sample_cpu_times, Candidate, CpuCounters, DirFile, DrmEntry,
    HwmonDevice, MemInfo, PowercapZone, RamUsage, SensorError, SensorReader, SensorScan,
    StatSample, UsageStep};

fn file(dir: &str, name: &str) -> DirFile {
    DirFile { name: name.to_string(), path: PathBuf::from(format!("{dir}/{name}")) }
}

fn device(dir: &str, name: &str, files: &[&str]) -> HwmonDevice {
    HwmonDevice {
        path: PathBuf::from(dir),
        name: name.to_string(),
        files: files.iter().map(|f| file(dir, f)).collect(),
    }
}

fn zone(dir: &str, name: Option<&str>, exists: bool, text: Option<&str>) -> PowercapZone {
    PowercapZone {
        name: name.map(|n| n.to_string()),
        energy_path: PathBuf::from(format!("{dir}/energy_uj")),
        energy_exists: exists,
        energy_text: text.map(|t| t.to_string()),
    }
}

#[test]
fn reader_picks_cpu_sensor_files() {
    let scan = SensorScan {
        hwmon_present: true,
        hwmon: vec![
            device("/h/hwmon0", "acpitz\n", &["temp1_input"]),
            device("/h/hwmon1", "nct6775\n", &["fan1_input", "in0_input", "in1_input"]),
            device("/h/hwmon2", "coretemp\n", &["temp1_input", "temp2_label", "temp2_input", "in9_input"]),
        ],
        powercap: vec![
            zone("/p/intel-rapl:0", Some("package-0\n"), true, Some("123456\n")),
            zone("/p/intel-rapl:0:0", Some("core\n"), true, Some("99\n")),
        ],
    };
    let now = Instant::now();
    let r = SensorReader::new(&scan, now);
    assert_eq!(r.hwmon_base, Some(PathBuf::from("/h/hwmon2")));
    assert_eq!(r.cpu_temp_path, Some(PathBuf::from("/h/hwmon2/temp2_input")));
    assert_eq!(r.cpu_volt_path, Some(PathBuf::from("/h/hwmon1/in0_input")));
    assert_eq!(r.rapl_path, Some(PathBuf::from("/p/intel-rapl:0/energy_uj")));
    assert_eq!(r.rapl_energy, 123456);
    assert_eq!(r.pump_rpm_path, None);
    assert_eq!(r.rapl_time, now);
}

#[test]
fn reader_without_hwmon_chooses_nothing() {
    let scan = SensorScan {
        hwmon_present: false,
        hwmon: vec![],
        powercap: vec![zone("/p/intel-rapl:0", Some("package-0"), true, Some("5"))],
    };
    let r = SensorReader::new(&scan, Instant::now());
    assert_eq!(r.hwmon_base, None);
    assert_eq!(r.cpu_temp_path, None);
    assert_eq!(r.cpu_volt_path, None);
    assert_eq!(r.rapl_path, None);
    assert_eq!(r.rapl_energy, 0);
}

#[test]
fn reader_keeps_unreadable_energy_at_zero() {
    let scan = SensorScan {
        hwmon_present: true,
        hwmon: vec![device("/h/hwmon0", "k10temp", &["temp1_input"])],
        powercap: vec![
            zone("/p/a", Some("psys"), false, None),
            zone("/p/b", Some("  psys "), true, None),
            zone("/p/c", None, true, Some("7")),
        ],
    };
    let r = SensorReader::new(&scan, Instant::now());
    assert_eq!(r.cpu_temp_path, Some(PathBuf::from("/h/hwmon0/temp1_input")));
    assert_eq!(r.cpu_volt_path, None);
    assert_eq!(r.rapl_path, Some(PathBuf::from("/p/b/energy_uj")));
    assert_eq!(r.rapl_energy, 0);
}

#[test]
fn energy_samples_count_what_the_counter_added() {
    let scan = SensorScan {
        hwmon_present: true,
        hwmon: vec![],
        powercap: vec![zone("/p/a", Some("package-0"), true, Some("1000"))],
    };
    let t0 = Instant::now();
    let mut r = SensorReader::new(&scan, t0);
    let t1 = t0 + Duration::from_millis(200);
    assert_eq!(r.take_energy_sample(Some("1500\n"), t1), Some((500, t0)));
    assert_eq!(r.rapl_energy, 1500);
    let t2 = t1 + Duration::from_millis(200);
    assert_eq!(r.take_energy_sample(Some("900"), t2), Some((0, t1)));
    let t3 = t2 + Duration::from_millis(200);
    assert_eq!(r.take_energy_sample(None, t3), Some((0, t2)));
    assert_eq!(r.take_energy_sample(Some("garbage"), t3), Some((0, t3)));
    assert_eq!(r.rapl_energy, 900);

    let mut plain = SensorReader::new(&SensorScan { hwmon_present: true, hwmon: vec![], powercap: vec![] }, t0);
    assert_eq!(plain.take_energy_sample(Some("5"), t1), None);
    assert_eq!(plain.rapl_time, t0);
}

#[test]
fn kernel_numbers_parse_or_say_why() {
    assert_eq!(read_u64_text("42000\n", "/x").unwrap(), 42000);
    assert_eq!(read_u64_text("  +7 ", "/x").unwrap(), 7);
    assert_eq!(read_u64_text("18446744073709551615", "/x").unwrap(), u64::MAX);
    match read_u64_text("18446744073709551616", "/sys/a") {
        Err(SensorError::Parse(m)) => assert_eq!(m, "/sys/a: number too large to fit in target type"),
        other => panic!("unexpected {other:?}"),
    }
    match read_u64_text("\n", "/sys/b") {
        Err(SensorError::Parse(m)) => assert_eq!(m, "/sys/b: cannot parse integer from empty string"),
        other => panic!("unexpected {other:?}"),
    }
    match read_u64_text("12a", "/sys/c") {
        Err(SensorError::Parse(m)) => assert_eq!(m, "/sys/c: invalid digit found in string"),
        other => panic!("unexpected {other:?}"),
    }
    match read_u64_text("-1", "/sys/d") {
        Err(SensorError::Parse(m)) => {
            assert_eq!(m, format!("/sys/d: {}", "-1".parse::<u64>().unwrap_err()))
        }
        other => panic!("unexpected {other:?}"),
    }
}

#[test]
fn cpu_counters_from_proc_stat() {
    let stat = "cpu  10 20 30 400 5 6 7 0 0 0\ncpu0 1 2 3 4\n";
    assert_eq!(sample_cpu_times(stat), StatSample::Times { total: 478, idle: 400 });
    assert_eq!(sample_cpu_times(""), StatSample::NoLine);
    assert_eq!(sample_cpu_times("cpu 1 2\n"), StatSample::TooFew);
    assert_eq!(sample_cpu_times("cpu 1 x 2 3\n"), StatSample::NoIdle);
    assert_eq!(sample_cpu_times("cpu 18446744073709551615 1 1 1\n"), StatSample::SumOverflow);
}

#[test]
fn cpu_usage_from_two_samples() {
    let first = cpu_usage_step(CpuCounters { total: 0, idle: 0 }, 1000, 800);
    assert_eq!(first.step, UsageStep::Baseline);
    assert_eq!(first.state, CpuCounters { total: 1000, idle: 800 });
    let second = cpu_usage_step(first.state, 1100, 850);
    assert_eq!(second.step, UsageStep::Ticks { busy: 50, total: 100 });
    let third = cpu_usage_step(second.state, 1100, 850);
    assert_eq!(third.step, UsageStep::NoTime);
    let back = cpu_usage_step(third.state, 1000, 900);
    assert_eq!(back.step, UsageStep::CounterWentBack);
    assert_eq!(back.state, third.state);
}

#[test]
fn ram_usage_from_meminfo() {
    let info = "MemTotal:       16318464 kB\nMemFree:  1 kB\nMemAvailable:    8159232 kB\n";
    let m = parse_meminfo(info);
    assert_eq!(m, MemInfo { total_kib: 16318464, available_kib: 8159232 });
    assert_eq!(ram_usage(m), RamUsage::Used { used_kib: 8159232, total_kib: 16318464 });
    assert_eq!(ram_usage(parse_meminfo("")), RamUsage::NoTotal);
    assert_eq!(
        ram_usage(MemInfo { total_kib: 5, available_kib: 6 }),
        RamUsage::AvailableAboveTotal
    );
    assert_eq!(parse_meminfo("MemTotal:\nMemAvailable: x kB\n"), MemInfo { total_kib: 0, available_kib: 0 });
}

#[test]
fn fan_input_is_the_first_over_the_listings() {
    let dirs = vec![
        vec![file("/h/0", "temp1_input")],
        vec![],
        vec![file("/h/2", "fan1_label"), file("/h/2", "fan2_input"), file("/h/2", "fan1_input")],
    ];
    assert_eq!(find_fan_input(&dirs), Some(PathBuf::from("/h/2/fan2_input")));
    assert_eq!(find_fan_input(&vec![vec![file("/h/0", "pwm1")]]), None);
}

#[test]
fn gpu_temperature_comes_from_a_card() {
    let entries = vec![
        DrmEntry {
            name: "card0-DP-1".to_string(),
            temp_inputs: vec![Candidate { path: PathBuf::from("/d/a"), exists: true }],
        },
        DrmEntry { name: "card0".to_string(), temp_inputs: vec![] },
        DrmEntry {
            name: "card1".to_string(),
            temp_inputs: vec![
                Candidate { path: PathBuf::from("/d/b"), exists: false },
                Candidate { path: PathBuf::from("/d/c"), exists: true },
            ],
        },
    ];
    assert_eq!(find_gpu_temp_input(&entries), Some(PathBuf::from("/d/c")));
    assert_eq!(find_gpu_temp_input(&vec![]), None);
}
