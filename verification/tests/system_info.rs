use argon40::single::Single;
use argon40::system_info::{
    cpu_usage, filesystem_info, human_kib, is_drive_sensor, is_temperature_input, meminfo_fits,
    parse_meminfo, parse_mountinfo, parse_proc_stat, raid_info, stat_fits, usage_fits,
    with_temperature, CpuCounters, CpuTemperature, MemoryError, Mount,
};

fn single(value: f32) -> Single {
    Single { bits: value.to_bits() }
}

#[test]
fn parses_cpu_and_calculates_usage() {
    let a = parse_proc_stat("cpu 1 2 3 4 5 6\ncpu0 10 0 10 80 0 0\n").unwrap();
    let b = parse_proc_stat("cpu 1 2 3 4 5 6\ncpu0 20 0 20 160 0 0\n").unwrap();
    assert_eq!(cpu_usage(&a, &b), vec![("cpu0".to_owned(), 20)]);
}

#[test]
fn memavailable_preferred_with_legacy_fallback() {
    assert_eq!(
        parse_meminfo("MemTotal: 1000 kB\nMemAvailable: 400 kB\n")
            .unwrap()
            .available_kib,
        400
    );
    assert_eq!(
        parse_meminfo("MemTotal: 1000 kB\nMemFree: 100 kB\nBuffers: 20 kB\nCached: 30 kB\n")
            .unwrap()
            .available_kib,
        150
    );
}

#[test]
fn formats_sizes_compatibly() {
    assert_eq!(human_kib(1024), "1MB");
    assert_eq!(human_kib(2047), "2MB");
}

#[test]
fn processors_are_listed_in_the_order_of_their_names() {
    let table = parse_proc_stat(
        "cpu10 1 1 1 1 1\ncpu2 1 1 1 1 1\ncpu1 1 2 3 4 5 6\nintr 5\ncpufreq 1\ncpu3 1 2\n",
    )
    .unwrap();
    let names: Vec<&str> = (0..table.len()).map(|i| table.entry(i).0).collect();
    assert_eq!(names, vec!["cpu1", "cpu10", "cpu2"]);
    assert_eq!(table.get("cpu1"), Some(CpuCounters { total: 21, idle: 9 }));
    assert_eq!(table.get("cpu3"), None);
}

#[test]
fn the_last_row_of_a_processor_counts() {
    let table = parse_proc_stat("cpu0 1 1 1 1 1\ncpu1 3 3 3 3 3\ncpu0 2 2 2 2 2\n").unwrap();
    assert_eq!(table.len(), 2);
    assert_eq!(table.get("cpu0"), Some(CpuCounters { total: 10, idle: 4 }));
    assert_eq!(table.get("cpu1"), Some(CpuCounters { total: 15, idle: 6 }));
}

#[test]
fn a_faulty_row_is_named() {
    let error = parse_proc_stat("cpu x\ncpu0 1 2 3 four 5\n").unwrap_err();
    assert_eq!(error.row, "cpu0 1 2 3 four 5");
}

#[test]
fn sums_that_are_too_large_are_told_beforehand() {
    assert!(stat_fits("cpu0 1 2 3 4 5\n"));
    assert!(!stat_fits("cpu0 18446744073709551615 1 0 0 0\n"));
    assert!(stat_fits("cpu0 18446744073709551615 1 0 0\n"));
    assert!(stat_fits("cpu0 x\ncpu1 18446744073709551615 1 0 0 0\n"));
    let a = parse_proc_stat("cpu0 0 0 0 0 0\n").unwrap();
    let b = parse_proc_stat("cpu0 18446744073709551615 0 0 0 0\n").unwrap();
    assert!(!usage_fits(&a, &b));
    assert!(usage_fits(&b, &a));
    assert!(meminfo_fits("MemTotal: 1\nMemFree: 5\n"));
    assert!(!meminfo_fits("MemTotal: 1\nMemFree: 18446744073709551615\nCached: 1\n"));
    assert!(meminfo_fits("MemFree: 18446744073709551615\nCached: 1\n"));
}

#[test]
fn usage_is_a_percentage() {
    let reading = |text: &str| parse_proc_stat(text).unwrap();
    let a = reading("cpu0 10 0 0 10 0\ncpu1 10 0 0 10 0\ncpu2 5 5 5 5 5\ncpu4 1 1 1 1 1\n");
    let b = reading("cpu0 20 0 0 10 0\ncpu1 10 0 0 10 0\ncpu2 6 5 5 6 6\ncpu5 1 1 1 1 1\n");
    assert_eq!(
        cpu_usage(&a, &b),
        vec![("cpu0".to_owned(), 100), ("cpu1".to_owned(), 0), ("cpu2".to_owned(), 33)]
    );
}

#[test]
fn memory_needs_its_total() {
    assert_eq!(parse_meminfo("MemFree: 3 kB\n").unwrap_err(), MemoryError::MissingTotal);
    let memory = parse_meminfo("MemTotal: 1\nMemTotal: 8 kB\nMemTotal: x\nMemAvailable: y\n");
    let memory = memory.unwrap();
    assert_eq!((memory.total_kib, memory.available_kib), (8, 0));
}

#[test]
fn sizes_are_rounded_by_what_is_left_over() {
    assert_eq!(human_kib(0), "0KB");
    assert_eq!(human_kib(1023), "1023KB");
    assert_eq!(human_kib(1024 + 499), "1MB");
    assert_eq!(human_kib(1024 + 500), "2MB");
    assert_eq!(human_kib(1024 * 1024 - 1), "1024MB");
    assert_eq!(human_kib(31_457_280), "30GB");
    assert_eq!(human_kib(1 << 30), "1TB");
    assert_eq!(human_kib(u64::MAX), "16777216PB");
}

#[test]
fn mounted_devices_are_found() {
    let mounts = parse_mountinfo(
        "36 35 98:0 / /mnt/my\\040disk rw,noatime master:1 - ext4 /dev/sda1 rw\n\
         22 1 0:21 / /proc rw - proc proc rw\n\
         23 1 0:22 / /a\\134b\\011c rw - vfat /dev/mmcblk0p1 rw\n\
         24 1 0:23 / /x rw ext4 /dev/sdb1 rw\n\
         25 / - ext4 /dev/sdc1 rw\n\
         26 1 0:23 / /y rw - ext4\n",
    );
    assert_eq!(
        mounts,
        vec![
            Mount { source: "/dev/sda1".to_owned(), mount_point: "/mnt/my disk".to_owned() },
            Mount { source: "/dev/mmcblk0p1".to_owned(), mount_point: "/a\\b\tc".to_owned() },
        ]
    );
}

#[test]
fn escaped_backslashes_are_replaced_last() {
    let mounts = parse_mountinfo("1 1 0:1 / /a\\134040b rw - ext4 /dev/sda1 rw\n");
    assert_eq!(mounts[0].mount_point, "/a\\040b");
}

#[test]
fn file_systems_are_counted_in_kib() {
    let mount = || Mount { source: "/dev/sda1".to_owned(), mount_point: "/".to_owned() };
    let info = filesystem_info(mount(), 1000, 250, 4096);
    assert_eq!((info.total_kib, info.used_kib), (4000, 3000));
    assert_eq!((info.source.as_str(), info.mount_point.as_str()), ("/dev/sda1", "/"));
    let huge = filesystem_info(mount(), u64::MAX, 1, 4096);
    assert_eq!(huge.total_kib, u64::MAX / 1024);
    assert_eq!(filesystem_info(mount(), 1, 9, 1024).used_kib, 0);
}

#[test]
fn arrays_are_read_from_their_files() {
    let raid = raid_info("md0", "raid1\n", " clean\n", "2\n", "");
    assert_eq!(raid.name, "md0");
    assert_eq!(raid.level, "raid1");
    assert_eq!(raid.state, "clean");
    assert_eq!((raid.devices, raid.degraded), (2, 0));
}

#[test]
fn the_zone_of_the_processor_counts() {
    let start = CpuTemperature::Fallback(None);
    let other = start.look_at("thermal_zone0", "gpu\n", Some(single(40.0)));
    assert_eq!(other, CpuTemperature::Fallback(Some(single(40.0))));
    let second = other.look_at("thermal_zone1", "nvme", Some(single(50.0)));
    assert_eq!(second, other);
    assert_eq!(other.look_at("cooling_device0", "cpu", Some(single(9.0))), other);
    let found = other.look_at("thermal_zone2", "cpu-thermal\n", Some(single(61.5)));
    assert_eq!(found, CpuTemperature::Found(single(61.5)));
    assert_eq!(found.look_at("thermal_zone3", "cpu", None), found);
    assert_eq!(other.look_at("thermal_zone2", "cpu", None), CpuTemperature::Invalid);
    assert_eq!(
        start.look_at("thermal_zone0", "gpu", None),
        CpuTemperature::Fallback(None)
    );
}

#[test]
fn drives_are_told_by_their_sensors() {
    assert!(is_drive_sensor("drivetemp\n"));
    assert!(is_drive_sensor("nvme"));
    assert!(!is_drive_sensor("cpu_thermal"));
    assert!(is_temperature_input("temp1_input"));
    assert!(!is_temperature_input("temp1_max"));
    assert!(!is_temperature_input("in0_input"));
    assert!(!is_temperature_input("tem"));
    let first = with_temperature(None, single(31.0));
    assert_eq!(with_temperature(Some(first), single(29.0)), single(31.0));
    assert_eq!(with_temperature(Some(first), single(45.0)), single(45.0));
    assert_eq!(with_temperature(Some(single(f32::NAN)), single(45.0)), single(45.0));
}
