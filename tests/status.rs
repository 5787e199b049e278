use epic_bar::status::{
    cpu_counters,
    get_battery_info, get_battery_tooltip_text, get_icon, get_remaining, get_status, BatteryStatus,
};
use epic_bar::clock::{get_datetime, DateTime, LocalTime};

#[test]
fn status_readings() {
    assert_eq!(get_status("Charging\n"), BatteryStatus::Charging);
    assert_eq!(get_status("Discharging"), BatteryStatus::Discharging);
    assert_eq!(get_status("Not charging\n"), BatteryStatus::NotCharging);
    assert_eq!(get_status("Full\n"), BatteryStatus::Error);
    assert_eq!(get_status(""), BatteryStatus::Error);
    assert_eq!(get_status(" Charging"), BatteryStatus::Error);
}

#[test]
fn icons_by_level() {
    assert_eq!(get_icon(0, BatteryStatus::Charging), "assets/status/battery-000-charging.svg");
    assert_eq!(get_icon(10, BatteryStatus::Discharging), "assets/status/battery-000.svg");
    assert_eq!(get_icon(11, BatteryStatus::Discharging), "assets/status/battery-010.svg");
    assert_eq!(get_icon(55, BatteryStatus::Charging), "assets/status/battery-050-charging.svg");
    assert_eq!(get_icon(94, BatteryStatus::Discharging), "assets/status/battery-090.svg");
    assert_eq!(get_icon(95, BatteryStatus::Discharging), "assets/status/battery-100.svg");
    assert_eq!(get_icon(100, BatteryStatus::Charging), "assets/status/battery-100-charging.svg");
    assert_eq!(get_icon(101, BatteryStatus::Charging), "assets/status/battery-missing.svg");
    assert_eq!(get_icon(97, BatteryStatus::NotCharging), "assets/status/battery-full-charging.svg");
    assert_eq!(get_icon(96, BatteryStatus::NotCharging), "assets/status/battery-missing.svg");
    assert_eq!(get_icon(50, BatteryStatus::Error), "assets/status/battery-missing.svg");
}

#[test]
fn remaining_estimates() {
    assert_eq!(get_remaining(BatteryStatus::Discharging, 3_000_000, 1_000_000, 0), "3 hours 0 minutes remaining");
    assert_eq!(get_remaining(BatteryStatus::Discharging, 2_500_000, 1_000_000, 0), "2 hours 30 minutes remaining");
    assert_eq!(get_remaining(BatteryStatus::Discharging, 250_000, 1_000_000, 0), "15 minutes remaining");
    assert_eq!(get_remaining(BatteryStatus::Charging, 4_500_000, 1_000_000, 5_000_000), "30 minutes to full");
    assert_eq!(get_remaining(BatteryStatus::Charging, 1_000_000, 2_000_000, 5_000_000), "2 hours 0 minutes to full");
    assert_eq!(get_remaining(BatteryStatus::Charging, 5_000_000, 1_000_000, 4_000_000), "0 minutes to full");
    assert_eq!(get_remaining(BatteryStatus::Discharging, 1, 0, 0), "Error getting state");
    assert_eq!(get_remaining(BatteryStatus::NotCharging, 0, 0, 0), "Fully charged");
    assert_eq!(get_remaining(BatteryStatus::Error, 0, 0, 0), "Error getting state");
    assert_eq!(
        get_remaining(BatteryStatus::Discharging, usize::MAX, usize::MAX - 1, 0),
        "1 hours 0 minutes remaining"
    );
}

#[test]
fn tooltip_texts() {
    assert_eq!(get_battery_tooltip_text(BatteryStatus::NotCharging, &"Fully charged".to_string()), "Plugged in, Not Charging\nFully charged");
    assert_eq!(get_battery_tooltip_text(BatteryStatus::Charging, &"1 minutes to full".to_string()), "Charging\n1 minutes to full");
    assert_eq!(get_battery_tooltip_text(BatteryStatus::Error, &String::new()), "Error getting state\n");
}

#[test]
fn battery_from_readings() {
    let b = get_battery_info("42\n", "Discharging\n", "2500000\n", "1000000\n", "").unwrap();
    assert_eq!(b.capacity, 42);
    assert_eq!(b.status, BatteryStatus::Discharging);
    assert_eq!(b.icon, "assets/status/battery-040.svg");
    assert_eq!(b.remaining, "2 hours 30 minutes remaining");
    assert_eq!(b.tooltip_text, "Discharging\n2 hours 30 minutes remaining");
    let full = get_battery_info("100\n", "Not charging\n", "", "", "").unwrap();
    assert_eq!(full.icon, "assets/status/battery-full-charging.svg");
    assert_eq!(full.tooltip_text, "Plugged in, Not Charging\nFully charged");
    let no_current = get_battery_info("80", "Discharging", "100", "n/a", "").unwrap();
    assert_eq!(no_current.remaining, "Error getting state");
}

#[test]
fn battery_needs_its_readings() {
    assert!(get_battery_info("", "Charging", "1", "1", "2").is_none());
    assert!(get_battery_info("4294967296", "Charging", "1", "1", "2").is_none());
    assert!(get_battery_info("50", "Charging", "1", "1", "").is_none());
    assert!(get_battery_info("50", "Discharging", "x", "1", "").is_none());
    assert!(get_battery_info("4294967295", "Unknown", "", "", "").is_some());
}

#[test]
fn clock_text() {
    let dt = DateTime { date: "2025/01/09".to_string(), time: "08:05:03".to_string() };
    assert_eq!(dt.text(), "2025/01/09\n08:05:03");
}

#[test]
fn cpu_counter_line() {
    let line = "cpu  4705 356 584 3699176 23 23 0 0 0 0";
    assert_eq!(cpu_counters(line), (4705 + 356 + 584 + 23 + 0, 4705 + 356 + 584 + 23 + 0 + 3699176 + 23));
    assert_eq!(cpu_counters("cpu 1 2 x 4 5 6 7 8"), (1 + 2 + 6 + 7, 1 + 2 + 6 + 7 + 4 + 5));
    assert_eq!(cpu_counters("cpu 4294967296 1"), (1, 1));
    assert_eq!(cpu_counters(""), (0, 0));
    assert_eq!(
        cpu_counters("cpu 4294967295 4294967295 4294967295 4294967295 4294967295 4294967295 4294967295"),
        (5 * 4294967295, 7 * 4294967295)
    );
}

#[test]
fn clock_lines() {
    let now = LocalTime { year: 2025, month: 1, day: 9, hour: 8, minute: 5, second: 3 };
    let dt = get_datetime(&now).unwrap();
    assert_eq!(dt.date, "2025/01/09");
    assert_eq!(dt.time, "08:05:03");
    let late = LocalTime { year: 999, month: 12, day: 31, hour: 23, minute: 59, second: 59 };
    let dt = get_datetime(&late).unwrap();
    assert_eq!(dt.date, "0999/12/31");
    assert_eq!(dt.time, "23:59:59");
}

#[test]
fn clock_rejects_impossible_times() {
    assert!(get_datetime(&LocalTime { year: 2023, month: 2, day: 29, hour: 0, minute: 0, second: 0 }).is_none());
    assert!(get_datetime(&LocalTime { year: 2024, month: 2, day: 29, hour: 0, minute: 0, second: 0 }).is_some());
    assert!(get_datetime(&LocalTime { year: 2024, month: 13, day: 1, hour: 0, minute: 0, second: 0 }).is_none());
    assert!(get_datetime(&LocalTime { year: 2024, month: 1, day: 1, hour: 24, minute: 0, second: 0 }).is_none());
}
