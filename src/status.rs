//! The battery indicator's texts, derived from the power-supply readings,
//! and the CPU counters.
use vstd::prelude::*;

use crate::tokens::{split_tokens, tokens};
use crate::text::{
    chars_of, decimal, eq_chars, parse_usize, parse_usize_exec, push_decimal, trim_end,
    trim_end_exec,
};

verus! {

/// The state a battery reports.
#[derive(PartialEq, Eq, Structural, Debug, Clone, Copy)]
pub enum BatteryStatus {
    Discharging,
    Charging,
    NotCharging,
    Error,
}

/// What the battery indicator shows.
#[derive(Debug)]
pub struct Battery {
    /// Charge left, in percent.
    pub capacity: u32,
    /// Path of the icon image.
    pub icon: String,
    /// Status line and time estimate.
    pub tooltip_text: String,
    /// The time estimate alone.
    pub remaining: String,
    pub status: BatteryStatus,
}

/// What a `Battery` holds, as plain values.
pub struct BatteryModel {
    pub capacity: u32,
    pub icon: Seq<char>,
    pub tooltip_text: Seq<char>,
    pub remaining: Seq<char>,
    pub status: BatteryStatus,
}

impl View for Battery {
    type V = BatteryModel;

    open spec fn view(&self) -> BatteryModel {
        BatteryModel {
            capacity: self.capacity,
            icon: self.icon@,
            tooltip_text: self.tooltip_text@,
            remaining: self.remaining@,
            status: self.status,
        }
    }
}

/// The status that a power-supply `status` reading names.
pub open spec fn status_of(text: Seq<char>) -> BatteryStatus {
    let t = trim_end(text);
    if t == "Charging"@ {
        BatteryStatus::Charging
    } else if t == "Discharging"@ {
        BatteryStatus::Discharging
    } else if t == "Not charging"@ {
        BatteryStatus::NotCharging
    } else {
        BatteryStatus::Error
    }
}

/// Reads a power-supply `status` reading; trailing whitespace is ignored.
pub fn get_status(text: &str) -> (r: BatteryStatus)
    ensures
        r == status_of(text@),
{
    let t = trim_end_exec(&chars_of(text));
    if eq_chars(&t, &chars_of("Charging")) {
        BatteryStatus::Charging
    } else if eq_chars(&t, &chars_of("Discharging")) {
        BatteryStatus::Discharging
    } else if eq_chars(&t, &chars_of("Not charging")) {
        BatteryStatus::NotCharging
    } else {
        BatteryStatus::Error
    }
}

/// The charge step that an icon shows for `capacity` percent, or none above 100.
pub open spec fn level_of(capacity: u32) -> Option<Seq<char>> {
    if capacity <= 10 {
        Some("000"@)
    } else if capacity <= 19 {
        Some("010"@)
    } else if capacity <= 29 {
        Some("020"@)
    } else if capacity <= 39 {
        Some("030"@)
    } else if capacity <= 49 {
        Some("040"@)
    } else if capacity <= 59 {
        Some("050"@)
    } else if capacity <= 69 {
        Some("060"@)
    } else if capacity <= 79 {
        Some("070"@)
    } else if capacity <= 89 {
        Some("080"@)
    } else if capacity <= 94 {
        Some("090"@)
    } else if capacity <= 100 {
        Some("100"@)
    } else {
        None
    }
}

pub open spec fn missing_icon() -> Seq<char> {
    "assets/status/battery-missing.svg"@
}

/// The icon path for a battery at `capacity` percent in state `status`.
pub open spec fn icon_of(capacity: u32, status: BatteryStatus) -> Seq<char> {
    match status {
        BatteryStatus::Charging => match level_of(capacity) {
            Some(l) => "assets/status/battery-"@ + l + "-charging.svg"@,
            None => missing_icon(),
        },
        BatteryStatus::Discharging => match level_of(capacity) {
            Some(l) => "assets/status/battery-"@ + l + ".svg"@,
            None => missing_icon(),
        },
        BatteryStatus::NotCharging => if 97 <= capacity <= 100 {
            "assets/status/battery-full-charging.svg"@
        } else {
            missing_icon()
        },
        BatteryStatus::Error => missing_icon(),
    }
}

fn level_exec(capacity: u32) -> (r: Option<&'static str>)
    ensures
        match r {
            Some(l) => level_of(capacity) == Some(l@),
            None => level_of(capacity) is None,
        },
{
    if capacity <= 10 {
        Some("000")
    } else if capacity <= 19 {
        Some("010")
    } else if capacity <= 29 {
        Some("020")
    } else if capacity <= 39 {
        Some("030")
    } else if capacity <= 49 {
        Some("040")
    } else if capacity <= 59 {
        Some("050")
    } else if capacity <= 69 {
        Some("060")
    } else if capacity <= 79 {
        Some("070")
    } else if capacity <= 89 {
        Some("080")
    } else if capacity <= 94 {
        Some("090")
    } else if capacity <= 100 {
        Some("100")
    } else {
        None
    }
}

/// The icon path for a battery at `capacity` percent in state `status`.
pub fn get_icon(capacity: u32, status: BatteryStatus) -> (r: String)
    ensures
        r@ == icon_of(capacity, status),
{
    match status {
        BatteryStatus::Charging => match level_exec(capacity) {
            Some(l) => {
                let mut r = "assets/status/battery-".to_owned();
                r.append(l);
                r.append("-charging.svg");
                r
            },
            None => "assets/status/battery-missing.svg".to_owned(),
        },
        BatteryStatus::Discharging => match level_exec(capacity) {
            Some(l) => {
                let mut r = "assets/status/battery-".to_owned();
                r.append(l);
                r.append(".svg");
                r
            },
            None => "assets/status/battery-missing.svg".to_owned(),
        },
        BatteryStatus::NotCharging => if 97 <= capacity && capacity <= 100 {
            "assets/status/battery-full-charging.svg".to_owned()
        } else {
            "assets/status/battery-missing.svg".to_owned()
        },
        BatteryStatus::Error => "assets/status/battery-missing.svg".to_owned(),
    }
}

/// The time estimate text: whole hours (when at least one) and minutes of
/// `charge` at `current`, followed by `suffix`.
pub open spec fn duration_text(charge: nat, current: nat, suffix: Seq<char>) -> Seq<char>
    recommends
        current > 0,
{
    let hours = charge / current;
    let minutes = (60 * (charge % current)) / current;
    if hours >= 1 {
        decimal(hours) + " hours "@ + decimal(minutes) + " minutes"@ + suffix
    } else {
        decimal(minutes) + " minutes"@ + suffix
    }
}

/// The time estimate for a battery in state `status`. Charge values are in
/// the same unit (charge per hour of `current_now`): a charging battery is
/// estimated by the charge still missing to `charge_full`, a discharging one
/// by `charge_now`. With no current flowing there is no estimate.
pub open spec fn remaining_of(
    status: BatteryStatus,
    charge_now: nat,
    current_now: nat,
    charge_full: nat,
) -> Seq<char> {
    match status {
        BatteryStatus::NotCharging => "Fully charged"@,
        BatteryStatus::Error => "Error getting state"@,
        BatteryStatus::Charging => if current_now == 0 {
            "Error getting state"@
        } else {
            duration_text(
                if charge_full >= charge_now {
                    (charge_full - charge_now) as nat
                } else {
                    0
                },
                current_now,
                " to full"@,
            )
        },
        BatteryStatus::Discharging => if current_now == 0 {
            "Error getting state"@
        } else {
            duration_text(charge_now, current_now, " remaining"@)
        },
    }
}

fn duration_exec(charge: usize, current: usize, suffix: &str) -> (r: String)
    requires
        current > 0,
    ensures
        r@ == duration_text(charge as nat, current as nat, suffix@),
{
    let hours = charge / current;
    let rest = (charge % current) as u128;
    assert(rest * 60 <= u128::MAX) by (nonlinear_arith)
        requires
            rest < current,
            current <= usize::MAX,
    ;
    let q = (rest * 60) / (current as u128);
    assert(q < 60) by (nonlinear_arith)
        requires
            rest < current,
            q == (rest * 60) / (current as int),
            current > 0,
    ;
    let minutes = q as usize;
    assert(minutes == (60 * (charge % current)) / current as int) by (nonlinear_arith)
        requires
            rest == charge % current,
            minutes == q,
            q == (rest * 60) / (current as int),
    ;
    let mut r = String::new();
    if hours >= 1 {
        push_decimal(&mut r, hours);
        r.append(" hours ");
        push_decimal(&mut r, minutes);
        r.append(" minutes");
    } else {
        push_decimal(&mut r, minutes);
        r.append(" minutes");
    }
    r.append(suffix);
    r
}

/// The time estimate for a battery in state `status`.
pub fn get_remaining(
    status: BatteryStatus,
    charge_now: usize,
    current_now: usize,
    charge_full: usize,
) -> (r: String)
    ensures
        r@ == remaining_of(status, charge_now as nat, current_now as nat, charge_full as nat),
{
    match status {
        BatteryStatus::NotCharging => "Fully charged".to_owned(),
        BatteryStatus::Error => "Error getting state".to_owned(),
        BatteryStatus::Charging => if current_now == 0 {
            "Error getting state".to_owned()
        } else {
            let missing = if charge_full >= charge_now {
                charge_full - charge_now
            } else {
                0
            };
            duration_exec(missing, current_now, " to full")
        },
        BatteryStatus::Discharging => if current_now == 0 {
            "Error getting state".to_owned()
        } else {
            duration_exec(charge_now, current_now, " remaining")
        },
    }
}

/// The status line of the battery tooltip.
pub open spec fn status_text(status: BatteryStatus) -> Seq<char> {
    match status {
        BatteryStatus::Charging => "Charging"@,
        BatteryStatus::Discharging => "Discharging"@,
        BatteryStatus::NotCharging => "Plugged in, Not Charging"@,
        BatteryStatus::Error => "Error getting state"@,
    }
}

/// The tooltip: the status line, a newline, and the time estimate.
pub fn get_battery_tooltip_text(status: BatteryStatus, remaining: &String) -> (r: String)
    ensures
        r@ == status_text(status) + "\n"@ + remaining@,
{
    let mut r = match status {
        BatteryStatus::Charging => "Charging".to_owned(),
        BatteryStatus::Discharging => "Discharging".to_owned(),
        BatteryStatus::NotCharging => "Plugged in, Not Charging".to_owned(),
        BatteryStatus::Error => "Error getting state".to_owned(),
    };
    r.append("\n");
    r.append(remaining.as_str());
    r
}

/// A power-supply reading as a number; trailing whitespace is ignored.
pub open spec fn reading_of(text: Seq<char>) -> Option<usize> {
    parse_usize(trim_end(text))
}

fn parse_reading(text: &str) -> (r: Option<usize>)
    ensures
        r == reading_of(text@),
{
    parse_usize_exec(&trim_end_exec(&chars_of(text)))
}

/// `r`'s number, or 0 when it has none.
pub open spec fn or_zero(r: Option<usize>) -> nat {
    match r {
        Some(n) => n as nat,
        None => 0,
    }
}

/// The indicator for the power-supply readings `capacity`, `status`,
/// `charge_now`, `current_now` and `charge_full`. There is none when the
/// capacity is not a percentage that fits in a `u32`, or when the estimate
/// needs a charge reading that is not a number. A current that is not a
/// number counts as no current.
pub open spec fn battery_of(
    capacity: Seq<char>,
    status: Seq<char>,
    charge_now: Seq<char>,
    current_now: Seq<char>,
    charge_full: Seq<char>,
) -> Option<BatteryModel> {
    let st = status_of(status);
    let now = reading_of(charge_now);
    let full = reading_of(charge_full);
    match reading_of(capacity) {
        Some(c) => if c > u32::MAX {
            None
        } else if (st == BatteryStatus::Charging || st == BatteryStatus::Discharging) && now is None {
            None
        } else if st == BatteryStatus::Charging && full is None {
            None
        } else {
            let remaining = remaining_of(st, or_zero(now), or_zero(reading_of(current_now)), or_zero(full));
            Some(
                BatteryModel {
                    capacity: c as u32,
                    icon: icon_of(c as u32, st),
                    tooltip_text: status_text(st) + "\n"@ + remaining,
                    remaining,
                    status: st,
                },
            )
        },
        None => None,
    }
}

/// Builds the battery indicator from the texts of the power-supply readings.
pub fn get_battery_info(
    capacity: &str,
    status: &str,
    charge_now: &str,
    current_now: &str,
    charge_full: &str,
) -> (r: Option<Battery>)
    ensures
        match r {
            Some(b) => battery_of(capacity@, status@, charge_now@, current_now@, charge_full@)
                == Some(b@),
            None => battery_of(capacity@, status@, charge_now@, current_now@, charge_full@) is None,
        },
{
    let c = match parse_reading(capacity) {
        Some(c) => c,
        None => return None,
    };
    if c > u32::MAX as usize {
        return None;
    }
    let cap = c as u32;
    let st = get_status(status);
    let active = st == BatteryStatus::Charging || st == BatteryStatus::Discharging;
    let now = parse_reading(charge_now);
    let full = parse_reading(charge_full);
    if active && now.is_none() {
        return None;
    }
    if st == BatteryStatus::Charging && full.is_none() {
        return None;
    }
    let now_v = match now {
        Some(n) => n,
        None => 0,
    };
    let full_v = match full {
        Some(n) => n,
        None => 0,
    };
    let current_v = match parse_reading(current_now) {
        Some(n) => n,
        None => 0,
    };
    let icon = get_icon(cap, st);
    let remaining = get_remaining(st, now_v, current_v, full_v);
    let tooltip_text = get_battery_tooltip_text(st, &remaining);
    Some(Battery { capacity: cap, icon, tooltip_text, remaining, status: st })
}

/// Field `k` of a `/proc/stat` CPU line as a counter: 0 when it is absent or
/// is not a number that fits in a `u32`.
pub open spec fn counter(toks: Seq<Seq<char>>, k: int) -> nat {
    if 0 <= k < toks.len() {
        match parse_usize(toks[k]) {
            Some(n) => if n <= u32::MAX {
                n as nat
            } else {
                0
            },
            None => 0,
        }
    } else {
        0
    }
}

/// Busy time of a CPU line (`cpu user nice system idle iowait irq softirq ...`):
/// user, nice, system, irq and softirq.
pub open spec fn busy_of(toks: Seq<Seq<char>>) -> nat {
    counter(toks, 1) + counter(toks, 2) + counter(toks, 3) + counter(toks, 6) + counter(toks, 7)
}

/// Idle time of a CPU line: idle and iowait.
pub open spec fn idle_of(toks: Seq<Seq<char>>) -> nat {
    counter(toks, 4) + counter(toks, 5)
}

fn counter_exec(toks: &Vec<Vec<char>>, k: usize) -> (r: u64)
    ensures
        r == counter(toks@.map_values(|t: Vec<char>| t@), k as int),
{
    let ghost view = toks@.map_values(|t: Vec<char>| t@);
    if k >= toks.len() {
        return 0;
    }
    assert(view[k as int] == toks@[k as int]@);
    match parse_usize_exec(&toks[k]) {
        Some(n) => if n <= u32::MAX as usize {
            n as u64
        } else {
            0
        },
        None => 0,
    }
}

/// The busy time and the total (busy and idle) time of the aggregate CPU line
/// of `/proc/stat`.
pub fn cpu_counters(line: &str) -> (r: (u64, u64))
    ensures
        r.0 == busy_of(tokens(line@)),
        r.1 == busy_of(tokens(line@)) + idle_of(tokens(line@)),
{
    let toks = split_tokens(line);
    let busy = counter_exec(&toks, 1) + counter_exec(&toks, 2) + counter_exec(&toks, 3)
        + counter_exec(&toks, 6) + counter_exec(&toks, 7);
    let idle = counter_exec(&toks, 4) + counter_exec(&toks, 5);
    (busy, busy + idle)
}

} // verus!
