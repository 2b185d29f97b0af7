//! Services for Argon40 cases and HATs: fan policy, power button, OLED pages, RTC and schedules.
pub mod text;
pub mod oled;
pub mod calendar;
pub mod schedule;
pub mod config;
pub mod clock;
pub mod single;
pub mod outcome;
pub mod button;
pub mod hardware;
pub mod fan;
pub mod rtc;
pub mod firmware;
pub mod system_info;
pub mod pages;
pub mod daemon;
pub mod shutdown;
pub mod ctl;
pub mod ir;

use vstd::prelude::*;

verus! {

/// The case controller on the I2C bus.
pub const MCU_ADDRESS: u16 = 0x1a;

/// The OLED on the I2C bus.
pub const OLED_ADDRESS: u16 = 0x3c;

/// The real-time clock on the I2C bus.
pub const RTC_ADDRESS: u16 = 0x51;

} // verus!
