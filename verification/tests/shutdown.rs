use argon40::hardware::{FakeI2cDevice, I2cDevice, Mcu, McuError, OledDevice};
use argon40::rtc::{Pcf8563, CONTROL_STATUS_2};
use argon40::shutdown::{cuts_power, CaseDevices};

fn devices() -> CaseDevices<FakeI2cDevice> {
    CaseDevices {
        mcu: Mcu::new(FakeI2cDevice::default()),
        oled: Some(OledDevice::new(FakeI2cDevice::default())),
        rtc: Some(Pcf8563::new(
            FakeI2cDevice::default().with_register(CONTROL_STATUS_2, 0xff),
        )),
    }
}

#[test]
fn a_reboot_keeps_the_power() {
    let mut case = devices();
    let stopped = case.stop_fan().unwrap();
    let (dark, oled_error) = case.darken(stopped);
    let (due, rtc_error) = case.quiet_clock(dark, "reboot");
    assert!(due.is_none() && oled_error.is_none() && rtc_error.is_none());
    assert_eq!(case.mcu.into_inner().byte_writes, vec![0]);
    let oled = case.oled.unwrap().into_inner();
    assert_eq!(oled.block_writes.len(), 32);
    assert_eq!(oled.register(0), 0xae);
    assert_eq!(case.rtc.unwrap().into_inner().register(CONTROL_STATUS_2), 0xff);
}

#[test]
fn a_poweroff_and_a_halt_cut_the_power() {
    for action in ["poweroff", "halt"] {
        let mut case = devices();
        let stopped = case.stop_fan().unwrap();
        let (dark, oled_error) = case.darken(stopped);
        let (due, rtc_error) = case.quiet_clock(dark, action);
        assert!(oled_error.is_none() && rtc_error.is_none());
        case.cut_power(due.unwrap()).unwrap();
        assert_eq!(case.mcu.into_inner().byte_writes, vec![0, 0xff]);
        assert_eq!(case.oled.unwrap().into_inner().register(0), 0xae);
        assert_eq!(case.rtc.unwrap().into_inner().register(CONTROL_STATUS_2), 0xf3);
    }
    assert!(!cuts_power("reboot") && !cuts_power("kexec") && !cuts_power(""));
}

#[test]
fn the_display_and_the_clock_may_be_missing() {
    let mut case = CaseDevices { oled: None, rtc: None, ..devices() };
    let stopped = case.stop_fan().unwrap();
    let (dark, oled_error) = case.darken(stopped);
    let (due, rtc_error) = case.quiet_clock(dark, "poweroff");
    assert!(oled_error.is_none() && rtc_error.is_none());
    case.cut_power(due.unwrap()).unwrap();
    assert_eq!(case.mcu.into_inner().byte_writes, vec![0, 0xff]);
}

struct Failing(u8);

impl I2cDevice for Failing {
    type Error = u8;

    fn write_byte(&mut self, value: u8) -> Result<(), u8> {
        if value == self.0 {
            Err(value)
        } else {
            Ok(())
        }
    }

    fn read_byte(&mut self) -> Result<u8, u8> {
        Err(1)
    }

    fn write_byte_data(&mut self, _register: u8, _value: u8) -> Result<(), u8> {
        Err(2)
    }

    fn read_byte_data(&mut self, _register: u8) -> Result<u8, u8> {
        Err(3)
    }

    fn write_block_data(&mut self, _command: u8, _data: &[u8]) -> Result<(), u8> {
        Err(4)
    }
}

#[test]
fn failures_of_the_rest_do_not_keep_the_power() {
    let mut case = CaseDevices {
        mcu: Mcu::new(Failing(9)),
        oled: Some(OledDevice::new(Failing(9))),
        rtc: Some(Pcf8563::new(Failing(9))),
    };
    let stopped = case.stop_fan().unwrap();
    let (dark, oled_error) = case.darken(stopped);
    let (due, rtc_error) = case.quiet_clock(dark, "halt");
    assert_eq!((oled_error, rtc_error), (Some(2), Some(3)));
    assert!(case.cut_power(due.unwrap()).is_ok());
}

#[test]
fn a_fan_that_does_not_stop_ends_the_shutdown() {
    let mut case = CaseDevices { mcu: Mcu::new(Failing(0)), oled: None, rtc: None };
    assert!(matches!(case.stop_fan(), Err(McuError::Bus(0))));
    let mut case = CaseDevices { mcu: Mcu::new(Failing(0xff)), oled: None, rtc: None };
    let stopped = case.stop_fan().unwrap();
    let (dark, _) = case.darken(stopped);
    let (due, _) = case.quiet_clock(dark, "poweroff");
    assert_eq!(case.cut_power(due.unwrap()), Err(0xff));
}
