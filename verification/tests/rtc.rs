use argon40::calendar::DateTime;
use argon40::hardware::{FakeI2cDevice, I2cDevice};
use argon40::rtc::{
    bcd_to_decimal, decimal_to_bcd, decode_time, encode_time, Pcf8563, RtcError, RtcTimeError,
    ALARM_DAY, ALARM_FLAG, ALARM_HOUR, ALARM_MINUTE, ALARM_WEEKDAY, CONTROL_STATUS_2, TIMER_CONTROL,
    TIMER_FLAG, TIMER_VALUE, TIME_START,
};

fn time(year: i32, month: u32, day: u32, hour: u32, minute: u32, second: u32) -> DateTime {
    DateTime::new(year, month, day, hour, minute, second).unwrap()
}

#[test]
fn bcd_round_trip() {
    for value in 0..=99 {
        assert_eq!(bcd_to_decimal(decimal_to_bcd(value)), value);
    }
}

#[test]
fn rtc_register_round_trip_and_weekday() {
    let time = time(2028, 2, 29, 23, 59, 58);
    let encoded = encode_time(time).unwrap();
    assert_eq!(encoded, [0x58, 0x59, 0x23, 0x29, 0x02, 0x02, 0x28]);
    assert_eq!(decode_time(encoded).unwrap(), time);
}

#[test]
fn rejects_impossible_register_values() {
    assert!(decode_time([0, 0, 0, 0x31, 0, 0x02, 0x26]).is_err());
}

#[test]
fn alarm_writes_exact_legacy_registers() {
    let fake = FakeI2cDevice::default().with_register(CONTROL_STATUS_2, 0x18);
    let mut rtc = Pcf8563::new(fake);
    let alarm = time(2026, 8, 16, 7, 30, 0);
    rtc.set_alarm_utc(alarm, true, true).unwrap();
    let fake = rtc.into_inner();
    assert_eq!(fake.register(ALARM_MINUTE), 0x30);
    assert_eq!(fake.register(ALARM_HOUR), 0x07);
    assert_eq!(fake.register(ALARM_DAY), 0x16);
    assert_eq!(fake.register(ALARM_WEEKDAY), 0x00);
    assert_eq!(fake.register(CONTROL_STATUS_2), 0x02);
}

#[test]
fn daily_and_weekly_alarm_masks_match_legacy_registers() {
    let alarm = time(2026, 8, 16, 7, 30, 0);
    let mut daily = Pcf8563::new(FakeI2cDevice::default());
    daily.set_alarm_utc(alarm, false, false).unwrap();
    let daily = daily.into_inner();
    assert_eq!(daily.register(ALARM_DAY), 0x80);
    assert_eq!(daily.register(ALARM_WEEKDAY), 0x80);

    let mut weekly = Pcf8563::new(FakeI2cDevice::default());
    weekly.set_alarm_utc(alarm, false, true).unwrap();
    let weekly = weekly.into_inner();
    assert_eq!(weekly.register(ALARM_DAY), 0x80);
    assert_eq!(weekly.register(ALARM_WEEKDAY), 0x00);
}

#[test]
fn clearing_alarm_clears_ti_tp_aie_and_flag() {
    let fake = FakeI2cDevice::default().with_register(CONTROL_STATUS_2, 0xff);
    let mut rtc = Pcf8563::new(fake);
    rtc.clear_alarm().unwrap();
    let fake = rtc.into_inner();
    assert_eq!(fake.register(CONTROL_STATUS_2), 0xe5);
    for register in ALARM_MINUTE..=ALARM_WEEKDAY {
        assert_eq!(fake.register(register), 0x80);
    }
}

#[test]
fn timer_transactions_match_legacy() {
    let fake = FakeI2cDevice::default().with_register(CONTROL_STATUS_2, 0xff);
    let mut rtc = Pcf8563::new(fake);
    rtc.set_timer_interval(30, true).unwrap();
    let fake = rtc.into_inner();
    assert_eq!(fake.register(CONTROL_STATUS_2), 0xeb);
    assert_eq!(fake.register(TIMER_CONTROL), 0x82);
    assert_eq!(fake.register(TIMER_VALUE), 0x30);

    let mut rtc = Pcf8563::new(fake);
    rtc.clear_timer().unwrap();
    let fake = rtc.into_inner();
    assert_eq!(fake.register(CONTROL_STATUS_2), 0xea);
    assert_eq!(fake.register(TIMER_CONTROL), 0x03);
    assert_eq!(fake.register(TIMER_VALUE), 0x00);
}

#[test]
fn decimal_digits_above_ninety_nine() {
    assert_eq!(decimal_to_bcd(100), 0xa0);
    assert_eq!(decimal_to_bcd(159), 0xf9);
    assert_eq!(decimal_to_bcd(160), 0x00);
    assert_eq!(decimal_to_bcd(255), 0x95);
    assert_eq!(bcd_to_decimal(0xff), 165);
    let mut rtc = Pcf8563::new(FakeI2cDevice::default());
    rtc.set_timer_interval(255, false).unwrap();
    let fake = rtc.into_inner();
    assert_eq!(fake.register(TIMER_VALUE), 0x95);
    assert_eq!(fake.register(TIMER_CONTROL), 0x83);
}

#[test]
fn a_timer_needs_a_length() {
    let mut rtc = Pcf8563::new(FakeI2cDevice::default().with_register(CONTROL_STATUS_2, 0xff));
    assert!(matches!(rtc.set_timer_interval(0, true), Err(RtcError::ZeroInterval)));
    assert_eq!(rtc.into_inner().register(CONTROL_STATUS_2), 0xff);
}

#[test]
fn impossible_times_are_named() {
    assert_eq!(
        decode_time([0, 0, 0, 0x31, 0, 0x02, 0x26]).unwrap_err(),
        RtcTimeError::InvalidDate { year: 2026, month: 2, day: 31 }
    );
    assert_eq!(
        decode_time([0x7f, 0, 0x24, 0x01, 0, 0x01, 0x26]).unwrap_err(),
        RtcTimeError::InvalidTime { hour: 24, minute: 0, second: 85 }
    );
    for year in [1999, 2100] {
        assert_eq!(
            encode_time(time(year, 1, 1, 0, 0, 0)).unwrap_err(),
            RtcTimeError::YearOutOfRange { year }
        );
    }
}

#[test]
fn unused_register_bits_say_nothing() {
    assert_eq!(
        decode_time([0xd8, 0xd9, 0xe3, 0xe9, 0xff, 0xe2, 0x28]).unwrap(),
        time(2028, 2, 29, 23, 59, 58)
    );
}

#[test]
fn a_written_time_is_read_back() {
    let mut rtc = Pcf8563::new(FakeI2cDevice::default());
    for written in [time(2000, 1, 1, 0, 0, 0), time(2099, 12, 31, 23, 59, 59)] {
        rtc.write_utc(written).unwrap();
        assert_eq!(rtc.read_utc().unwrap(), written);
    }
    assert!(matches!(
        rtc.write_utc(time(2100, 1, 1, 0, 0, 0)),
        Err(RtcError::Time(RtcTimeError::YearOutOfRange { year: 2100 }))
    ));
    let fake = rtc.into_inner();
    assert_eq!(fake.register(TIME_START + 6), 0x99);
    assert_eq!(fake.byte_writes, vec![TIME_START, TIME_START]);
}

#[test]
fn event_flags_are_cleared_alone() {
    let mut rtc = Pcf8563::new(FakeI2cDevice::default().with_register(CONTROL_STATUS_2, 0xff));
    rtc.clear_event_flags().unwrap();
    assert_eq!(
        rtc.into_inner().register(CONTROL_STATUS_2),
        0xff & !(ALARM_FLAG | TIMER_FLAG)
    );
}

#[test]
fn a_clock_without_a_date_is_reported() {
    let mut rtc = Pcf8563::new(FakeI2cDevice::default());
    assert!(matches!(
        rtc.read_utc(),
        Err(RtcError::Time(RtcTimeError::InvalidDate { year: 2000, month: 0, day: 0 }))
    ));
}

struct Mute;

impl I2cDevice for Mute {
    type Error = &'static str;

    fn write_byte(&mut self, _value: u8) -> Result<(), &'static str> {
        Err("write")
    }

    fn read_byte(&mut self) -> Result<u8, &'static str> {
        Err("read")
    }

    fn write_byte_data(&mut self, _register: u8, _value: u8) -> Result<(), &'static str> {
        Err("write data")
    }

    fn read_byte_data(&mut self, _register: u8) -> Result<u8, &'static str> {
        Err("read data")
    }

    fn write_block_data(&mut self, _command: u8, _data: &[u8]) -> Result<(), &'static str> {
        Err("write block")
    }
}

#[test]
fn bus_failures_are_passed_on() {
    let mut rtc = Pcf8563::new(Mute);
    let now = time(2026, 1, 1, 0, 0, 0);
    assert!(matches!(rtc.read_utc(), Err(RtcError::Bus("write"))));
    assert!(matches!(rtc.write_utc(now), Err(RtcError::Bus("write data"))));
    assert_eq!(rtc.clear_event_flags(), Err("read data"));
    assert_eq!(rtc.clear_alarm(), Err("write data"));
    assert_eq!(rtc.clear_timer(), Err("read data"));
    assert!(matches!(rtc.set_timer_interval(1, true), Err(RtcError::Bus("read data"))));
    assert_eq!(rtc.set_alarm_utc(now, true, true), Err("write data"));
}
