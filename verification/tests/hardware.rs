use argon40::hardware::{
    read_sequential, BlockError, FakeI2cDevice, I2cDevice, Mcu, McuError, OledDevice,
};
use argon40::oled::{DrawMode, Framebuffer};
use argon40::{MCU_ADDRESS, OLED_ADDRESS, RTC_ADDRESS};

#[test]
fn mcu_transactions_match_legacy_smbus_operations() {
    let fake = FakeI2cDevice::default();
    let mut mcu = Mcu::new(fake);
    mcu.set_fan(50).unwrap();
    mcu.request_power_cut().unwrap();
    mcu.program_ir_power_code([0, 0xff, 0x39, 0xc6]).unwrap();
    let fake = mcu.into_inner();
    assert_eq!(fake.byte_writes, vec![50, 0xff]);
    assert_eq!(fake.block_writes, vec![(0xaa, vec![0, 0xff, 0x39, 0xc6])]);
}

#[test]
fn oled_full_flush_is_32_legacy_blocks() {
    let fake = FakeI2cDevice::default();
    let mut oled = OledDevice::new(fake);
    oled.flush(&Framebuffer::new(), false).unwrap();
    let fake = oled.into_inner();
    assert_eq!(fake.block_writes.len(), 32);
    assert!(fake
        .block_writes
        .iter()
        .all(|(command, data)| *command == 0x6a && data.len() == 32));
}

#[test]
fn impossible_speeds_are_not_sent() {
    let mut mcu = Mcu::new(FakeI2cDevice::default());
    assert!(matches!(mcu.set_fan(101), Err(McuError::OutOfRange { percent: 101 })));
    mcu.set_fan(100).unwrap();
    mcu.enter_firmware_update().unwrap();
    assert_eq!(mcu.into_inner().byte_writes, vec![100, 0xbb]);
}

#[test]
fn addresses_are_those_of_the_case() {
    assert_eq!((MCU_ADDRESS, OLED_ADDRESS, RTC_ADDRESS), (0x1a, 0x3c, 0x51));
}

/// Records every transaction and fails the one with the given number.
#[derive(Default)]
struct Recorder {
    log: Vec<String>,
    fails_at: Option<usize>,
}

impl Recorder {
    fn record(&mut self, entry: String) -> Result<(), usize> {
        let number = self.log.len();
        self.log.push(entry);
        if self.fails_at == Some(number) {
            Err(number)
        } else {
            Ok(())
        }
    }
}

impl I2cDevice for Recorder {
    type Error = usize;

    fn write_byte(&mut self, value: u8) -> Result<(), usize> {
        self.record(format!("byte {value:02x}"))
    }

    fn read_byte(&mut self) -> Result<u8, usize> {
        self.record("read".to_owned()).map(|()| self.log.len() as u8)
    }

    fn write_byte_data(&mut self, register: u8, value: u8) -> Result<(), usize> {
        self.record(format!("data {register:02x}={value:02x}"))
    }

    fn read_byte_data(&mut self, register: u8) -> Result<u8, usize> {
        self.record(format!("get {register:02x}")).map(|()| 0)
    }

    fn write_block_data(&mut self, command: u8, data: &[u8]) -> Result<(), usize> {
        self.record(format!("block {command:02x} {}", data[0]))
    }
}

#[test]
fn switches_send_one_command() {
    let mut oled = OledDevice::new(Recorder::default());
    oled.power(true).unwrap();
    oled.power(false).unwrap();
    oled.inverse(true).unwrap();
    oled.inverse(false).unwrap();
    oled.all_white(true).unwrap();
    oled.all_white(false).unwrap();
    assert_eq!(
        oled.into_inner().log,
        vec!["data 00=af", "data 00=ae", "data 00=a7", "data 00=a6", "data 00=a5", "data 00=a4"]
    );
}

#[test]
fn addressing_is_reset_with_twelve_commands() {
    let mut oled = OledDevice::new(Recorder::default());
    oled.reset_addressing().unwrap();
    assert_eq!(
        oled.into_inner().log,
        ["20", "01", "21", "00", "7f", "22", "00", "07", "20", "02", "b0", "40"]
            .map(|command| format!("data 00={command}"))
            .to_vec()
    );
}

#[test]
fn a_block_names_its_columns_and_its_band() {
    let mut framebuffer = Framebuffer::new();
    framebuffer.set_pixel(96, 8, true, DrawMode::Replace);
    let mut oled = OledDevice::new(Recorder::default());
    oled.flush_block(&framebuffer, 96, 8).unwrap();
    assert_eq!(
        oled.into_inner().log,
        vec![
            "data 00=20", "data 00=01", "data 00=21", "data 00=60", "data 00=7f", "data 00=22",
            "data 00=01", "data 00=01", "data 00=40", "block 6a 1",
        ]
    );
}

#[test]
fn blocks_begin_on_their_grid() {
    let mut oled = OledDevice::new(FakeI2cDevice::default());
    let framebuffer = Framebuffer::new();
    for (x, y) in [(128, 0), (0, 64), (16, 0), (0, 4)] {
        match oled.flush_block(&framebuffer, x, y) {
            Err(BlockError::InvalidOrigin { x: bad_x, y: bad_y }) => {
                assert_eq!((bad_x, bad_y), (x, y));
            }
            other => panic!("{other:?}"),
        }
    }
    assert!(oled.into_inner().block_writes.is_empty());
}

#[test]
fn every_byte_of_the_display_is_sent_to_its_place() {
    let mut framebuffer = Framebuffer::new();
    let picture: Vec<u8> = (0..1024).map(|i| (i * 31 % 253) as u8).collect();
    framebuffer.load_background(&picture);
    let mut oled = OledDevice::new(FakeI2cDevice::default());
    oled.flush(&framebuffer, true).unwrap();
    let fake = oled.into_inner();
    for (n, (_, data)) in fake.block_writes.iter().enumerate() {
        let (x, band) = (n / 8 * 32, n % 8);
        assert_eq!(data[..], picture[128 * band + x..128 * band + x + 32]);
    }
}

#[test]
fn a_hidden_transfer_is_dark_until_it_is_complete() {
    let mut oled = OledDevice::new(Recorder::default());
    oled.flush(&Framebuffer::new(), true).unwrap();
    let log = oled.into_inner().log;
    assert_eq!(log.len(), 322);
    assert_eq!(log[0], "data 00=ae");
    assert_eq!(log[321], "data 00=af");
}

#[test]
fn a_transfer_stops_at_the_first_failure() {
    let mut oled = OledDevice::new(Recorder { fails_at: Some(25), ..Recorder::default() });
    assert_eq!(oled.flush(&Framebuffer::new(), true), Err(25));
    assert_eq!(oled.into_inner().log.len(), 26);
}

#[test]
fn sequential_reads_set_the_pointer_first() {
    let mut fake = FakeI2cDevice::default().with_register(254, 7).with_register(255, 8);
    assert_eq!(read_sequential(&mut fake, 254, 3), Ok(vec![7, 8, 0]));
    assert_eq!(fake.byte_writes, vec![254]);
    let mut failing = Recorder { fails_at: Some(2), ..Recorder::default() };
    assert_eq!(read_sequential(&mut failing, 9, 4), Err(2));
    assert_eq!(failing.log, vec!["byte 09", "read", "read"]);
}
