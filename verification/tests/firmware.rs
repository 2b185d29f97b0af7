use argon40::clock::Duration;
use argon40::firmware::{
    build_packets, check_image_size, enter_bootloader, packet_checksum, read_word, validate_ack,
    write_word, AckError, AckFault, BootloaderError, FlashSession, FlashStep, ImageError,
    MAX_FIRMWARE_SIZE, PACKET_SIZE,
};
use argon40::hardware::{FakeI2cDevice, I2cDevice, Mcu};
use std::cell::RefCell;

#[test]
fn first_packet_has_exact_legacy_header_and_payload() {
    let firmware = (0_u8..100).collect::<Vec<_>>();
    let packets = build_packets(&firmware).unwrap();
    assert_eq!(packets[0].id, 1);
    assert_eq!(read_word(&packets[0].bytes, 0), 0xa0);
    assert_eq!(read_word(&packets[0].bytes, 4), 1);
    assert_eq!(read_word(&packets[0].bytes, 12), 100);
    assert_eq!(&packets[0].bytes[16..], &firmware[..48]);
    assert_eq!(packets[1].id, 3);
    assert_eq!(read_word(&packets[1].bytes, 4), 3);
    assert_eq!(&packets[1].bytes[8..60], &firmware[48..]);
}

#[test]
fn ack_validation_fails_closed() {
    let packet = build_packets(&[1, 2, 3]).unwrap().remove(0);
    let mut ack = [0_u8; PACKET_SIZE];
    write_word(&mut ack, 0, packet.checksum);
    write_word(&mut ack, 4, packet.expected_ack_id);
    validate_ack(&packet, &ack).unwrap();
    ack[0] ^= 1;
    assert!(validate_ack(&packet, &ack).is_err());
}

#[test]
fn rejects_empty_and_excessive_images() {
    assert!(build_packets(&[]).is_err());
    assert!(build_packets(&vec![0; MAX_FIRMWARE_SIZE + 1]).is_err());
}

#[test]
fn images_that_cannot_be_sent_are_named() {
    assert_eq!(build_packets(&[]).unwrap_err(), ImageError::Empty);
    assert_eq!(
        build_packets(&vec![0; MAX_FIRMWARE_SIZE + 1]).unwrap_err(),
        ImageError::TooLarge { length: MAX_FIRMWARE_SIZE + 1 }
    );
    assert!(!check_image_size(0));
    assert!(check_image_size(1));
    assert!(check_image_size(16 * 1024 * 1024));
    assert!(!check_image_size(16 * 1024 * 1024 + 1));
}

#[test]
fn payloads_put_together_are_the_image() {
    for length in [1_usize, 47, 48, 49, 104, 105, 1000] {
        let image: Vec<u8> = (0..length).map(|i| (i * 7 % 251) as u8).collect();
        let packets = build_packets(&image).unwrap();
        let mut joined: Vec<u8> = Vec::new();
        for (n, packet) in packets.iter().enumerate() {
            assert_eq!(packet.id as usize, 2 * n + 1);
            assert_eq!(packet.expected_ack_id, packet.id + 1);
            assert_eq!(packet.checksum, packet.bytes.iter().map(|b| *b as u32).sum::<u32>());
            joined.extend_from_slice(&packet.bytes[if n == 0 { 16 } else { 8 }..]);
        }
        assert!(joined[length..].iter().all(|byte| *byte == 0));
        assert!(joined.len() - length < 56);
        joined.truncate(length);
        assert_eq!(joined, image);
    }
}

#[test]
fn refused_acknowledgements_say_why() {
    let packet = build_packets(&[9]).unwrap().remove(0);
    assert_eq!(packet.checksum, 0xa0 + 1 + 1 + 9);
    assert_eq!(validate_ack(&packet, &[0; 63]).unwrap_err(), AckError::Length { length: 63 });
    let mut ack = [0_u8; PACKET_SIZE];
    write_word(&mut ack, 0, 0x0102_0304);
    assert_eq!(
        validate_ack(&packet, &ack).unwrap_err(),
        AckError::Checksum { packet: 1, sent: 171, received: 0x0102_0304 }
    );
    write_word(&mut ack, 0, 171);
    write_word(&mut ack, 4, 1);
    assert_eq!(
        validate_ack(&packet, &ack).unwrap_err(),
        AckError::Id { packet: 1, expected: 2, received: 1 }
    );
}

#[test]
fn words_are_little_endian() {
    let mut packet = [0_u8; PACKET_SIZE];
    write_word(&mut packet, 60, 0xfedc_ba98);
    assert_eq!(&packet[60..], &[0x98, 0xba, 0xdc, 0xfe]);
    assert_eq!(read_word(&packet, 60), 0xfedc_ba98);
    assert_eq!(packet_checksum(&packet), 0x98 + 0xba + 0xdc + 0xfe);
}

fn acknowledgement(session: &FlashSession) -> [u8; PACKET_SIZE] {
    let packet = session.packet().unwrap();
    let mut ack = [0_u8; PACKET_SIZE];
    write_word(&mut ack, 0, packet.checksum);
    write_word(&mut ack, 4, packet.expected_ack_id);
    ack
}

#[test]
fn transmission_moves_on_with_each_acknowledgement() {
    let mut session = FlashSession::new(&[5; 100], 2).unwrap();
    let mut ids = Vec::new();
    while let Some(packet) = session.packet() {
        ids.push(packet.id);
        let ack = acknowledgement(&session);
        assert_eq!(session.answer(Some(&ack)), FlashStep::Acknowledged);
    }
    assert_eq!(ids, vec![1, 3]);
}

#[test]
fn transmission_gives_up_after_the_retries() {
    let mut session = FlashSession::new(&[5; 10], 2).unwrap();
    assert_eq!(
        session.answer(None),
        FlashStep::Retry { attempt: 1, fault: AckFault::Unread }
    );
    let refused = AckFault::Refused(AckError::Length { length: 0 });
    assert_eq!(
        session.answer(Some(&[])),
        FlashStep::Retry { attempt: 2, fault: refused }
    );
    assert_eq!(
        session.answer(None),
        FlashStep::Failed { attempt: 3, fault: AckFault::Unread }
    );
    assert_eq!(session.packet().unwrap().id, 1);
    let mut once = FlashSession::new(&[5; 10], 0).unwrap();
    assert!(matches!(once.answer(None), FlashStep::Failed { attempt: 1, .. }));
}

#[test]
fn retries_count_for_each_packet() {
    let mut session = FlashSession::new(&[5; 60], 1).unwrap();
    assert!(matches!(session.answer(None), FlashStep::Retry { .. }));
    let ack = acknowledgement(&session);
    assert_eq!(session.answer(Some(&ack)), FlashStep::Acknowledged);
    assert!(matches!(session.answer(None), FlashStep::Retry { attempt: 1, .. }));
    let ack = acknowledgement(&session);
    assert_eq!(session.answer(Some(&ack)), FlashStep::Acknowledged);
    assert!(session.packet().is_none());
}

struct Leaving {
    answers: usize,
    inner: FakeI2cDevice,
}

impl I2cDevice for Leaving {
    type Error = ();

    fn write_byte(&mut self, value: u8) -> Result<(), ()> {
        if self.inner.byte_writes.len() == self.answers {
            return Err(());
        }
        self.inner.write_byte(value)
    }

    fn read_byte(&mut self) -> Result<u8, ()> {
        Err(())
    }

    fn write_byte_data(&mut self, _register: u8, _value: u8) -> Result<(), ()> {
        Err(())
    }

    fn read_byte_data(&mut self, _register: u8) -> Result<u8, ()> {
        Err(())
    }

    fn write_block_data(&mut self, _command: u8, _data: &[u8]) -> Result<(), ()> {
        Err(())
    }
}

fn knock(answers: usize) -> (Result<(), BootloaderError<()>>, Vec<u8>, usize) {
    let sleeps = RefCell::new(0);
    let mut mcu = Mcu::new(Leaving { answers, inner: FakeI2cDevice::default() });
    let result = enter_bootloader(&mut mcu, |duration: Duration, _| {
        assert_eq!(duration, Duration::from_secs(1));
        *sleeps.borrow_mut() += 1;
    });
    let writes = mcu.into_inner().inner.byte_writes;
    let count = *sleeps.borrow();
    (result, writes, count)
}

#[test]
fn the_controller_has_to_leave_the_bus() {
    let (result, writes, sleeps) = knock(2);
    assert!(result.is_ok());
    assert_eq!((writes, sleeps), (vec![0xbb, 0xbb], 2));
    let (result, writes, sleeps) = knock(0);
    assert!(matches!(result, Err(BootloaderError::Bus(()))));
    assert_eq!((writes, sleeps), (vec![], 0));
    let (result, writes, sleeps) = knock(100);
    assert!(matches!(result, Err(BootloaderError::StillAnswers)));
    assert_eq!((writes, sleeps), (vec![0xbb; 4], 3));
}
