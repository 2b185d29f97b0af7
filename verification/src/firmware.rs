//! Firmware for the case controller: how an image is cut into packets, what an acknowledgement
//! has to say, and when a packet is sent again.
use crate::clock::Duration;
use crate::hardware::{lemma_more_steps, lemma_one_step, steps, Event, I2cDevice, Mcu};
use vstd::prelude::*;

verus! {

pub const PACKET_SIZE: usize = 64;

/// Where the image begins in the first packet.
pub const FIRST_PAYLOAD_OFFSET: usize = 16;

/// Where the image goes on in the other packets.
pub const PAYLOAD_OFFSET: usize = 8;

pub const MAX_FIRMWARE_SIZE: usize = 16 * 1024 * 1024;

/// A packet, and what its acknowledgement has to say.
#[derive(Debug, Clone, PartialEq, Eq)]
pub struct FirmwarePacket {
    pub id: u32,
    pub expected_ack_id: u32,
    pub checksum: u32,
    pub bytes: [u8; PACKET_SIZE],
}

/// Why an image cannot be sent.
#[derive(Debug, Clone, Copy, PartialEq, Eq, Structural)]
pub enum ImageError {
    Empty,
    TooLarge { length: usize },
}

/// Why an acknowledgement is refused.
#[derive(Debug, Clone, Copy, PartialEq, Eq, Structural)]
pub enum AckError {
    Length { length: usize },
    Checksum { packet: u32, sent: u32, received: u32 },
    Id { packet: u32, expected: u32, received: u32 },
}

/// The bytes of a word, the lowest first.
pub open spec fn word_bytes(word: u32) -> Seq<u8> {
    seq![
        (word % 0x100) as u8,
        (word / 0x100 % 0x100) as u8,
        (word / 0x1_0000 % 0x100) as u8,
        (word / 0x100_0000) as u8,
    ]
}

/// The word whose bytes stand at `offset`.
pub open spec fn word_at(bytes: Seq<u8>, offset: int) -> u32 {
    (bytes[offset] + bytes[offset + 1] * 0x100 + bytes[offset + 2] * 0x1_0000 + bytes[offset + 3]
        * 0x100_0000) as u32
}

/// A word comes back out of its bytes.
pub proof fn law_word_round_trip(word: u32)
    ensures
        word_at(word_bytes(word), 0) == word,
{
}

/// The bytes with those at `offset` and behind it replaced.
pub open spec fn overwritten(bytes: Seq<u8>, offset: int, part: Seq<u8>) -> Seq<u8> {
    bytes.take(offset) + part + bytes.skip(offset + part.len())
}

/// The sum of the bytes.
pub open spec fn byte_sum(bytes: Seq<u8>) -> nat
    decreases bytes.len(),
{
    if bytes.len() == 0 {
        0
    } else {
        byte_sum(bytes.drop_last()) + bytes.last() as nat
    }
}

/// How much of the image is in the packets before the `n`-th.
pub open spec fn payload_start(n: int) -> int {
    if n <= 0 {
        0
    } else {
        (PACKET_SIZE - FIRST_PAYLOAD_OFFSET) + (n - 1) * (PACKET_SIZE - PAYLOAD_OFFSET)
    }
}

/// The part of the image in the `n`-th packet.
pub open spec fn payload(image: Seq<u8>, n: int) -> Seq<u8> {
    let end = if payload_start(n + 1) <= image.len() {
        payload_start(n + 1)
    } else {
        image.len() as int
    };
    image.subrange(payload_start(n), end)
}

/// How many packets an image takes.
pub open spec fn packet_count(length: int) -> int {
    if length <= payload_start(1) {
        1
    } else {
        1 + (length - payload_start(1) + (PACKET_SIZE - PAYLOAD_OFFSET) - 1) / (PACKET_SIZE
            - PAYLOAD_OFFSET)
    }
}

/// What comes before the image in the `n`-th packet. The identifiers are odd; only the first
/// packet tells what is to be done and how long the image is.
pub open spec fn header(length: int, n: int) -> Seq<u8> {
    if n == 0 {
        word_bytes(0xa0) + word_bytes(1) + word_bytes(0) + word_bytes(length as u32)
    } else {
        word_bytes(0) + word_bytes((2 * n + 1) as u32)
    }
}

/// The bytes of the `n`-th packet: the header, the part of the image, and zeros.
pub open spec fn packet_bytes(image: Seq<u8>, n: int) -> Seq<u8> {
    let used = header(image.len() as int, n) + payload(image, n);
    used + Seq::new((PACKET_SIZE - used.len()) as nat, |i: int| 0u8)
}

/// Whether `packet` is the `n`-th packet of the image.
pub open spec fn is_packet(packet: FirmwarePacket, image: Seq<u8>, n: int) -> bool {
    &&& packet.id == 2 * n + 1
    &&& packet.expected_ack_id == packet.id + 1
    &&& packet.bytes@ == packet_bytes(image, n)
    &&& packet.checksum == byte_sum(packet.bytes@)
}

/// Whether `packets` are the packets of the image.
pub open spec fn are_packets(packets: Seq<FirmwarePacket>, image: Seq<u8>) -> bool {
    &&& packets.len() == packet_count(image.len() as int)
    &&& forall|n: int| 0 <= n < packets.len() ==> is_packet(#[trigger] packets[n], image, n)
}

/// Writes a word into a packet.
pub fn write_word(packet: &mut [u8; PACKET_SIZE], offset: usize, word: u32)
    requires
        offset + 4 <= PACKET_SIZE,
    ensures
        final(packet)@ == overwritten(old(packet)@, offset as int, word_bytes(word)),
{
    let ghost before = packet@;
    packet[offset] = (word % 0x100) as u8;
    packet[offset + 1] = (word / 0x100 % 0x100) as u8;
    packet[offset + 2] = (word / 0x1_0000 % 0x100) as u8;
    packet[offset + 3] = (word / 0x100_0000) as u8;
    assert(packet@ =~= overwritten(before, offset as int, word_bytes(word)));
}

/// Reads a word from a packet.
pub fn read_word(packet: &[u8], offset: usize) -> (r: u32)
    requires
        offset + 4 <= packet@.len(),
    ensures
        r == word_at(packet@, offset as int),
{
    packet[offset] as u32 + packet[offset + 1] as u32 * 0x100 + packet[offset + 2] as u32
        * 0x1_0000 + packet[offset + 3] as u32 * 0x100_0000
}

proof fn lemma_byte_sum_prefix(bytes: Seq<u8>, n: int)
    requires
        0 <= n <= bytes.len(),
    ensures
        byte_sum(bytes.take(n)) <= byte_sum(bytes),
    decreases bytes.len(),
{
    if n == bytes.len() {
        assert(bytes.take(n) =~= bytes);
    } else {
        assert(bytes.drop_last().take(n) =~= bytes.take(n));
        lemma_byte_sum_prefix(bytes.drop_last(), n);
    }
}

proof fn lemma_byte_sum_bound(bytes: Seq<u8>)
    ensures
        byte_sum(bytes) <= 255 * bytes.len(),
    decreases bytes.len(),
{
    if bytes.len() > 0 {
        lemma_byte_sum_bound(bytes.drop_last());
    }
}

/// The sum of the bytes of a packet.
pub fn packet_checksum(packet: &[u8]) -> (r: u32)
    requires
        byte_sum(packet@) <= u32::MAX,
    ensures
        r == byte_sum(packet@),
{
    let mut sum: u32 = 0;
    let mut i: usize = 0;
    assert(packet@.take(0) =~= Seq::empty());
    while i < packet.len()
        invariant
            byte_sum(packet@) <= u32::MAX,
            i <= packet@.len(),
            sum == byte_sum(packet@.take(i as int)),
        decreases packet@.len() - i,
    {
        proof {
            assert(packet@.take(i + 1).drop_last() =~= packet@.take(i as int));
            lemma_byte_sum_prefix(packet@, i + 1);
        }
        sum += packet[i] as u32;
        i += 1;
    }
    assert(packet@.take(i as int) =~= packet@);
    sum
}

/// The packet of the image that begins at `offset`.
fn build_packet(firmware: &[u8], id: u32, offset: usize, Ghost(n): Ghost<int>) -> (r: FirmwarePacket)
    requires
        0 <= n < 0x10_0000,
        id == 2 * n + 1,
        offset == payload_start(n),
        offset < firmware@.len() <= MAX_FIRMWARE_SIZE,
    ensures
        is_packet(r, firmware@, n),
{
    let mut bytes: [u8; PACKET_SIZE] = [0;PACKET_SIZE];
    let ghost zeros = bytes@;
    let first = id == 1;
    if first {
        write_word(&mut bytes, 0, 0xa0);
        write_word(&mut bytes, 12, firmware.len() as u32);
    }
    write_word(&mut bytes, 4, id);
    let payload_offset = if first {
        FIRST_PAYLOAD_OFFSET
    } else {
        PAYLOAD_OFFSET
    };
    let ghost head = header(firmware@.len() as int, n);
    assert(head.len() == payload_offset);
    assert(bytes@ =~= head + zeros.skip(payload_offset as int));
    let rest = firmware.len() - offset;
    let count = if PACKET_SIZE - payload_offset < rest {
        PACKET_SIZE - payload_offset
    } else {
        rest
    };
    let ghost part = payload(firmware@, n);
    assert(part =~= firmware@.subrange(offset as int, offset + count));
    let mut i: usize = 0;
    while i < count
        invariant
            i <= count,
            count <= PACKET_SIZE - payload_offset,
            offset + count <= firmware@.len() <= MAX_FIRMWARE_SIZE,
            payload_offset == head.len(),
            head.len() <= PACKET_SIZE,
            part == firmware@.subrange(offset as int, offset + count),
            zeros == Seq::new(PACKET_SIZE as nat, |i: int| 0u8),
            bytes@ == head + part.take(i as int) + zeros.skip(payload_offset + i),
        decreases count - i,
    {
        bytes[payload_offset + i] = firmware[offset + i];
        assert(bytes@ =~= head + part.take(i + 1) + zeros.skip(payload_offset + i + 1));
        i += 1;
    }
    assert(part.take(i as int) =~= part);
    assert(bytes@ =~= packet_bytes(firmware@, n));
    proof {
        lemma_byte_sum_bound(bytes@);
    }
    let checksum = packet_checksum(bytes.as_slice());
    FirmwarePacket { id, expected_ack_id: id + 1, checksum, bytes }
}

/// Cuts an image into packets.
pub fn build_packets(firmware: &[u8]) -> (r: Result<Vec<FirmwarePacket>, ImageError>)
    ensures
        match r {
            Ok(packets) => 0 < firmware@.len() <= MAX_FIRMWARE_SIZE && are_packets(
                packets@,
                firmware@,
            ),
            Err(ImageError::Empty) => firmware@.len() == 0,
            Err(ImageError::TooLarge { length }) => length == firmware@.len() && length
                > MAX_FIRMWARE_SIZE,
        },
{
    if firmware.len() == 0 {
        return Err(ImageError::Empty);
    }
    if firmware.len() > MAX_FIRMWARE_SIZE {
        return Err(ImageError::TooLarge { length: firmware.len() });
    }
    let mut packets: Vec<FirmwarePacket> = Vec::new();
    let mut offset: usize = 0;
    let mut id: u32 = 1;
    while offset < firmware.len()
        invariant
            0 < firmware@.len() <= MAX_FIRMWARE_SIZE,
            id == 2 * packets@.len() + 1,
            packets@.len() <= packet_count(firmware@.len() as int),
            offset <= firmware@.len(),
            offset < firmware@.len() ==> offset == payload_start(packets@.len() as int)
                && packets@.len() < packet_count(firmware@.len() as int),
            offset == firmware@.len() ==> packets@.len() == packet_count(firmware@.len() as int),
            forall|n: int|
                0 <= n < packets@.len() ==> is_packet(#[trigger] packets@[n], firmware@, n),
        decreases firmware@.len() - offset,
    {
        let packet = build_packet(firmware, id, offset, Ghost(packets@.len() as int));
        let capacity = if id == 1 {
            PACKET_SIZE - FIRST_PAYLOAD_OFFSET
        } else {
            PACKET_SIZE - PAYLOAD_OFFSET
        };
        packets.push(packet);
        offset = if firmware.len() - offset > capacity {
            offset + capacity
        } else {
            firmware.len()
        };
        id += 2;
    }
    Ok(packets)
}

/// Checks an acknowledgement: its length, then the checksum, then the identifier.
pub fn validate_ack(packet: &FirmwarePacket, acknowledgement: &[u8]) -> (r: Result<(), AckError>)
    ensures
        r == ack_outcome(*packet, acknowledgement@),
{
    if acknowledgement.len() != PACKET_SIZE {
        return Err(AckError::Length { length: acknowledgement.len() });
    }
    let checksum = read_word(acknowledgement, 0);
    let id = read_word(acknowledgement, 4);
    if checksum != packet.checksum {
        return Err(
            AckError::Checksum { packet: packet.id, sent: packet.checksum, received: checksum },
        );
    }
    if id != packet.expected_ack_id {
        return Err(
            AckError::Id { packet: packet.id, expected: packet.expected_ack_id, received: id },
        );
    }
    Ok(())
}

/// What an acknowledgement is worth.
pub open spec fn ack_outcome(packet: FirmwarePacket, ack: Seq<u8>) -> Result<(), AckError> {
    if ack.len() != PACKET_SIZE {
        Err(AckError::Length { length: ack.len() as usize })
    } else if word_at(ack, 0) != packet.checksum {
        Err(
            AckError::Checksum {
                packet: packet.id,
                sent: packet.checksum,
                received: word_at(ack, 0),
            },
        )
    } else if word_at(ack, 4) != packet.expected_ack_id {
        Err(
            AckError::Id {
                packet: packet.id,
                expected: packet.expected_ack_id,
                received: word_at(ack, 4),
            },
        )
    } else {
        Ok(())
    }
}

/// The parts of the image in the first `n` packets.
pub open spec fn first_payloads(image: Seq<u8>, n: int) -> Seq<u8>
    decreases n,
{
    if n <= 0 {
        seq![]
    } else {
        first_payloads(image, n - 1) + payload(image, n - 1)
    }
}

proof fn lemma_first_payloads(image: Seq<u8>, n: int)
    requires
        image.len() > 0,
        0 <= n <= packet_count(image.len() as int),
    ensures
        n < packet_count(image.len() as int) ==> payload_start(n) < image.len()
            && first_payloads(image, n) == image.take(payload_start(n)),
        n == packet_count(image.len() as int) ==> first_payloads(image, n) == image,
    decreases n,
{
    if n > 0 {
        lemma_first_payloads(image, n - 1);
        let end = if payload_start(n) <= image.len() {
            payload_start(n)
        } else {
            image.len() as int
        };
        assert(image.take(payload_start(n - 1)) + payload(image, n - 1) =~= image.take(end));
        assert(image.take(image.len() as int) =~= image);
    } else {
        assert(image.take(0) =~= Seq::empty());
    }
}

/// The packets carry the whole image, in order and without gaps, and every packet has the size of
/// a packet and carries something.
pub proof fn law_packets_carry_image(packets: Seq<FirmwarePacket>, image: Seq<u8>)
    requires
        0 < image.len() <= MAX_FIRMWARE_SIZE,
        are_packets(packets, image),
    ensures
        first_payloads(image, packets.len() as int) == image,
        forall|n: int|
            0 <= n < packets.len() ==> {
                let packet = #[trigger] packets[n];
                let start = header(image.len() as int, n).len() as int;
                let part = payload(image, n);
                &&& packet.bytes@.len() == PACKET_SIZE
                &&& 0 < part.len() <= PACKET_SIZE - start
                &&& packet.bytes@.subrange(start, start + part.len()) == part
            },
{
    lemma_first_payloads(image, packets.len() as int);
    assert forall|n: int| 0 <= n < packets.len() implies {
        let packet = #[trigger] packets[n];
        let start = header(image.len() as int, n).len() as int;
        let part = payload(image, n);
        &&& packet.bytes@.len() == PACKET_SIZE
        &&& 0 < part.len() <= PACKET_SIZE - start
        &&& packet.bytes@.subrange(start, start + part.len()) == part
    } by {
        lemma_first_payloads(image, n);
        let start = header(image.len() as int, n).len() as int;
        let part = payload(image, n);
        assert(is_packet(packets[n], image, n));
        assert(packets[n].bytes@.subrange(start, start + part.len()) =~= part);
    }
}

/// The header of the first packet tells the length of the image, and every packet tells its
/// identifier.
pub proof fn law_headers(packets: Seq<FirmwarePacket>, image: Seq<u8>)
    requires
        0 < image.len() <= MAX_FIRMWARE_SIZE,
        are_packets(packets, image),
    ensures
        word_at(packets[0].bytes@, 0) == 0xa0,
        word_at(packets[0].bytes@, 12) == image.len(),
        forall|n: int|
            0 <= n < packets.len() ==> word_at((#[trigger] packets[n]).bytes@, 4) == packets[n].id
                && packets[n].id % 2 == 1,
{
    law_word_round_trip(0xa0);
    law_word_round_trip(image.len() as u32);
    assert(is_packet(packets[0], image, 0));
    assert forall|n: int| 0 <= n < packets.len() implies word_at(
        (#[trigger] packets[n]).bytes@,
        4,
    ) == packets[n].id && packets[n].id % 2 == 1 by {
        assert(is_packet(packets[n], image, n));
        law_word_round_trip(packets[n].id);
    }
}

/// An acknowledgement is accepted when and only when it has the size of a packet, the checksum of
/// the packet in its first word and the identifier behind the packet's in its second.
pub proof fn law_only_exact_acks(packet: FirmwarePacket, ack: Seq<u8>)
    ensures
        ack_outcome(packet, ack) is Ok <==> ack.len() == PACKET_SIZE && word_at(ack, 0)
            == packet.checksum && word_at(ack, 4) == packet.expected_ack_id,
{
}

/// Whether an image file may be loaded.
pub fn check_image_size(length: u64) -> (r: bool)
    ensures
        r == (0 < length <= MAX_FIRMWARE_SIZE),
{
    length != 0 && length <= MAX_FIRMWARE_SIZE as u64
}

/// What came back for a packet.
#[derive(Debug, Clone, Copy, PartialEq, Eq, Structural)]
pub enum AckFault {
    /// Nothing could be read.
    Unread,
    /// What was read is refused.
    Refused(AckError),
}

/// What to do once the answer to a packet is there.
#[derive(Debug, Clone, Copy, PartialEq, Eq, Structural)]
pub enum FlashStep {
    /// The packet was acknowledged.
    Acknowledged,
    /// Send the packet again.
    Retry { attempt: u16, fault: AckFault },
    /// Give up.
    Failed { attempt: u16, fault: AckFault },
}

/// The transmission of an image: which packet is next, and how often it was sent in vain.
pub struct FlashSession {
    packets: Vec<FirmwarePacket>,
    index: usize,
    attempt: u16,
    retries: u8,
}

/// What a [`FlashSession`] knows.
pub struct FlashState {
    pub packets: Seq<FirmwarePacket>,
    pub index: int,
    pub attempt: int,
    pub retries: u8,
}

impl View for FlashSession {
    type V = FlashState;

    closed spec fn view(&self) -> FlashState {
        FlashState {
            packets: self.packets@,
            index: self.index as int,
            attempt: self.attempt as int,
            retries: self.retries,
        }
    }
}

/// What is wrong with the answer to a packet, if anything.
pub open spec fn ack_fault(packet: FirmwarePacket, answer: Option<Seq<u8>>) -> Option<AckFault> {
    match answer {
        None => Some(AckFault::Unread),
        Some(ack) => match ack_outcome(packet, ack) {
            Ok(()) => None,
            Err(error) => Some(AckFault::Refused(error)),
        },
    }
}

impl FlashState {
    /// The packets before the next one were acknowledged, and the next one was not sent too often.
    pub open spec fn valid(self) -> bool {
        &&& 0 <= self.index <= self.packets.len()
        &&& 0 <= self.attempt <= self.retries
    }

    pub open spec fn done(self) -> bool {
        self.index == self.packets.len()
    }

    /// What to do when `answer` came back for the next packet.
    pub open spec fn step(self, answer: Option<Seq<u8>>) -> FlashStep {
        match ack_fault(self.packets[self.index], answer) {
            None => FlashStep::Acknowledged,
            Some(fault) => if self.attempt < self.retries {
                FlashStep::Retry { attempt: (self.attempt + 1) as u16, fault }
            } else {
                FlashStep::Failed { attempt: (self.attempt + 1) as u16, fault }
            },
        }
    }

    /// What is known then.
    pub open spec fn after(self, answer: Option<Seq<u8>>) -> FlashState {
        match self.step(answer) {
            FlashStep::Acknowledged => FlashState { index: self.index + 1, attempt: 0, ..self },
            FlashStep::Retry { .. } => FlashState { attempt: self.attempt + 1, ..self },
            FlashStep::Failed { .. } => self,
        }
    }

    /// How many packets are sent at most from here on.
    pub open spec fn sends_left(self) -> int {
        (self.packets.len() - self.index) * (self.retries + 1) - self.attempt
    }
}

/// What the optional bytes are.
pub open spec fn answer_of(answer: Option<&[u8]>) -> Option<Seq<u8>> {
    match answer {
        Some(bytes) => Some(bytes@),
        None => None,
    }
}

impl FlashSession {
    /// Prepares the transmission of an image.
    pub fn new(firmware: &[u8], retries: u8) -> (r: Result<FlashSession, ImageError>)
        ensures
            match r {
                Ok(session) => {
                    &&& 0 < firmware@.len() <= MAX_FIRMWARE_SIZE
                    &&& are_packets(session@.packets, firmware@)
                    &&& session@.valid()
                    &&& session@.index == 0
                    &&& session@.attempt == 0
                    &&& session@.retries == retries
                },
                Err(ImageError::Empty) => firmware@.len() == 0,
                Err(ImageError::TooLarge { length }) => length == firmware@.len() && length
                    > MAX_FIRMWARE_SIZE,
            },
    {
        match build_packets(firmware) {
            Ok(packets) => Ok(FlashSession { packets, index: 0, attempt: 0, retries }),
            Err(error) => Err(error),
        }
    }

    /// The packet to send, until all were acknowledged.
    pub fn packet(&self) -> (r: Option<&FirmwarePacket>)
        requires
            self@.valid(),
        ensures
            r is None <==> self@.done(),
            r matches Some(packet) ==> *packet == self@.packets[self@.index],
    {
        if self.index < self.packets.len() {
            Some(&self.packets[self.index])
        } else {
            None
        }
    }

    /// Takes the answer to the packet that was sent.
    pub fn answer(&mut self, answer: Option<&[u8]>) -> (r: FlashStep)
        requires
            old(self)@.valid(),
            !old(self)@.done(),
        ensures
            r == old(self)@.step(answer_of(answer)),
            final(self)@ == old(self)@.after(answer_of(answer)),
            final(self)@.valid(),
    {
        let fault = match answer {
            None => AckFault::Unread,
            Some(bytes) => match validate_ack(&self.packets[self.index], bytes) {
                Ok(()) => {
                    assert(self.index < self.packets.len());
                    self.index = self.index + 1;
                    self.attempt = 0;
                    return FlashStep::Acknowledged;
                },
                Err(error) => AckFault::Refused(error),
            },
        };
        let attempt = self.attempt + 1;
        if attempt <= self.retries as u16 {
            self.attempt = attempt;
            FlashStep::Retry { attempt, fault }
        } else {
            FlashStep::Failed { attempt, fault }
        }
    }
}

/// Every answer brings the end closer: the transmission fails, or fewer packets are left to send.
/// So no packet is sent more often than the retries allow, and the whole transmission ends.
pub proof fn law_transmission_ends(state: FlashState, answer: Option<Seq<u8>>)
    requires
        state.valid(),
        !state.done(),
    ensures
        state.sends_left() > 0,
        state.after(answer).sends_left() >= 0,
        state.step(answer) is Failed || state.after(answer).sends_left() < state.sends_left(),
{
    let left = state.packets.len() - state.index;
    let per = state.retries + 1;
    assert(left * per >= per) by (nonlinear_arith)
        requires
            left >= 1,
            per >= 1,
    ;
    assert((left - 1) * per == left * per - per) by (nonlinear_arith);
}

/// Nothing but an exact acknowledgement moves on to the next packet, and a failure leaves the
/// packet where it is.
pub proof fn law_no_packet_is_skipped(state: FlashState, answer: Option<Seq<u8>>)
    requires
        state.valid(),
        !state.done(),
    ensures
        state.after(answer).packets == state.packets,
        state.after(answer).index == state.index + 1 <==> (answer matches Some(ack) && ack_outcome(
            state.packets[state.index],
            ack,
        ) is Ok),
        state.after(answer).index == state.index || state.after(answer).index == state.index + 1,
{
}

/// Why the case controller does not wait for firmware.
#[derive(Debug)]
pub enum BootloaderError<E> {
    /// It could not be asked.
    Bus(E),
    /// It was asked four times and still answers, so it has not left its normal operation.
    StillAnswers,
}

/// Asking the case controller to wait for firmware, with the given outcome.
pub open spec fn knock<E>(error: Option<E>) -> Event<E> {
    Event::WriteByte { value: 0xbb, error }
}

/// Asking so often, with an answer each time.
pub open spec fn knocks<E>(n: nat) -> Seq<Event<E>> {
    Seq::new(n, |i: int| knock(None))
}

/// The time between two times of asking.
pub open spec fn knock_pause() -> Duration {
    Duration { nanos: 1_000_000_000 }
}

/// Whether asking once can take the controller from one state to the other, with an answer.
pub open spec fn answered<D: I2cDevice>(before: Mcu<D>, after: Mcu<D>) -> bool {
    D::step(before.device(), knock(None), after.device())
}

/// Whether the controller was asked so often, answered each time, and `sleep` took its second
/// between any two of these.
pub open spec fn knocked<D: I2cDevice, S: Fn(Duration, &Mcu<D>)>(
    before: Mcu<D>,
    n: nat,
    sleep: S,
    after: Mcu<D>,
) -> bool
    decreases n,
{
    if n == 0 {
        after == before
    } else {
        exists|middle: Mcu<D>|
            {
                &&& knocked(before, (n - 1) as nat, sleep, middle)
                &&& n > 1 ==> call_ensures(sleep, (knock_pause(), &middle), ())
                &&& #[trigger] answered(middle, after)
            }
    }
}

/// Whether asking once can take the controller from one state to the other, without an answer.
pub open spec fn unanswered<D: I2cDevice>(before: Mcu<D>, error: D::Error, after: Mcu<D>) -> bool {
    D::step(before.device(), knock(Some(error)), after.device())
}

/// Whether the controller was asked so often with an answer each time, and once more, after
/// another second, without one.
pub open spec fn fell_silent<D: I2cDevice, S: Fn(Duration, &Mcu<D>)>(
    before: Mcu<D>,
    n: nat,
    sleep: S,
    after: Mcu<D>,
) -> bool {
    exists|middle: Mcu<D>, error: D::Error|
        {
            &&& knocked(before, n, sleep, middle)
            &&& call_ensures(sleep, (knock_pause(), &middle), ())
            &&& #[trigger] unanswered(middle, error, after)
        }
}

/// Whether asking can have this outcome: the controller was reached once, and then asked at most
/// three times more, a second after the last time, until it no longer answered.
pub open spec fn bootloader_entered<D: I2cDevice, S: Fn(Duration, &Mcu<D>)>(
    before: Mcu<D>,
    sleep: S,
    after: Mcu<D>,
    r: Result<(), BootloaderError<D::Error>>,
) -> bool {
    match r {
        Ok(()) => exists|n: nat| 1 <= n <= 3 && #[trigger] fell_silent(before, n, sleep, after),
        Err(BootloaderError::Bus(error)) => unanswered(before, error, after),
        Err(BootloaderError::StillAnswers) => knocked(before, 4, sleep, after),
    }
}

/// Whether `sleep` may be called where the controller has just answered, for the first to the
/// third time; it need not be callable anywhere else.
pub open spec fn sleeps_between_knocks<D: I2cDevice, S: Fn(Duration, &Mcu<D>)>(
    before: Mcu<D>,
    sleep: S,
) -> bool {
    forall|n: nat, middle: Mcu<D>|
        1 <= n <= 3 && #[trigger] knocked(before, n, sleep, middle) ==> call_requires(
            sleep,
            (knock_pause(), &middle),
        )
}

/// Asks the case controller to wait for firmware, again after each second, until it no longer
/// answers: then it does. `sleep` is only called behind an answer, and always for a second.
pub fn enter_bootloader<D: I2cDevice, S: Fn(Duration, &Mcu<D>)>(
    mcu: &mut Mcu<D>,
    sleep: S,
) -> (r: Result<(), BootloaderError<D::Error>>)
    requires
        sleeps_between_knocks(*old(mcu), sleep),
    ensures
        bootloader_entered(*old(mcu), sleep, *final(mcu), r),
{
    let ghost start = *mcu;
    match mcu.enter_firmware_update() {
        Ok(()) => {},
        Err(error) => {
            return Err(BootloaderError::Bus(error));
        },
    }
    assert(knocked(start, 0, sleep, start) && answered(start, *mcu));
    assert(knocked(start, 1, sleep, *mcu));
    let mut asked: u8 = 1;
    while asked < 4
        invariant
            start == *old(mcu),
            sleeps_between_knocks(start, sleep),
            1 <= asked <= 4,
            knocked(start, asked as nat, sleep, *mcu),
        decreases 4 - asked,
    {
        let ghost middle = *mcu;
        sleep(Duration::from_secs(1), mcu);
        match mcu.enter_firmware_update() {
            Ok(()) => {},
            Err(error) => {
                assert(unanswered(middle, error, *mcu));
                assert(fell_silent(start, asked as nat, sleep, *mcu));
                return Ok(());
            },
        }
        assert(answered(middle, *mcu));
        assert(knocked(start, (asked + 1) as nat, sleep, *mcu));
        asked += 1;
    }
    Err(BootloaderError::StillAnswers)
}

/// Asking so often sends nothing else to the controller.
proof fn lemma_knocks_sent<D: I2cDevice, S: Fn(Duration, &Mcu<D>)>(
    before: Mcu<D>,
    n: nat,
    sleep: S,
    after: Mcu<D>,
)
    requires
        knocked(before, n, sleep, after),
    ensures
        steps(before.device(), knocks(n), after.device()),
    decreases n,
{
    if n > 0 {
        let middle = choose|middle: Mcu<D>|
            {
                &&& knocked(before, (n - 1) as nat, sleep, middle)
                &&& n > 1 ==> call_ensures(sleep, (knock_pause(), &middle), ())
                &&& #[trigger] answered(middle, after)
            };
        lemma_knocks_sent(before, (n - 1) as nat, sleep, middle);
        lemma_more_steps(
            before.device(),
            knocks((n - 1) as nat),
            middle.device(),
            knock(None),
            after.device(),
        );
        assert(knocks::<D::Error>((n - 1) as nat).push(knock(None)) =~= knocks(n));
    }
}

/// The case controller is asked from one to four times and sent nothing else; a success is a
/// time of asking without an answer, behind one to three with one.
pub proof fn law_only_knocks_are_sent<D: I2cDevice, S: Fn(Duration, &Mcu<D>)>(
    before: Mcu<D>,
    sleep: S,
    after: Mcu<D>,
    r: Result<(), BootloaderError<D::Error>>,
)
    requires
        bootloader_entered(before, sleep, after, r),
    ensures
        r is Ok ==> exists|n: nat, error: D::Error|
            1 <= n <= 3 && steps(
                before.device(),
                (#[trigger] knocks(n)).push(#[trigger] knock(Some(error))),
                after.device(),
            ),
        r matches Err(BootloaderError::Bus(error)) ==> steps(
            before.device(),
            seq![knock(Some(error))],
            after.device(),
        ),
        r matches Err(BootloaderError::StillAnswers) ==> steps(
            before.device(),
            knocks(4),
            after.device(),
        ),
{
    match r {
        Ok(()) => {
            let n = choose|n: nat|
                1 <= n <= 3 && #[trigger] fell_silent(before, n, sleep, after);
            let (middle, error) = choose|middle: Mcu<D>, error: D::Error|
                {
                    &&& knocked(before, n, sleep, middle)
                    &&& call_ensures(sleep, (knock_pause(), &middle), ())
                    &&& #[trigger] unanswered(middle, error, after)
                };
            lemma_knocks_sent(before, n, sleep, middle);
            lemma_more_steps(
                before.device(),
                knocks(n),
                middle.device(),
                knock(Some(error)),
                after.device(),
            );
        },
        Err(BootloaderError::Bus(error)) => {
            lemma_one_step(before.device(), knock(Some(error)), after.device());
        },
        Err(BootloaderError::StillAnswers) => {
            lemma_knocks_sent(before, 4, sleep, after);
        },
    }
}

/// A word stands in four bytes, the lowest first.
pub proof fn law_words_are_little_endian(word: u32, bytes: Seq<u8>, offset: int)
    ensures
        word_bytes(word).len() == 4,
        word_bytes(word)[0] + 256 * word_bytes(word)[1] + 65536 * word_bytes(word)[2] + 16777216
            * word_bytes(word)[3] == word,
        word_at(bytes, offset) == bytes[offset] + 256 * bytes[offset + 1] + 65536 * bytes[offset
            + 2] + 16777216 * bytes[offset + 3],
{
}

/// The checksum adds up the bytes, every one of them.
pub proof fn law_checksum_adds_up(a: Seq<u8>, b: Seq<u8>, byte: u8)
    ensures
        byte_sum(seq![]) == 0,
        byte_sum(seq![byte]) == byte,
        byte_sum(a + b) == byte_sum(a) + byte_sum(b),
    decreases b.len(),
{
    assert(seq![byte].drop_last() =~= seq![]);
    assert(byte_sum(seq![]) == 0);
    if b.len() == 0 {
        assert(a + b =~= a);
    } else {
        law_checksum_adds_up(a, b.drop_last(), byte);
        assert((a + b).drop_last() =~= a + b.drop_last());
    }
}

/// The first packet holds the number 0xa0, its identifier, zero and the length of the image, and
/// from byte 16 on the first 48 bytes of the image; each later one holds zero and its identifier,
/// and from byte 8 on the next 56 bytes. Where the image ends, the packet is filled up with zeros.
pub proof fn law_packet_layout(image: Seq<u8>, n: int, i: int)
    requires
        0 < image.len() <= MAX_FIRMWARE_SIZE,
        0 <= n < packet_count(image.len() as int),
        0 <= i < 64,
    ensures
        ({
            let bytes = packet_bytes(image, n);
            let at = if n == 0 {
                i - 16
            } else {
                48 + 56 * (n - 1) + i - 8
            };
            &&& bytes.len() == 64
            &&& (n == 0 && i >= 16) || (n > 0 && i >= 8) ==> bytes[i] == (if at < image.len() {
                image[at]
            } else {
                0
            })
            &&& n == 0 ==> word_at(bytes, 0) == 0xa0 && word_at(bytes, 4) == 1 && word_at(bytes, 8)
                == 0 && word_at(bytes, 12) == image.len()
            &&& n > 0 ==> word_at(bytes, 0) == 0 && word_at(bytes, 4) == 2 * n + 1
        }),
{
    let bytes = packet_bytes(image, n);
    let head = header(image.len() as int, n);
    let part = payload(image, n);
    lemma_first_payloads(image, n);
    assert(payload_start(n) < image.len());
    assert(head.len() == if n == 0 {
        16int
    } else {
        8
    });
    law_word_round_trip(0xa0);
    law_word_round_trip(1);
    law_word_round_trip(0);
    law_word_round_trip(image.len() as u32);
    assert(2 * n + 1 <= u32::MAX);
    law_word_round_trip((2 * n + 1) as u32);
    assert(part.len() <= 64 - head.len());
    if i >= head.len() && i < head.len() + part.len() {
        assert(bytes[i] == part[i - head.len()]);
    }
}

/// There are as many packets as the image needs: what all but the last one hold is less than the
/// image, and what all of them can hold is not.
pub proof fn law_number_of_packets(length: int)
    requires
        length > 0,
    ensures
        ({
            let count = packet_count(length);
            &&& count >= 1
            &&& length <= 48 + 56 * (count - 1)
            &&& count > 1 ==> 48 + 56 * (count - 2) < length
        }),
{
}

/// Packets are numbered with the odd numbers from one on, and each is acknowledged with the number
/// behind its own and the sum of its bytes.
pub proof fn law_packet_numbers(packet: FirmwarePacket, image: Seq<u8>, n: int)
    requires
        is_packet(packet, image, n),
        0 <= n,
    ensures
        packet.id == 2 * n + 1,
        packet.expected_ack_id == 2 * n + 2,
        packet.checksum == byte_sum(packet.bytes@),
{
}

/// A packet that was not acknowledged is sent again until the retries are used up, and then the
/// transmission fails; an acknowledged one gives the next its own retries.
pub proof fn law_retries(state: FlashState, answer: Option<Seq<u8>>)
    requires
        state.valid(),
        !state.done(),
    ensures
        ({
            let packet = state.packets[state.index];
            let accepted = answer matches Some(ack) && ack.len() == 64 && word_at(ack, 0)
                == packet.checksum && word_at(ack, 4) == packet.expected_ack_id;
            let after = state.after(answer);
            &&& state.step(answer) is Acknowledged <==> accepted
            &&& accepted ==> after.index == state.index + 1 && after.attempt == 0
            &&& !accepted ==> after.index == state.index
            &&& state.step(answer) is Retry <==> !accepted && state.attempt < state.retries
            &&& state.step(answer) is Failed <==> !accepted && state.attempt == state.retries
            &&& state.step(answer) is Retry ==> after.attempt == state.attempt + 1
            &&& state.step(answer) matches FlashStep::Retry { attempt, .. } ==> attempt
                == state.attempt + 1
            &&& state.step(answer) matches FlashStep::Failed { attempt, .. } ==> attempt
                == state.attempt + 1
            &&& after.packets == state.packets
            &&& after.retries == state.retries
        }),
{
}

/// What is told of an acknowledgement that was refused is what is wrong with it first: its length,
/// its checksum, its number.
pub proof fn law_refused_acknowledgements(packet: FirmwarePacket, ack: Seq<u8>)
    requires
        ack.len() <= usize::MAX,
    ensures
        ack_outcome(packet, ack) matches Err(AckError::Length { length }) ==> length == ack.len()
            && length != 64,
        ack_outcome(packet, ack) matches Err(AckError::Checksum { packet: id, sent, received })
            ==> id == packet.id && sent == packet.checksum && received == word_at(ack, 0)
            && received != sent && ack.len() == 64,
        ack_outcome(packet, ack) matches Err(AckError::Id { packet: id, expected, received }) ==> id
            == packet.id && expected == packet.expected_ack_id && received == word_at(ack, 4)
            && received != expected && word_at(ack, 0) == packet.checksum && ack.len() == 64,
{
}

/// Asking for the firmware mode is one byte, and a second passes between two times.
pub proof fn law_asking_for_firmware_mode<E>(error: Option<E>)
    ensures
        knock(error) == (Event::WriteByte { value: 0xbb, error }),
        knock_pause().nanos == 1_000_000_000,
{
}

/// A word that is written to a packet is read from its place, and every other byte stays.
pub proof fn law_written_word_reads_back(bytes: Seq<u8>, offset: int, word: u32, i: int)
    requires
        0 <= offset,
        offset + 4 <= bytes.len(),
    ensures
        ({
            let after = overwritten(bytes, offset, word_bytes(word));
            &&& after.len() == bytes.len()
            &&& word_at(after, offset) == word
            &&& 0 <= i < offset || offset + 4 <= i < bytes.len() ==> after[i] == bytes[i]
        }),
{
    law_word_round_trip(word);
    let after = overwritten(bytes, offset, word_bytes(word));
    assert(after[offset] == word_bytes(word)[0] && after[offset + 1] == word_bytes(word)[1]
        && after[offset + 2] == word_bytes(word)[2] && after[offset + 3] == word_bytes(word)[3]);
}

} // verus!
