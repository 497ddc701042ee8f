//! The records of the log and their frames.
//!
//! A frame is a header of [`HEADER_SIZE`] bytes and a payload:
//!
//! | bytes    | meaning                                   |
//! |----------|-------------------------------------------|
//! | `0`      | the magic byte                            |
//! | `1..5`   | CRC-32 of everything that follows         |
//! | `5`      | what happened to the task                 |
//! | `6`      | the priority of the task                  |
//! | `7..15`  | the id of the task                        |
//! | `15..19` | the length of the payload                 |
//! | `19..`   | the payload                               |
//!
//! Integers are big-endian.

use super::bytes::{be_u32, be_u64, push_range, push_u32, push_u64, read_u32, read_u64, u32_of_be, u64_of_be};
use super::bytes::{lemma_u32_be_round_trip, lemma_u32_of_be_differs, lemma_u64_be_round_trip};
use super::checksum::{checksum_of, crc32, law_checksum_tells_one_byte};
use vstd::prelude::*;

verus! {

/// The first byte of every frame: the letter `N`.
pub const MAGIC_BYTE: u8 = 0x4E;

/// Magic byte, checksum, operation, priority, id and payload length.
pub const HEADER_SIZE: usize = 19;

/// What a record says of its task.
#[derive(Debug, Clone, Copy, PartialEq, Eq, Structural)]
pub enum OpType {
    Created,
    Leased,
    Acked,
    Nacked,
    Expired,
    DeadLettered,
}

impl OpType {
    /// The byte that stands for the operation in a frame.
    pub open spec fn code(self) -> u8 {
        match self {
            OpType::Created => 0,
            OpType::Leased => 1,
            OpType::Acked => 2,
            OpType::Nacked => 3,
            OpType::Expired => 4,
            OpType::DeadLettered => 5,
        }
    }

    /// The operation that a byte stands for, if it stands for one.
    pub open spec fn of_code(code: u8) -> Option<OpType> {
        match code {
            0 => Some(OpType::Created),
            1 => Some(OpType::Leased),
            2 => Some(OpType::Acked),
            3 => Some(OpType::Nacked),
            4 => Some(OpType::Expired),
            5 => Some(OpType::DeadLettered),
            _ => None,
        }
    }

    /// Whether the operation ends the life of the task.
    pub open spec fn is_terminal_spec(self) -> bool {
        self == OpType::Acked || self == OpType::DeadLettered
    }

    pub fn to_byte(self) -> (code: u8)
        ensures
            code == self.code(),
    {
        match self {
            OpType::Created => 0,
            OpType::Leased => 1,
            OpType::Acked => 2,
            OpType::Nacked => 3,
            OpType::Expired => 4,
            OpType::DeadLettered => 5,
        }
    }

    pub fn from_byte(code: u8) -> (op: Option<OpType>)
        ensures
            op == OpType::of_code(code),
    {
        match code {
            0 => Some(OpType::Created),
            1 => Some(OpType::Leased),
            2 => Some(OpType::Acked),
            3 => Some(OpType::Nacked),
            4 => Some(OpType::Expired),
            5 => Some(OpType::DeadLettered),
            _ => None,
        }
    }

    /// `true` for `Acked` and `DeadLettered`.
    pub fn is_terminal(self) -> (terminal: bool)
        ensures
            terminal == self.is_terminal_spec(),
    {
        match self {
            OpType::Acked | OpType::DeadLettered => true,
            _ => false,
        }
    }
}

/// The value of a [`Record`].
#[verifier::ext_equal]
pub struct RecordView {
    pub id: u64,
    pub op_type: OpType,
    pub priority: u8,
    pub payload: Seq<u8>,
}

/// One event in the life of a task.
#[derive(Debug)]
pub struct Record {
    id: u64,
    op_type: OpType,
    priority: u8,
    payload: Vec<u8>,
}

impl View for Record {
    type V = RecordView;

    closed spec fn view(&self) -> RecordView {
        RecordView {
            id: self.id,
            op_type: self.op_type,
            priority: self.priority,
            payload: self.payload@,
        }
    }
}

impl Clone for Record {
    fn clone(&self) -> (copy: Self)
        ensures
            copy@ == self@,
    {
        let payload = self.payload.clone();
        assert(payload@ =~= self.payload@);
        Record { id: self.id, op_type: self.op_type, priority: self.priority, payload }
    }
}

impl RecordView {
    /// The frame from the operation byte on: the part that the checksum covers.
    #[verifier::opaque]
    pub open spec fn body(self) -> Seq<u8> {
        seq![self.op_type.code(), self.priority] + be_u64(self.id) + be_u32(
            self.payload.len() as u32,
        ) + self.payload
    }

    /// The frame with a given checksum.
    #[verifier::opaque]
    pub open spec fn framed(self, checksum: u32) -> Seq<u8> {
        seq![MAGIC_BYTE] + be_u32(checksum) + self.body()
    }

    /// The frame of the record.
    pub open spec fn encoded(self) -> Seq<u8> {
        self.framed(crc32(self.body()))
    }

    /// Whether the length of the payload can be written down in a frame.
    pub open spec fn encodable(self) -> bool {
        self.payload.len() <= u32::MAX
    }
}

/// The payload length that a header states.
pub open spec fn stated_payload_len(header: Seq<u8>) -> nat {
    u32_of_be(header.subrange(15, 19)) as nat
}

/// The record that `data` starts with, given the checksum of `data` from its
/// sixth byte on: `None` when the header is short or has the wrong magic byte,
/// when the stated checksum is another, when the operation is unknown, or when
/// the payload is short.
pub open spec fn parsed(data: Seq<u8>, checksum: u32) -> Option<RecordView> {
    if data.len() < HEADER_SIZE || data[0] != MAGIC_BYTE {
        None
    } else if u32_of_be(data.subrange(1, 5)) != checksum {
        None
    } else if OpType::of_code(data[5]) is None {
        None
    } else if data.len() < HEADER_SIZE + stated_payload_len(data) {
        None
    } else {
        Some(
            RecordView {
                id: u64_of_be(data.subrange(7, 15)),
                op_type: OpType::of_code(data[5])->0,
                priority: data[6],
                payload: data.subrange(
                    HEADER_SIZE as int,
                    HEADER_SIZE + stated_payload_len(data),
                ),
            },
        )
    }
}

/// The record that `data` decodes to.
pub open spec fn decoded(data: Seq<u8>) -> Option<RecordView> {
    parsed(data, crc32(data.skip(5)))
}

impl Record {
    pub fn new(id: u64, op_type: OpType, priority: u8, payload: Vec<u8>) -> (record: Self)
        ensures
            record@ == (RecordView { id, op_type, priority, payload: payload@ }),
    {
        Record { id, op_type, priority, payload }
    }

    pub fn id(&self) -> (id: u64)
        ensures
            id == self@.id,
    {
        self.id
    }

    pub fn op_type(&self) -> (op: OpType)
        ensures
            op == self@.op_type,
    {
        self.op_type
    }

    pub fn priority(&self) -> (priority: u8)
        ensures
            priority == self@.priority,
    {
        self.priority
    }

    pub fn payload(&self) -> (payload: &[u8])
        ensures
            payload@ == self@.payload,
    {
        self.payload.as_slice()
    }

    /// The part of the frame that the checksum covers.
    pub fn body(&self) -> (body: Vec<u8>)
        ensures
            body@ == self@.body(),
    {
        reveal(RecordView::body);
        let mut body: Vec<u8> = Vec::new();
        body.push(self.op_type.to_byte());
        body.push(self.priority);
        assert(body@ =~= seq![self@.op_type.code(), self@.priority]);
        push_u64(&mut body, self.id);
        push_u32(
            &mut body,
            #[verifier::truncate]
            (self.payload.len() as u32),
        );
        let len = self.payload.len();
        push_range(&mut body, self.payload.as_slice(), 0, len);
        assert(self.payload@.subrange(0, len as int) =~= self.payload@);
        body
    }

    /// The frame with a given checksum.
    pub fn framed(&self, checksum: u32) -> (frame: Vec<u8>)
        ensures
            frame@ == self@.framed(checksum),
    {
        reveal(RecordView::framed);
        let body = self.body();
        let mut frame: Vec<u8> = Vec::new();
        frame.push(MAGIC_BYTE);
        assert(frame@ =~= seq![MAGIC_BYTE]);
        push_u32(&mut frame, checksum);
        push_range(&mut frame, body.as_slice(), 0, body.len());
        assert(body@.subrange(0, body@.len() as int) =~= body@);
        frame
    }

    /// The frame of the record. A payload longer than `u32::MAX` is written
    /// with the low 32 bits of its length.
    pub fn encode(&self) -> (frame: Vec<u8>)
        ensures
            frame@ == self@.encoded(),
    {
        let body = self.body();
        let checksum = checksum_of(body.as_slice());
        self.framed(checksum)
    }

    /// The length of the frame of the record.
    pub fn frame_len(&self) -> (len: u64)
        requires
            self@.encoded().len() <= u64::MAX,
        ensures
            len == self@.encoded().len(),
    {
        proof {
            lemma_frame_layout(self@, crc32(self@.body()));
        }
        HEADER_SIZE as u64 + self.payload.len() as u64
    }

    /// Decodes the frame that `data` starts with, given the checksum of `data`
    /// from its sixth byte on.
    pub fn parse(data: &[u8], checksum: u32) -> (record: Option<Record>)
        ensures
            match record {
                Some(r) => parsed(data@, checksum) == Some(r@),
                None => parsed(data@, checksum) is None,
            },
    {
        if data.len() < HEADER_SIZE {
            return None;
        }
        if data[0] != MAGIC_BYTE {
            return None;
        }
        if read_u32(data, 1) != checksum {
            return None;
        }
        let op_type = match OpType::from_byte(data[5]) {
            Some(op) => op,
            None => return None,
        };
        let payload_len: usize = extract_payload_len(data);
        if data.len() - HEADER_SIZE < payload_len {
            return None;
        }
        let mut payload: Vec<u8> = Vec::new();
        push_range(&mut payload, data, HEADER_SIZE, HEADER_SIZE + payload_len);
        let id: u64 = read_u64(data, 7);
        let record = Record { id, op_type, priority: data[6], payload };
        assert(record@.payload =~= data@.subrange(19, 19 + payload_len));
        Some(record)
    }

    /// Decodes the frame that `data` starts with. The checksum is taken over
    /// all of `data`, so bytes behind the frame make it fail.
    pub fn decode(data: &[u8]) -> (record: Option<Record>)
        ensures
            match record {
                Some(r) => decoded(data@) == Some(r@),
                None => decoded(data@) is None,
            },
    {
        if data.len() < HEADER_SIZE {
            return None;
        }
        let checksum = checksum_of(&data[5..data.len()]);
        assert(data@.subrange(5, data@.len() as int) =~= data@.skip(5));
        Record::parse(data, checksum)
    }
}

/// The payload length that a header states.
pub fn extract_payload_len(header: &[u8]) -> (len: usize)
    requires
        header@.len() >= HEADER_SIZE,
    ensures
        len == stated_payload_len(header@),
{
    read_u32(header, 15) as usize
}

/// The parts of a frame are found where the decoder looks for them.
pub proof fn lemma_frame_layout(r: RecordView, checksum: u32)
    ensures
        r.framed(checksum).len() == HEADER_SIZE + r.payload.len(),
        r.framed(checksum)[0] == MAGIC_BYTE,
        r.framed(checksum).subrange(1, 5) == be_u32(checksum),
        r.framed(checksum).skip(5) == r.body(),
        r.framed(checksum)[5] == r.op_type.code(),
        r.framed(checksum)[6] == r.priority,
        r.framed(checksum).subrange(7, 15) == be_u64(r.id),
        r.framed(checksum).subrange(15, 19) == be_u32(r.payload.len() as u32),
        r.framed(checksum).subrange(19, (19 + r.payload.len()) as int) == r.payload,
        stated_payload_len(r.framed(checksum)) == r.payload.len() as u32,
{
    reveal(RecordView::body);
    reveal(RecordView::framed);
    let f = r.framed(checksum);
    assert(f.subrange(1, 5) =~= be_u32(checksum));
    assert(f.skip(5) =~= r.body());
    assert(f.subrange(7, 15) =~= be_u64(r.id));
    assert(f.subrange(15, 19) =~= be_u32(r.payload.len() as u32));
    assert(f.subrange(19, (19 + r.payload.len()) as int) =~= r.payload);
    lemma_u32_be_round_trip(r.payload.len() as u32);
}

/// A record comes back from its frame, as long as the frame can hold the length
/// of its payload.
pub proof fn law_record_round_trip(r: RecordView)
    requires
        r.encodable(),
    ensures
        decoded(r.encoded()) == Some(r),
{
    let checksum = crc32(r.body());
    lemma_frame_layout(r, checksum);
    lemma_u32_be_round_trip(checksum);
    lemma_u64_be_round_trip(r.id);
}

/// A frame that is cut off in its header, that has another magic byte or an
/// operation byte without a meaning, or whose checksum is not that of its body,
/// is never decoded.
pub proof fn law_corrupt_frame_is_rejected(data: Seq<u8>)
    requires
        data.len() < HEADER_SIZE || data[0] != MAGIC_BYTE || u32_of_be(data.subrange(1, 5)) != crc32(
            data.skip(5),
        ) || data[5] > 5,
    ensures
        decoded(data) is None,
{
}

/// A frame in which one byte has been changed is never decoded, whichever byte it
/// is.
pub proof fn law_changed_byte_is_rejected(r: RecordView, i: int, byte: u8)
    requires
        0 <= i < r.encoded().len(),
        byte != r.encoded()[i],
    ensures
        decoded(r.encoded().update(i, byte)) is None,
{
    let frame = r.encoded();
    let data = frame.update(i, byte);
    let checksum = crc32(r.body());
    lemma_frame_layout(r, checksum);
    lemma_u32_be_round_trip(checksum);
    if i == 0 {
        assert(data[0] != MAGIC_BYTE);
    } else if i < 5 {
        assert(data.skip(5) =~= frame.skip(5));
        assert(data.subrange(1, 5) =~= be_u32(checksum).update(i - 1, byte));
        assert(frame[i] == frame.subrange(1, 5)[i - 1]);
        lemma_u32_of_be_differs(be_u32(checksum), i - 1, byte);
    } else {
        assert(data.subrange(1, 5) =~= frame.subrange(1, 5));
        assert(data.skip(5) =~= r.body().update(i - 5, byte));
        assert(frame[i] == frame.skip(5)[i - 5]);
        law_checksum_tells_one_byte(r.body(), i - 5, byte);
    }
}

/// A frame in which a single bit has been flipped is never decoded, be it a bit of
/// the magic byte, of the checksum, of the header or of the payload.
pub proof fn law_flipped_bit_is_rejected(r: RecordView, i: int, bit: u8)
    requires
        0 <= i < r.encoded().len(),
        bit < 8,
    ensures
        decoded(r.encoded().update(i, r.encoded()[i] ^ (1u8 << bit))) is None,
{
    let byte = r.encoded()[i];
    assert(byte ^ (1u8 << bit) != byte) by (bit_vector)
        requires
            bit < 8,
    ;
    law_changed_byte_is_rejected(r, i, byte ^ (1u8 << bit));
}

/// The operations are numbered from zero on, in the order of the life of a task. No
/// other byte stands for an operation. Two of them end the life of the task.
pub proof fn law_operations_are_numbered(op: OpType, byte: u8)
    ensures
        OpType::of_code(op.code()) == Some(op),
        OpType::of_code(byte) is Some <==> byte <= 5,
        op.code() == 0 <==> op == OpType::Created,
        op.code() == 1 <==> op == OpType::Leased,
        op.code() == 2 <==> op == OpType::Acked,
        op.code() == 3 <==> op == OpType::Nacked,
        op.code() == 4 <==> op == OpType::Expired,
        op.code() == 5 <==> op == OpType::DeadLettered,
        op.is_terminal_spec() <==> op.code() == 2 || op.code() == 5,
{
}

/// A frame is a header of nineteen bytes and the payload. The header is the letter `N`,
/// four bytes of checksum over everything that follows them, the operation, the
/// priority, eight bytes of id, and four bytes of the length of the payload, of which
/// they hold the low bits where it is too long for them.
pub proof fn law_frame_layout(r: RecordView)
    ensures
        ({
            let frame = r.encoded();
            &&& r.encodable() <==> r.payload.len() <= 0xFFFF_FFFF
            &&& frame.len() == 19 + r.payload.len()
            &&& frame[0] == 78
            &&& u32_of_be(frame.subrange(1, 5)) == crc32(frame.skip(5))
            &&& frame[5] == r.op_type.code()
            &&& frame[6] == r.priority
            &&& u64_of_be(frame.subrange(7, 15)) == r.id
            &&& u32_of_be(frame.subrange(15, 19)) == r.payload.len() as u32
            &&& frame.skip(19) == r.payload
        }),
{
    let checksum = crc32(r.body());
    lemma_frame_layout(r, checksum);
    lemma_u32_be_round_trip(checksum);
    lemma_u64_be_round_trip(r.id);
    lemma_u32_be_round_trip(r.payload.len() as u32);
    assert(r.encoded().skip(19) =~= r.encoded().subrange(19, (19 + r.payload.len()) as int));
}

/// A record is read from some bytes exactly if they hold a whole header that starts
/// with the letter `N`, the right checksum, an operation that exists, and a payload of
/// the length that the header states. What is read is what stands there.
pub proof fn law_decoding_reads_the_frame(data: Seq<u8>, r: RecordView)
    ensures
        decoded(data) is Some <==> {
            &&& data.len() >= 19
            &&& data[0] == 78
            &&& u32_of_be(data.subrange(1, 5)) == crc32(data.skip(5))
            &&& data[5] <= 5
            &&& data.len() >= 19 + u32_of_be(data.subrange(15, 19))
        },
        decoded(data) == Some(r) ==> {
            &&& r.op_type.code() == data[5]
            &&& r.priority == data[6]
            &&& r.id == u64_of_be(data.subrange(7, 15))
            &&& r.payload.len() == u32_of_be(data.subrange(15, 19))
            &&& r.payload == data.subrange(19, (19 + r.payload.len()) as int)
        },
{
}

} // verus!
