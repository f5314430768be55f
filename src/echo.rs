use vstd::prelude::*;
use byteorder::{ByteOrder, NetworkEndian};

verus! {

/// Length of an echo message: type, code, checksum, identifier and sequence
/// number.
pub const ICMPV4_HEADER_SIZE: usize = 8;

/// Type byte of an echo request.
pub const ECHO_REQUEST: u8 = 8;

/// Type byte of an echo reply.
pub const ECHO_REPLY: u8 = 0;

/// Why a byte buffer is not an echo message.
#[derive(PartialEq, Eq, Structural, Clone, Copy, Debug)]
pub enum Fail {
    /// The buffer is shorter than an echo message.
    Malformed,
    /// The type byte names neither an echo request nor an echo reply.
    Unsupported,
}

#[derive(PartialEq, Eq, Structural, Clone, Copy, Debug)]
pub enum Icmpv4EchoType {
    Request,
    Reply,
}

/// Relies on `NetworkEndian::read_u16`: the two bytes at `at`, most
/// significant first.
#[verifier::external_body]
fn read_u16_at(buf: &Vec<u8>, at: usize) -> (r: u16)
    requires
        at + 2 <= buf@.len(),
    ensures
        r as int == buf@[at as int] as int * 256 + buf@[at + 1] as int,
{
    NetworkEndian::read_u16(&buf[at..])
}

/// Relies on `NetworkEndian::write_u16`: `n` goes to the two bytes at `at`,
/// most significant first; no other byte changes.
#[verifier::external_body]
fn write_u16_at(buf: &mut Vec<u8>, at: usize, n: u16)
    requires
        at + 2 <= old(buf)@.len(),
    ensures
        final(buf)@ == old(buf)@.update(at as int, (n / 256) as u8).update(at + 1, (n % 256) as u8),
{
    NetworkEndian::write_u16(&mut buf[at..], n)
}

/// Folds the carry of a sum of 16-bit words back into its low 16 bits.
pub open spec fn fold_carry(x: int) -> int {
    x % 65536 + x / 65536
}

/// The big-endian 16-bit word at byte `2 * i` of `b`, with the checksum field
/// (bytes 2 and 3) read as zero and a missing last byte as zero.
pub open spec fn word_at(b: Seq<u8>, i: int) -> int {
    if i == 1 {
        0
    } else {
        b[2 * i] as int * 256 + (if 2 * i + 1 < b.len() { b[2 * i + 1] as int } else { 0 })
    }
}

/// The ones'-complement sum of the first `n` words of `b`.
pub open spec fn ones_sum(b: Seq<u8>, n: nat) -> int
    decreases n,
{
    if n == 0 {
        0
    } else {
        fold_carry(ones_sum(b, (n - 1) as nat) + word_at(b, n - 1))
    }
}

/// The Internet checksum of message `b`: the complement of the ones'-complement
/// sum of its 16-bit words, the checksum field counted as zero.
pub open spec fn checksum_of(b: Seq<u8>) -> int {
    65535 - ones_sum(b, ((b.len() + 1) / 2) as nat)
}

/// The checksum of `b`, computed a word at a time.
fn compute_checksum(b: &Vec<u8>) -> (r: u16)
    requires
        b@.len() >= 4,
    ensures
        r as int == checksum_of(b@),
{
    let len: usize = b.len();
    let n: usize = len / 2 + len % 2;
    let mut acc: u32 = 0;
    let mut i: usize = 0;
    while i < n
        invariant
            n as int == (b@.len() + 1) / 2,
            b@.len() >= 4,
            b@.len() == len,
            0 <= i <= n,
            acc as int == ones_sum(b@, i as nat),
            acc <= 65535,
        decreases n - i,
    {
        let word: u32 = if i == 1 {
            0
        } else {
            assert(2 * i < b@.len());
            let hi: u32 = b[2 * i] as u32;
            let lo: u32 = if 2 * i + 1 < b.len() { b[2 * i + 1] as u32 } else { 0 };
            hi * 256 + lo
        };
        assert(word as int == word_at(b@, i as int));
        let x: u32 = acc + word;
        let folded: u32 = x % 65536 + x / 65536;
        proof {
            assert(0 <= fold_carry(x as int) <= 65535) by (nonlinear_arith)
                requires
                    0 <= x <= 131070,
            ;
        }
        acc = folded;
        i = i + 1;
    }
    (65535 - acc) as u16
}

/// Whether byte `t` names an echo request or an echo reply.
pub open spec fn is_echo_type(t: u8) -> bool {
    t == ECHO_REQUEST || t == ECHO_REPLY
}

/// A received echo message: at least `ICMPV4_HEADER_SIZE` bytes, with an echo
/// type.
pub struct Icmpv4Echo {
    bytes: Vec<u8>,
}

impl Icmpv4Echo {
    /// The bytes of the message.
    pub closed spec fn view(&self) -> Seq<u8> {
        self.bytes@
    }

    /// At least `ICMPV4_HEADER_SIZE` bytes, with an echo type byte.
    pub open spec fn wf(&self) -> bool {
        self@.len() >= ICMPV4_HEADER_SIZE && is_echo_type(self@[0])
    }

    /// Reads `bytes` as an echo message.
    pub fn try_from(bytes: Vec<u8>) -> (r: Result<Icmpv4Echo, Fail>)
        ensures
            bytes@.len() < ICMPV4_HEADER_SIZE ==> r == Err::<Icmpv4Echo, Fail>(Fail::Malformed),
            bytes@.len() >= ICMPV4_HEADER_SIZE && !is_echo_type(bytes@[0]) ==> r == Err::<
                Icmpv4Echo,
                Fail,
            >(Fail::Unsupported),
            bytes@.len() >= ICMPV4_HEADER_SIZE && is_echo_type(bytes@[0]) ==> r.is_ok() && r.unwrap()@
                == bytes@ && r.unwrap().wf(),
    {
        if bytes.len() < ICMPV4_HEADER_SIZE {
            Err(Fail::Malformed)
        } else if bytes[0] != ECHO_REQUEST && bytes[0] != ECHO_REPLY {
            Err(Fail::Unsupported)
        } else {
            Ok(Icmpv4Echo { bytes })
        }
    }

    /// The bytes of the whole message.
    pub fn icmpv4(&self) -> (r: &Vec<u8>)
        ensures
            r@ == self@,
    {
        &self.bytes
    }

    /// Whether the message is a request or a reply.
    pub fn echo_type(&self) -> (r: Icmpv4EchoType)
        requires
            self.wf(),
        ensures
            r == (if self@[0] == ECHO_REQUEST { Icmpv4EchoType::Request } else { Icmpv4EchoType::Reply }),
    {
        if self.bytes[0] == ECHO_REQUEST {
            Icmpv4EchoType::Request
        } else {
            Icmpv4EchoType::Reply
        }
    }

    /// The identifier, from bytes 4 and 5 in network byte order.
    pub fn id(&self) -> (r: u16)
        requires
            self.wf(),
        ensures
            r as int == self@[4] as int * 256 + self@[5] as int,
    {
        read_u16_at(&self.bytes, 4)
    }

    /// The sequence number, from bytes 6 and 7 in network byte order.
    pub fn seq_num(&self) -> (r: u16)
        requires
            self.wf(),
        ensures
            r as int == self@[6] as int * 256 + self@[7] as int,
    {
        read_u16_at(&self.bytes, 6)
    }

    /// The checksum field, from bytes 2 and 3 in network byte order.
    pub fn checksum(&self) -> (r: u16)
        requires
            self.wf(),
        ensures
            r as int == self@[2] as int * 256 + self@[3] as int,
    {
        read_u16_at(&self.bytes, 2)
    }
}

/// An echo message under construction: at least `ICMPV4_HEADER_SIZE` bytes.
pub struct Icmpv4EchoMut {
    bytes: Vec<u8>,
}

impl Icmpv4EchoMut {
    /// The bytes of the message.
    pub closed spec fn view(&self) -> Seq<u8> {
        self.bytes@
    }

    /// At least `ICMPV4_HEADER_SIZE` bytes.
    pub open spec fn wf(&self) -> bool {
        self@.len() >= ICMPV4_HEADER_SIZE
    }

    /// A zeroed buffer of the size of an echo message.
    pub fn new_bytes() -> (r: Vec<u8>)
        ensures
            r@ == Seq::new(ICMPV4_HEADER_SIZE as nat, |i: int| 0u8),
    {
        let mut bytes: Vec<u8> = Vec::new();
        while bytes.len() < ICMPV4_HEADER_SIZE
            invariant
                bytes@.len() <= ICMPV4_HEADER_SIZE,
                forall|i: int| 0 <= i < bytes@.len() ==> bytes@[i] == 0u8,
            decreases ICMPV4_HEADER_SIZE - bytes@.len(),
        {
            bytes.push(0);
        }
        assert(bytes@ =~= Seq::new(ICMPV4_HEADER_SIZE as nat, |i: int| 0u8));
        bytes
    }

    /// Takes `bytes` as an echo message to fill in.
    pub fn from_bytes(bytes: Vec<u8>) -> (r: Result<Icmpv4EchoMut, Fail>)
        ensures
            bytes@.len() < ICMPV4_HEADER_SIZE ==> r == Err::<Icmpv4EchoMut, Fail>(Fail::Malformed),
            bytes@.len() >= ICMPV4_HEADER_SIZE ==> r.is_ok() && r.unwrap()@ == bytes@ && r.unwrap().wf(),
    {
        if bytes.len() < ICMPV4_HEADER_SIZE {
            Err(Fail::Malformed)
        } else {
            Ok(Icmpv4EchoMut { bytes })
        }
    }

    /// The bytes of the whole message.
    pub fn icmpv4(&self) -> (r: &Vec<u8>)
        ensures
            r@ == self@,
    {
        &self.bytes
    }

    /// Writes the type byte for `value`; the code byte stays as it is.
    pub fn set_echo_type(&mut self, value: Icmpv4EchoType)
        requires
            old(self).wf(),
        ensures
            final(self).wf(),
            final(self)@ == old(self)@.update(
                0,
                match value {
                    Icmpv4EchoType::Request => ECHO_REQUEST,
                    Icmpv4EchoType::Reply => ECHO_REPLY,
                },
            ),
    {
        let t = match value {
            Icmpv4EchoType::Request => ECHO_REQUEST,
            Icmpv4EchoType::Reply => ECHO_REPLY,
        };
        self.bytes.set(0, t);
    }

    /// Writes the identifier to bytes 4 and 5 in network byte order.
    pub fn id(&mut self, value: u16)
        requires
            old(self).wf(),
        ensures
            final(self).wf(),
            final(self)@ == old(self)@.update(4, (value / 256) as u8).update(5, (value % 256) as u8),
    {
        write_u16_at(&mut self.bytes, 4, value);
    }

    /// Writes the sequence number to bytes 6 and 7 in network byte order.
    pub fn seq_num(&mut self, value: u16)
        requires
            old(self).wf(),
        ensures
            final(self).wf(),
            final(self)@ == old(self)@.update(6, (value / 256) as u8).update(7, (value % 256) as u8),
    {
        write_u16_at(&mut self.bytes, 6, value);
    }

    /// The message as it stands, read back as a received one.
    pub fn unmut(self) -> (r: Result<Icmpv4Echo, Fail>)
        requires
            self.wf(),
        ensures
            is_echo_type(self@[0]) ==> r.is_ok() && r.unwrap()@ == self@ && r.unwrap().wf(),
            !is_echo_type(self@[0]) ==> r == Err::<Icmpv4Echo, Fail>(Fail::Unsupported),
    {
        Icmpv4Echo::try_from(self.bytes)
    }

    /// Writes the checksum into bytes 2 and 3 and reads the message back as a
    /// received one.
    pub fn seal(self) -> (r: Result<Icmpv4Echo, Fail>)
        requires
            self.wf(),
        ensures
            is_echo_type(self@[0]) ==> r.is_ok() && r.unwrap().wf() && r.unwrap()@ == self@.update(
                2,
                (checksum_of(self@) / 256) as u8,
            ).update(3, (checksum_of(self@) % 256) as u8),
            !is_echo_type(self@[0]) ==> r == Err::<Icmpv4Echo, Fail>(Fail::Unsupported),
    {
        let mut bytes = self.bytes;
        let sum = compute_checksum(&bytes);
        write_u16_at(&mut bytes, 2, sum);
        Icmpv4Echo::try_from(bytes)
    }
}

} // verus!
