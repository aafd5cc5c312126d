//! The store's binary message framing: handshake, outbound frames and
//! inbound responses.
use vstd::prelude::*;

verus! {

/// Failures of the store's protocol.
#[derive(Clone, Copy, Debug, PartialEq, Eq, Structural)]
pub enum ProtocolError {
    /// The connection ended before the expected bytes arrived.
    ConnectionClosed,
    /// A response header declared a length below the header's own size.
    LengthTooSmall,
}

/// Size of a message header.
pub const HEADER_LEN: usize = 8;

/// The four bytes of `v`, least significant first.
pub open spec fn le32(v: nat) -> Seq<u8> {
    seq![(v % 256) as u8, (v / 256 % 256) as u8, (v / 65536 % 256) as u8, (v / 16777216 % 256) as u8]
}

/// The number that four bytes spell, least significant first.
pub open spec fn le32_value(b: Seq<u8>) -> nat {
    (b[0] + b[1] * 256 + b[2] * 65536 + b[3] * 16777216) as nat
}

/// A fire-and-forget message carrying `cmd` as a character vector: header
/// (little-endian marker, async kind, no compression, reserved byte, total
/// length), type tag and attribute byte, the command, and a terminating zero.
pub open spec fn frame(cmd: Seq<u8>) -> Seq<u8> {
    seq![1u8, 0u8, 0u8, 0u8] + le32(cmd.len() + 9) + seq![10u8, 0u8] + cmd + seq![0u8]
}

/// Frames a command for sending.
pub fn encode_message(cmd: &[u8]) -> (r: Vec<u8>)
    requires
        cmd@.len() + 9 <= u32::MAX,
    ensures
        r@ == frame(cmd@),
{
    let total: u32 = (cmd.len() + 9) as u32;
    let mut buf: Vec<u8> = Vec::new();
    buf.push(1u8);
    buf.push(0u8);
    buf.push(0u8);
    buf.push(0u8);
    buf.push((total % 256) as u8);
    buf.push((total / 256 % 256) as u8);
    buf.push((total / 65536 % 256) as u8);
    buf.push((total / 16777216 % 256) as u8);
    buf.push(10u8);
    buf.push(0u8);
    let ghost head = buf@;
    let mut i: usize = 0;
    while i < cmd.len()
        invariant
            0 <= i <= cmd@.len(),
            buf@ == head + cmd@.subrange(0, i as int),
        decreases cmd@.len() - i,
    {
        buf.push(cmd[i]);
        i = i + 1;
        assert(cmd@.subrange(0, i as int) =~= cmd@.subrange(0, i - 1).push(cmd@[i - 1]));
    }
    buf.push(0u8);
    assert(cmd@.subrange(0, i as int) =~= cmd@);
    assert(buf@ =~= frame(cmd@));
    buf
}

/// The length of the body that follows a response header, read from the
/// total length at byte offset four.
pub open spec fn body_len_spec(header: Seq<u8>) -> Result<nat, ProtocolError> {
    let total = le32_value(header.subrange(4, 8));
    if total < 8 {
        Err(ProtocolError::LengthTooSmall)
    } else {
        Ok((total - 8) as nat)
    }
}

/// Reads how many body bytes follow a response header.
pub fn response_body_len(header: &[u8]) -> (r: Result<usize, ProtocolError>)
    requires
        header@.len() == HEADER_LEN,
    ensures
        r matches Ok(n) ==> body_len_spec(header@) == Ok::<nat, ProtocolError>(n as nat),
        r matches Err(e) ==> body_len_spec(header@) == Err::<nat, ProtocolError>(e),
{
    let total: u32 = header[4] as u32 + header[5] as u32 * 256 + header[6] as u32 * 65536
        + header[7] as u32 * 16777216;
    if total < 8 {
        Err(ProtocolError::LengthTooSmall)
    } else {
        Ok((total - 8) as usize)
    }
}

/// What a response occupies at the start of `input`: its body, and the
/// number of bytes read in all.
pub open spec fn decode_spec(input: Seq<u8>) -> Result<(Seq<u8>, nat), ProtocolError> {
    if input.len() < 8 {
        Err(ProtocolError::ConnectionClosed)
    } else {
        match body_len_spec(input.subrange(0, 8)) {
            Err(e) => Err(e),
            Ok(n) => if input.len() < 8 + n {
                Err(ProtocolError::ConnectionClosed)
            } else {
                Ok((input.subrange(8, 8 + n as int), (8 + n) as nat))
            },
        }
    }
}

/// Decodes one response from the bytes that a connection yields: the header,
/// then exactly the body that it declares. Bytes after it are left unread.
pub fn decode_response(input: &[u8]) -> (r: Result<(Vec<u8>, usize), ProtocolError>)
    ensures
        r matches Ok((body, used)) ==> decode_spec(input@) == Ok::<(Seq<u8>, nat), ProtocolError>(
            (body@, used as nat),
        ),
        r matches Err(e) ==> decode_spec(input@) == Err::<(Seq<u8>, nat), ProtocolError>(e),
{
    if input.len() < HEADER_LEN {
        return Err(ProtocolError::ConnectionClosed);
    }
    let mut header: Vec<u8> = Vec::new();
    let mut i: usize = 0;
    while i < HEADER_LEN
        invariant
            0 <= i <= HEADER_LEN <= input@.len(),
            header@ == input@.subrange(0, i as int),
        decreases HEADER_LEN - i,
    {
        header.push(input[i]);
        i = i + 1;
        assert(input@.subrange(0, i as int) =~= input@.subrange(0, i - 1).push(input@[i - 1]));
    }
    let n = match response_body_len(header.as_slice()) {
        Ok(n) => n,
        Err(e) => {
            return Err(e);
        },
    };
    if input.len() - HEADER_LEN < n {
        return Err(ProtocolError::ConnectionClosed);
    }
    let end: usize = HEADER_LEN + n;
    let mut body: Vec<u8> = Vec::new();
    let mut k: usize = HEADER_LEN;
    while k < end
        invariant
            8 <= k <= end,
            end == 8 + n,
            end <= input@.len(),
            body@ == input@.subrange(8, k as int),
        decreases end - k,
    {
        body.push(input[k]);
        k = k + 1;
        assert(input@.subrange(8, k as int) =~= input@.subrange(8, k - 1).push(input@[k - 1]));
    }
    Ok((body, end))
}

/// The handshake's opening: an empty credential, a single zero byte.
pub fn handshake_request() -> (r: Vec<u8>)
    ensures
        r@ == seq![0u8],
{
    let mut r: Vec<u8> = Vec::new();
    r.push(0u8);
    r
}

/// Reads the handshake's reply: the capability byte, the first byte that
/// arrived.
pub fn handshake_reply(received: &[u8]) -> (r: Result<u8, ProtocolError>)
    ensures
        received@.len() == 0 <==> r == Err::<u8, ProtocolError>(ProtocolError::ConnectionClosed),
        received@.len() > 0 ==> r == Ok::<u8, ProtocolError>(received@[0]),
{
    if received.len() == 0 {
        Err(ProtocolError::ConnectionClosed)
    } else {
        Ok(received[0])
    }
}

/// The length field of a frame of a command of `L` bytes, bytes four to
/// seven read little-endian, holds `8 + L + 1`; the frame itself carries two
/// more bytes, the type tag and the attribute byte.
pub proof fn lemma_frame_length_field(cmd: Seq<u8>)
    requires
        cmd.len() + 9 <= u32::MAX,
    ensures
        frame(cmd).len() == 8 + 2 + cmd.len() + 1,
        le32_value(frame(cmd).subrange(4, 8)) == 8 + cmd.len() + 1,
{
    let t = cmd.len() + 9;
    let a = seq![1u8, 0u8, 0u8, 0u8];
    let c = seq![10u8, 0u8];
    let z = seq![0u8];
    assert(a.len() == 4 && c.len() == 2 && z.len() == 1 && le32(t).len() == 4);
    assert(frame(cmd) == a + le32(t) + c + cmd + z);
    assert(frame(cmd).subrange(4, 8) =~= le32(t));
    assert((t % 256) + (t / 256 % 256) * 256 + (t / 65536 % 256) * 65536 + (t / 16777216 % 256)
        * 16777216 == t) by (nonlinear_arith)
        requires
            0 <= t <= u32::MAX,
    ;
}

/// Decoding reads the header and exactly the body that it declares, whatever
/// further bytes the connection holds.
pub proof fn lemma_decode_reads_declared(input: Seq<u8>, extra: Seq<u8>)
    requires
        decode_spec(input) is Ok,
    ensures
        decode_spec(input + extra) == decode_spec(input),
        decode_spec(input)->Ok_0.1 == 8 + decode_spec(input)->Ok_0.0.len(),
        decode_spec(input)->Ok_0.0.len() == body_len_spec(input.subrange(0, 8))->Ok_0,
{
    let all = input + extra;
    assert(all.subrange(0, 8) =~= input.subrange(0, 8));
    let n = body_len_spec(input.subrange(0, 8))->Ok_0;
    assert(all.subrange(8, 8 + n as int) =~= input.subrange(8, 8 + n as int));
}

} // verus!
