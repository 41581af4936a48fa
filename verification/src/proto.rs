//! The fixed-length sensor frame and its decoder.
//!
//! Every frame is exactly 17 bytes: a six-byte sensor identity, then
//! temperature, humidity and CO2 ppm as big-endian 16-bit integers at
//! fixed offsets, with unused filler bytes between them. There is no
//! checksum: any 17-byte window decodes. Writing frames back to a
//! sensor is not supported by the protocol and always fails.

use vstd::prelude::*;

verus! {

/// Every frame is 17 bytes long.
pub const FRAME_LEN: usize = 17;

/// The value of a big-endian 16-bit field.
pub open spec fn be16(hi: u8, lo: u8) -> int {
    hi as int * 256 + lo as int
}

/// The frame layout: `d` holds exactly the fields encoded in `b`.
pub open spec fn decodes_to(b: Seq<u8>, d: Datum) -> bool {
    &&& d.mac@ == b.subrange(0, 6)
    &&& d.temp as int == be16(b[9], b[10])
    &&& d.humidity as int == be16(b[12], b[13])
    &&& d.ppm as int == be16(b[15], b[16])
}

/// `b` is a well-formed frame carrying the given identity and readings.
pub open spec fn encodes(b: Seq<u8>, mac: Seq<u8>, temp: u16, humidity: u16, ppm: u16) -> bool {
    &&& b.len() == 17
    &&& b.subrange(0, 6) == mac
    &&& temp as int == be16(b[9], b[10])
    &&& humidity as int == be16(b[12], b[13])
    &&& ppm as int == be16(b[15], b[16])
}

/// One decoded sensor reading: identity plus the three metrics, in
/// tenths of a degree, tenths of a percent, and parts per million.
#[derive(Clone, Copy, Debug, PartialEq)]
pub struct Datum {
    pub mac: [u8; 6],
    pub ppm: u16,
    pub humidity: u16,
    pub temp: u16,
}

/// One frame as handed to the store path.
#[derive(Clone, Copy, Debug)]
pub struct MicFrame {
    pub data: Datum,
}

/// Decoder state for the sensor datagram protocol (the protocol is
/// stateless, so the codec carries no fields).
pub struct MicCodec;

/// The error produced when a write towards a sensor is attempted.
#[derive(Clone, Copy, Debug, PartialEq, Eq, Structural)]
pub enum CodecError {
    WriteUnsupported,
}

impl Datum {
    /// Decode a frame from a byte window. Succeeds exactly when at
    /// least one whole frame is present; bytes past the frame are
    /// ignored.
    pub fn try_from(value: &[u8]) -> (r: Result<Datum, ()>)
        ensures
            r.is_ok() <==> value@.len() >= 17,
            r matches Ok(d) ==> decodes_to(value@, d),
    {
        if value.len() < FRAME_LEN {
            return Err(());
        }
        let mac: [u8; 6] = [value[0], value[1], value[2], value[3], value[4], value[5]];
        let temp: u16 = value[9] as u16 * 256 + value[10] as u16;
        let humidity: u16 = value[12] as u16 * 256 + value[13] as u16;
        let ppm: u16 = value[15] as u16 * 256 + value[16] as u16;
        proof {
            assert(mac@ =~= value@.subrange(0, 6));
        }
        Ok(Datum { mac, ppm, humidity, temp })
    }

    /// The three readings, as `(ppm, humidity, temp)`.
    pub fn data(&self) -> (r: (u16, u16, u16))
        ensures
            r == (self.ppm, self.humidity, self.temp),
    {
        (self.ppm, self.humidity, self.temp)
    }

    /// The canonical rendering of the sensor identity:
    /// colon-separated uppercase hex pairs.
    pub fn mac_as_string(&self) -> (r: String)
        ensures
            r@ == mac_string_spec(self.mac@),
    {
        mac_string(&self.mac)
    }
}

/// The character for one hex digit, uppercase.
pub open spec fn hex_digit_char(v: int) -> char {
    if v == 0 {
        '0'
    } else if v == 1 {
        '1'
    } else if v == 2 {
        '2'
    } else if v == 3 {
        '3'
    } else if v == 4 {
        '4'
    } else if v == 5 {
        '5'
    } else if v == 6 {
        '6'
    } else if v == 7 {
        '7'
    } else if v == 8 {
        '8'
    } else if v == 9 {
        '9'
    } else if v == 10 {
        'A'
    } else if v == 11 {
        'B'
    } else if v == 12 {
        'C'
    } else if v == 13 {
        'D'
    } else if v == 14 {
        'E'
    } else {
        'F'
    }
}

/// Two uppercase hex digits for one byte.
pub open spec fn byte_hex(b: int) -> Seq<char> {
    seq![hex_digit_char(b / 16), hex_digit_char(b % 16)]
}

/// The colon separator between identity bytes.
pub open spec fn sep() -> Seq<char> {
    seq![':']
}

/// The canonical identity string for six identity bytes.
pub open spec fn mac_string_spec(m: Seq<u8>) -> Seq<char> {
    byte_hex(m[0] as int) + sep() + byte_hex(m[1] as int) + sep() + byte_hex(m[2] as int) + sep()
        + byte_hex(m[3] as int) + sep() + byte_hex(m[4] as int) + sep() + byte_hex(m[5] as int)
}

fn hex_str(v: u8) -> (r: &'static str)
    requires
        v < 16,
    ensures
        r@ == seq![hex_digit_char(v as int)],
{
    let r: &'static str = if v == 0 {
        "0"
    } else if v == 1 {
        "1"
    } else if v == 2 {
        "2"
    } else if v == 3 {
        "3"
    } else if v == 4 {
        "4"
    } else if v == 5 {
        "5"
    } else if v == 6 {
        "6"
    } else if v == 7 {
        "7"
    } else if v == 8 {
        "8"
    } else if v == 9 {
        "9"
    } else if v == 10 {
        "A"
    } else if v == 11 {
        "B"
    } else if v == 12 {
        "C"
    } else if v == 13 {
        "D"
    } else if v == 14 {
        "E"
    } else {
        "F"
    };
    proof {
        reveal_strlit("0");
        reveal_strlit("1");
        reveal_strlit("2");
        reveal_strlit("3");
        reveal_strlit("4");
        reveal_strlit("5");
        reveal_strlit("6");
        reveal_strlit("7");
        reveal_strlit("8");
        reveal_strlit("9");
        reveal_strlit("A");
        reveal_strlit("B");
        reveal_strlit("C");
        reveal_strlit("D");
        reveal_strlit("E");
        reveal_strlit("F");
        assert(r@ =~= seq![hex_digit_char(v as int)]);
    }
    r
}

fn append_hex(s: &mut String, b: u8)
    ensures
        final(s)@ == old(s)@ + byte_hex(b as int),
{
    let hi = b / 16;
    let lo = b % 16;
    s.append(hex_str(hi));
    s.append(hex_str(lo));
    proof {
        assert(s@ =~= old(s)@ + byte_hex(b as int));
    }
}

/// Render six identity bytes as the canonical colon-separated
/// uppercase hex string.
pub fn mac_string(mac: &[u8; 6]) -> (r: String)
    ensures
        r@ == mac_string_spec(mac@),
{
    let mut s = String::new();
    append_hex(&mut s, mac[0]);
    s.append(":");
    append_hex(&mut s, mac[1]);
    s.append(":");
    append_hex(&mut s, mac[2]);
    s.append(":");
    append_hex(&mut s, mac[3]);
    s.append(":");
    append_hex(&mut s, mac[4]);
    s.append(":");
    append_hex(&mut s, mac[5]);
    proof {
        reveal_strlit(":");
        assert(":"@ =~= sep());
        assert(s@ =~= mac_string_spec(mac@));
    }
    s
}

impl MicCodec {
    /// Take one frame off the front of the receive buffer. With fewer
    /// than 17 bytes buffered there is no frame yet and the buffer is
    /// left alone; otherwise the first 17 bytes are consumed and
    /// decoded. Content alone can never be rejected, so this returns
    /// an error on no input.
    pub fn decode(&mut self, src: &mut Vec<u8>) -> (r: Result<Option<MicFrame>, ()>)
        ensures
            old(src)@.len() < 17 ==> (r matches Ok(None)) && final(src)@ == old(src)@,
            old(src)@.len() >= 17 ==> (r matches Ok(Some(f)) && decodes_to(
                old(src)@.take(17),
                f.data,
            ) && final(src)@ == old(src)@.skip(17)),
    {
        if src.len() < FRAME_LEN {
            return Ok(None);
        }
        let ghost orig = src@;
        let datum = match Datum::try_from(src.as_slice()) {
            Ok(d) => d,
            Err(()) => {
                return Err(());
            },
        };
        proof {
            assert(orig.subrange(0, 6) =~= orig.take(17).subrange(0, 6));
            assert(decodes_to(orig.take(17), datum));
        }
        let mut rest: Vec<u8> = Vec::new();
        let mut i: usize = FRAME_LEN;
        while i < src.len()
            invariant
                17 <= i <= src@.len(),
                src@ == orig,
                rest@ == orig.subrange(17, i as int),
            decreases src@.len() - i,
        {
            rest.push(src[i]);
            proof {
                assert(rest@ =~= orig.subrange(17, i + 1));
            }
            i = i + 1;
        }
        *src = rest;
        proof {
            assert(src@ =~= orig.skip(17));
        }
        Ok(Some(MicFrame { data: datum }))
    }

    /// Writing towards a sensor is not supported for this protocol:
    /// every attempt fails and leaves the output buffer untouched.
    pub fn encode(&mut self, dst: &mut Vec<u8>) -> (r: Result<(), CodecError>)
        ensures
            r == Result::<(), CodecError>::Err(CodecError::WriteUnsupported),
            final(dst)@ == old(dst)@,
    {
        Err(CodecError::WriteUnsupported)
    }
}

/// Round trip: a frame that encodes a given identity and readings
/// decodes back to exactly those values. (The write direction has no
/// round trip: `MicCodec::encode` always fails.)
pub proof fn lemma_decode_round_trip(
    b: Seq<u8>,
    mac: Seq<u8>,
    temp: u16,
    humidity: u16,
    ppm: u16,
    d: Datum,
)
    requires
        encodes(b, mac, temp, humidity, ppm),
        decodes_to(b, d),
    ensures
        d.mac@ == mac,
        d.temp == temp,
        d.humidity == humidity,
        d.ppm == ppm,
{
}

} // verus!
