use micd::proto::{CodecError, Datum, MicCodec};

#[test]
fn test_proto() {
    // 20 F8 5E BE 29 D8 0A 01 01 01 1B 02 02 79 03 02 9F
    let t1 = vec![
        0x20, 0xF8, 0x5E, 0xBE, 0x29, 0xD8, 0x0A, 0x01, 0x01, 0x01, 0x1B, 0x02, 0x02, 0x79, 0x03,
        0x02, 0x9F,
    ];

    let d1 = Datum::try_from(t1.as_slice()).unwrap();
    assert!(d1.data() == (671, 633, 283));
    assert!(d1.mac == [0x20, 0xF8, 0x5E, 0xBE, 0x29, 0xD8,]);
    assert!(d1.mac_as_string() == "20:F8:5E:BE:29:D8");
}

#[test]
fn test_try_from_needs_whole_frame() {
    let short = vec![0x20, 0xF8, 0x5E, 0xBE, 0x29, 0xD8, 0x0A, 0x01];
    assert!(Datum::try_from(short.as_slice()).is_err());
    let empty: Vec<u8> = vec![];
    assert!(Datum::try_from(empty.as_slice()).is_err());
}

#[test]
fn test_codec_decode_consumes_one_frame() {
    let mut codec = MicCodec;
    let mut buf = vec![
        0x20, 0xF8, 0x5E, 0xBE, 0x29, 0xD8, 0x0A, 0x01, 0x01, 0x01, 0x1B, 0x02, 0x02, 0x79, 0x03,
        0x02, 0x9F, 0xAA, 0xBB, 0xCC,
    ];
    let frame = codec.decode(&mut buf).unwrap().unwrap();
    assert_eq!(frame.data.data(), (671, 633, 283));
    // the three trailing bytes stay buffered for the next frame
    assert_eq!(buf, vec![0xAA, 0xBB, 0xCC]);
}

#[test]
fn test_codec_decode_buffers_short_input() {
    let mut codec = MicCodec;
    let mut buf = vec![0x20, 0xF8, 0x5E];
    let r = codec.decode(&mut buf).unwrap();
    assert!(r.is_none());
    assert_eq!(buf, vec![0x20, 0xF8, 0x5E]);
}

#[test]
fn test_codec_encode_always_fails() {
    let mut codec = MicCodec;
    let mut out: Vec<u8> = Vec::new();
    let r = codec.encode(&mut out);
    assert_eq!(r, Err(CodecError::WriteUnsupported));
    assert!(out.is_empty());
}

#[test]
fn test_mac_string_rendering() {
    let d = Datum { mac: [0x00, 0x0A, 0x7F, 0xB0, 0xC5, 0xFF], ppm: 0, humidity: 0, temp: 0 };
    assert_eq!(d.mac_as_string(), "00:0A:7F:B0:C5:FF");
}
