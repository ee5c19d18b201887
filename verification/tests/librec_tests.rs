use librec::bit_stream::BitStream;
use librec::error::CodecError;
use librec::recording::{decode_angle, encode_angle, Frame, Move, Recording};
use librec::tas_rec::TasFile;
use librec::timefmt::format_time;
use librec::{decode_recording, encode_recording, recording_to_tasfile, tasfile_to_recording};

fn no_move_frame(delta: u16) -> Frame {
    Frame {
        moves: [None, None],
        delta,
    }
}

fn sample_move() -> Move {
    Move {
        yaw: Some(123),
        pitch: Some(65000),
        roll: Some(0),
        mx: 0,
        my: 16,
        mz: 63,
        freelook: true,
        triggers: [true, false, false, true, false, true],
    }
}

#[test]
fn bit_roundtrip_all_widths_and_offsets() {
    for n in 1..=64u8 {
        let v: u64 = if n == 64 {
            0x0123_4567_89AB_CDEF
        } else {
            (1u64 << n) - 1
        };
        for off in 0..8u8 {
            let mut bs = BitStream::new(Vec::new());
            if off > 0 {
                bs.write_bits_u8(0, off).unwrap();
            }
            bs.write_bits_u64(v, n).unwrap();
            let mut rd = BitStream::new(bs.bytes());
            rd.seek(0, off);
            assert_eq!(rd.read_bits_u64(n).unwrap(), v);
        }
    }
}

#[test]
fn bit_roundtrip_narrow_widths() {
    let mut bs = BitStream::new(Vec::new());
    bs.write_bits_u8(0b101, 3).unwrap();
    bs.write_bits_u16(0x2AA, 10).unwrap();
    bs.write_bits_u32(0xBEEF, 17).unwrap();
    bs.write_bool(true).unwrap();
    let mut rd = BitStream::new(bs.bytes());
    assert_eq!(rd.read_bits_u8(3).unwrap(), 0b101);
    assert_eq!(rd.read_bits_u16(10).unwrap(), 0x2AA);
    assert_eq!(rd.read_bits_u32(17).unwrap(), 0xBEEF);
    assert!(rd.read_bool().unwrap());
}

#[test]
fn read_too_many_bits_is_range_error() {
    let mut bs = BitStream::new(vec![1, 2, 3]);
    assert_eq!(bs.read_bits_u8(9).unwrap_err(), CodecError::BitRange);
    assert_eq!(bs.read_bits_u16(17).unwrap_err(), CodecError::BitRange);
}

#[test]
fn read_past_end_is_end_of_data() {
    let mut bs = BitStream::new(vec![0xFF]);
    assert_eq!(bs.read_bits_u8(8).unwrap(), 0xFF);
    assert_eq!(bs.read_bits_u8(1).unwrap_err(), CodecError::EndOfData);
}

#[test]
fn write_value_over_width_is_range_error() {
    let mut bs = BitStream::new(Vec::new());
    assert_eq!(bs.write_bits_u8(8, 3).unwrap_err(), CodecError::BitRange);
    assert_eq!(bs.write_bits_u16(1024, 10).unwrap_err(), CodecError::BitRange);
    assert!(bs.write_bits_u8(7, 3).is_ok());
}

#[test]
fn string_roundtrip_through_stream() {
    let mut bs = BitStream::new(Vec::new());
    bs.write_string(String::from("héllo")).unwrap();
    let mut rd = BitStream::new(bs.bytes());
    assert_eq!(rd.read_string().unwrap(), "héllo");
}

#[test]
fn invalid_utf8_mission_is_utf8_error() {
    // length 2, then an invalid UTF-8 byte pair
    let bytes = vec![2, 0xFF, 0xFE];
    assert_eq!(decode_recording(bytes).unwrap_err(), CodecError::Utf8);
}

#[test]
fn empty_input_is_end_of_data() {
    assert_eq!(decode_recording(Vec::new()).unwrap_err(), CodecError::EndOfData);
}

#[test]
fn binary_example_single_padded_frame() {
    // mission "Test Mission", one frame with no moves and delta 16:
    // length byte, ASCII mission, frame length 4, two absent-move bits then
    // the 10-bit delta packed low-bit-first, zero padding to four bytes
    let rec = Recording {
        mission: String::from("Test Mission"),
        frames: vec![no_move_frame(16)],
    };
    let bytes = encode_recording(rec);
    let mut expected = vec![12u8];
    expected.extend_from_slice(b"Test Mission");
    // delta 16 shifted up past the two presence bits: bit 6 of the blob
    expected.extend_from_slice(&[4, 0x40, 0x00, 0x00, 0x00]);
    assert_eq!(bytes, expected);

    // a terminating zero length byte is accepted on decode
    let mut with_term = bytes.clone();
    with_term.push(0);
    let back = decode_recording(with_term).unwrap();
    assert_eq!(back.mission, "Test Mission");
    assert_eq!(back.frames, vec![no_move_frame(16)]);
}

#[test]
fn short_frame_pads_to_exactly_four_bytes() {
    let rec = Recording {
        mission: String::from("m"),
        frames: vec![no_move_frame(1)],
    };
    let bytes = encode_recording(rec);
    // 1 length byte + 1 mission byte + 1 frame length byte + 4 blob bytes
    assert_eq!(bytes.len(), 7);
    assert_eq!(bytes[2], 4);
    let back = decode_recording(bytes).unwrap();
    assert_eq!(back.frames, vec![no_move_frame(1)]);
}

#[test]
fn recording_roundtrip_with_moves() {
    let frame_a = Frame {
        moves: [Some(sample_move()), None],
        delta: 1023,
    };
    let frame_b = Frame {
        moves: [None, Some(sample_move())],
        delta: 0,
    };
    let rec = Recording {
        mission: String::from("Great Divide"),
        frames: vec![frame_a, no_move_frame(33), frame_b],
    };
    let bytes = encode_recording(rec.clone());
    let back = decode_recording(bytes).unwrap();
    assert_eq!(back, rec);
}

#[test]
fn truncated_last_frame_yields_prefix_without_error() {
    let rec = Recording {
        mission: String::from("Trunc"),
        frames: vec![no_move_frame(5), no_move_frame(7), no_move_frame(9)],
    };
    let bytes = encode_recording(rec);
    // cut inside the last frame's blob, after its length byte
    let cut = bytes.len() - 2;
    let back = decode_recording(bytes[..cut].to_vec()).unwrap();
    assert_eq!(back.mission, "Trunc");
    assert_eq!(back.frames, vec![no_move_frame(5), no_move_frame(7)]);
}

#[test]
fn angle_units_roundtrip_exactly() {
    for raw in [0u16, 1, 123, 32767, 32768, 40000, 65535] {
        let units = decode_angle(raw);
        assert!((-32768..=32767).contains(&units));
        assert_eq!(encode_angle(units), raw);
    }
    assert_eq!(decode_angle(0), 0);
    assert_eq!(decode_angle(65535), -1);
    assert_eq!(decode_angle(32768), -32768);
}

#[test]
fn run_of_no_move_frames_renders_as_one_statement() {
    let rec = Recording {
        mission: String::from("Compact"),
        frames: vec![no_move_frame(33); 5],
    };
    let tf = recording_to_tasfile(rec);
    let text = tf.print();
    // one compacted statement with its cumulative elapsed-time comment
    assert!(text.contains("      frames 5 33 ms // 33 -> 165\n"));
    assert!(!text.contains("frame 33 ms"));
    assert_eq!(text.matches("frames").count(), 1);

    let back = TasFile::parse(text).unwrap();
    let rec2 = tasfile_to_recording(back);
    assert_eq!(rec2.frames, vec![no_move_frame(33); 5]);
    assert!(rec2.frames.iter().all(|f| f.moves == [None, None]));
}

#[test]
fn lone_no_move_frame_renders_as_frame_statement() {
    let rec = Recording {
        mission: String::from("Single"),
        frames: vec![no_move_frame(16), no_move_frame(20)],
    };
    let text = recording_to_tasfile(rec).print();
    assert!(text.contains("frame 16 ms"));
    assert!(text.contains("frame 20 ms"));
    assert!(!text.contains("frames "));
}

#[test]
fn moveframe_roundtrips_through_text() {
    let mv = sample_move();
    let frame = Frame {
        moves: [Some(mv), None],
        delta: 100,
    };
    let rec = Recording {
        mission: String::from("Moves"),
        frames: vec![frame, no_move_frame(8)],
    };
    let text = recording_to_tasfile(rec.clone()).print();
    assert!(text.contains("moveframe 100 ms"));
    let back = tasfile_to_recording(TasFile::parse(text).unwrap());
    assert_eq!(back.frames, rec.frames);
}

#[test]
fn parse_frames_without_delta_defaults_to_one() {
    let text = String::from("{ \"m\" { \"s\" frames 3 } }");
    let tf = TasFile::parse(text).unwrap();
    assert_eq!(tf.mission, "m");
    assert_eq!(tf.sequences.len(), 1);
    assert_eq!(tf.sequences[0].frames, vec![no_move_frame(1); 3]);
}

#[test]
fn parse_error_carries_rule_context() {
    let err = TasFile::parse(String::from("{ \"m\" { \"s\" frames x } }")).unwrap_err();
    assert!(!err.context.is_empty());

    let err2 = TasFile::parse(String::from("not a script")).unwrap_err();
    assert!(!err2.context.is_empty());
}

#[test]
fn comments_are_stripped_also_inside_strings() {
    let text = String::from("{ \"m\" { \"s\" frame 5 ms // trailing words\n } }");
    let tf = TasFile::parse(text).unwrap();
    assert_eq!(tf.sequences[0].frames, vec![no_move_frame(5)]);

    // the known limitation: a comment marker inside a quoted string is
    // stripped too, eating the rest of the line
    let tricky = String::from("{ \"a//b\" }");
    assert!(TasFile::parse(tricky).is_err());
}

#[test]
fn escape_quotes_and_backslashes() {
    assert_eq!(TasFile::escape("plain"), "\"plain\"");
    assert_eq!(TasFile::escape("a\"b"), "\"a\\\"b\"");
    assert_eq!(TasFile::escape("a\\b"), "\"a\\\\b\"");
}

#[test]
fn imported_recording_becomes_single_sequence() {
    let rec = Recording {
        mission: String::from("Imp"),
        frames: vec![no_move_frame(2), no_move_frame(3)],
    };
    let tf = recording_to_tasfile(rec.clone());
    assert_eq!(tf.sequences.len(), 1);
    assert_eq!(tf.sequences[0].name, "Imported");
    assert_eq!(tasfile_to_recording(tf), rec);
}

#[test]
fn format_time_pads_fields() {
    assert_eq!(format_time(83123), "01:23.123");
    assert_eq!(format_time(0), "00:00.000");
    assert_eq!(format_time(-61001), "-01:01.001");
    assert_eq!(format_time(3600000), "60:00.000");
}

#[test]
fn optional_values_roundtrip() {
    let mut bs = BitStream::new(Vec::new());
    bs.write_optional(Some(0x55u8), |s: BitStream, v: u8| {
        let mut s = s;
        let r = s.write_bits_u8(v, 7);
        (s, r)
    })
    .unwrap();
    bs.write_optional(None::<u8>, |s: BitStream, v: u8| {
        let mut s = s;
        let r = s.write_bits_u8(v, 7);
        (s, r)
    })
    .unwrap();
    let mut rd = BitStream::new(bs.bytes());
    let first = rd
        .read_optional(|s: BitStream| {
            let mut s = s;
            let r = s.read_bits_u8(7);
            (s, r)
        })
        .unwrap();
    assert_eq!(first, Some(0x55));
    let second = rd
        .read_optional(|s: BitStream| {
            let mut s = s;
            let r = s.read_bits_u8(7);
            (s, r)
        })
        .unwrap();
    assert_eq!(second, None);
}
