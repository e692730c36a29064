use opus_dec::packet::Mode;
use opus_dec::util::div_rem;
use opus_dec::util::log2lin;
use opus_dec::packet::Packet;
use opus_dec::packet::PacketErrorKind;
use opus_dec::types::Bandwidth;
use opus_dec::types::Channels;
use opus_dec::types::FrameSize;

/// The closed-form configuration table: (mode, bandwidth, frame duration)
/// for each 5-bit configuration number.
fn expected_config(config: u8) -> (Mode, Bandwidth, FrameSize) {
    if config >= 16 {
        let bw = match (config / 4) % 4 {
            0 => Bandwidth::Narrow,
            1 => Bandwidth::Wide,
            2 => Bandwidth::SuperWide,
            _ => Bandwidth::Full,
        };
        let fs = match config % 4 {
            0 => FrameSize::Ms2_5,
            1 => FrameSize::Ms5,
            2 => FrameSize::Ms10,
            _ => FrameSize::Ms20,
        };
        (Mode::Celt, bw, fs)
    } else if config >= 12 {
        let bw = if (config / 2) % 2 == 0 {
            Bandwidth::SuperWide
        } else {
            Bandwidth::Full
        };
        let fs = if config % 2 == 0 {
            FrameSize::Ms10
        } else {
            FrameSize::Ms20
        };
        (Mode::Hybrid, bw, fs)
    } else {
        let bw = match (config / 4) % 4 {
            0 => Bandwidth::Narrow,
            1 => Bandwidth::Medium,
            _ => Bandwidth::Wide,
        };
        let fs = match config % 4 {
            0 => FrameSize::Ms10,
            1 => FrameSize::Ms20,
            2 => FrameSize::Ms40,
            _ => FrameSize::Ms60,
        };
        (Mode::Silk, bw, fs)
    }
}

#[test]
fn toc_table_exhaustive() {
    for config in 0u8..32 {
        for ch in 0u8..2 {
            let toc = config * 8 + ch * 4;
            let data = [toc];
            let packet = Packet::read(&data).unwrap();
            let (mode, bw, fs) = expected_config(config);
            assert_eq!(packet.mode, mode);
            assert_eq!(packet.bandwidth, bw);
            assert_eq!(packet.frame_size, fs);
            let channels = if ch == 1 {
                Channels::Stereo
            } else {
                Channels::Mono
            };
            assert_eq!(packet.channels, channels);
        }
    }
}

#[test]
fn read_empty_fails() {
    let data: [u8; 0] = [];
    let err = Packet::read(&data).unwrap_err();
    assert_eq!(err, PacketErrorKind::InvalidLength);
}

#[test]
fn single_frame_over_cap_fails() {
    let data = vec![0u8; 1277];
    let err = Packet::read(&data).unwrap_err();
    assert_eq!(err, PacketErrorKind::InvalidLength);
}

#[test]
fn single_frame_at_cap_parses() {
    let data = vec![0u8; 1276];
    assert!(Packet::read(&data).is_ok());
}

#[test]
fn zero_frame_count_invalid_format() {
    let data = [3u8, 0];
    let err = Packet::read(&data).unwrap_err();
    assert_eq!(err, PacketErrorKind::InvalidFormat);
}

#[test]
fn double_explicit_zero_length_is_dtx() {
    let data = [2u8, 0];
    let err = Packet::read(&data).unwrap_err();
    assert_eq!(err, PacketErrorKind::Dtx);
}

#[test]
fn double_equal_odd_payload_fails() {
    let data = [1u8, 5];
    let err = Packet::read(&data).unwrap_err();
    assert_eq!(err, PacketErrorKind::InvalidLength);
}

#[test]
fn single_frame_yields_whole_payload() {
    let data = [0u8, 1, 2, 3];
    let packet = Packet::read(&data).unwrap();
    let mut frames = packet.frames();
    assert_eq!(frames.next().unwrap(), &[1, 2, 3]);
    assert!(frames.next().is_none());
}

#[test]
fn double_equal_splits_in_half() {
    let data = [1u8, 10, 20, 30, 40];
    let packet = Packet::read(&data).unwrap();
    let mut frames = packet.frames();
    assert_eq!(frames.next().unwrap(), &[10, 20]);
    assert_eq!(frames.next().unwrap(), &[30, 40]);
    assert!(frames.next().is_none());
}

#[test]
fn double_explicit_splits_at_declared_length() {
    let data = [2u8, 2, 9, 9, 7, 7, 7];
    let packet = Packet::read(&data).unwrap();
    let mut frames = packet.frames();
    assert_eq!(frames.next().unwrap(), &[9, 9]);
    assert_eq!(frames.next().unwrap(), &[7, 7, 7]);
    assert!(frames.next().is_none());
}

#[test]
fn double_explicit_declared_too_long_fails() {
    let data = [2u8, 5, 1, 2, 3];
    let err = Packet::read(&data).unwrap_err();
    assert_eq!(err, PacketErrorKind::InvalidLength);
}

#[test]
fn cbr_cuts_equal_frames() {
    let data = [3u8, 2, 1, 2, 3, 4];
    let packet = Packet::read(&data).unwrap();
    let mut frames = packet.frames();
    assert_eq!(frames.next().unwrap(), &[1, 2]);
    assert_eq!(frames.next().unwrap(), &[3, 4]);
    assert!(frames.next().is_none());
}

#[test]
fn cbr_uneven_payload_fails() {
    let data = [3u8, 2, 1, 2, 3];
    let err = Packet::read(&data).unwrap_err();
    assert_eq!(err, PacketErrorKind::InvalidLength);
}

#[test]
fn vbr_frame_lengths_sum_to_stripped_payload() {
    // Code 3, frame count 3, padding and VBR flags set; the padding chain
    // declares 2 bytes, the two explicit lengths are 5 and 7, and the last
    // frame takes the remaining 4 bytes.
    let mut data = vec![3u8, 128 + 64 + 3, 2, 5, 7];
    for i in 0..16 {
        data.push(100 + i);
    }
    data.push(0);
    data.push(0);
    let packet = Packet::read(&data).unwrap();
    let mut frames = packet.frames();
    let mut total = 0usize;
    let mut lens = Vec::new();
    while let Some(frame) = frames.next() {
        total += frame.len();
        lens.push(frame.len());
    }
    assert_eq!(lens, vec![5, 7, 4]);
    // Payload length minus the stripped padding, exactly.
    assert_eq!(total, 16);
}

#[test]
fn vbr_two_byte_length() {
    // A first length byte of 252 combines with the next byte: 1 * 4 + 252.
    let mut data = vec![3u8, 128 + 2, 252, 1];
    for _ in 0..260 {
        data.push(9);
    }
    let packet = Packet::read(&data).unwrap();
    let mut frames = packet.frames();
    assert_eq!(frames.next().unwrap().len(), 256);
    assert_eq!(frames.next().unwrap().len(), 4);
    assert!(frames.next().is_none());
}

#[test]
fn vbr_declared_lengths_exceed_payload_fails() {
    let data = [3u8, 128 + 2, 10, 1, 2, 3];
    let err = Packet::read(&data).unwrap_err();
    assert_eq!(err, PacketErrorKind::InvalidLength);
}

#[test]
fn vbr_zero_length_byte_is_dtx() {
    let data = [3u8, 128 + 2, 0, 1, 2, 3];
    let err = Packet::read(&data).unwrap_err();
    assert_eq!(err, PacketErrorKind::Dtx);
}

#[test]
fn vbr_single_frame_without_lengths() {
    let data = [3u8, 128 + 1, 7, 8, 9];
    let packet = Packet::read(&data).unwrap();
    let mut frames = packet.frames();
    assert_eq!(frames.next().unwrap(), &[7, 8, 9]);
    assert!(frames.next().is_none());
}

#[test]
fn padding_chain_with_continuation_byte() {
    // A 255 byte continues the chain: padding is 255 + 3 = 258 bytes.
    let mut data = vec![3u8, 64 + 1, 255, 3, 50, 60];
    for _ in 0..258 {
        data.push(0);
    }
    let packet = Packet::read(&data).unwrap();
    let mut frames = packet.frames();
    assert_eq!(frames.next().unwrap(), &[50, 60]);
    assert!(frames.next().is_none());
}

#[test]
fn padding_exceeding_payload_fails() {
    let data = [3u8, 64 + 1, 5, 1, 2];
    let err = Packet::read(&data).unwrap_err();
    assert_eq!(err, PacketErrorKind::InvalidLength);
}

#[test]
fn unterminated_padding_chain_fails() {
    let data = [3u8, 64 + 1, 255, 255];
    let err = Packet::read(&data).unwrap_err();
    assert_eq!(err, PacketErrorKind::InvalidLength);
}

#[test]
fn code_three_without_count_byte_fails() {
    let data = [3u8];
    let err = Packet::read(&data).unwrap_err();
    assert_eq!(err, PacketErrorKind::InvalidLength);
}

#[test]
fn div_rem_splits_quotient_and_remainder() {
    assert_eq!(div_rem(17, 5), (3, 2));
    assert_eq!(div_rem(12, 4), (3, 0));
    assert_eq!(div_rem(3, 7), (0, 3));
}

#[test]
fn log2lin_exact_values() {
    // Whole-integer exponents carry no fractional correction.
    assert_eq!(log2lin(0), 0);
    assert_eq!(log2lin(128), 2);
    assert_eq!(log2lin(16384), 256);
    // A half-step above 2^7: 256 + (64 - 11) * 2.
    assert_eq!(log2lin(16448), 362);
}
