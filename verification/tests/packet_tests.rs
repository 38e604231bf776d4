use deejx::packet::{build, PacketDecoder, Stage, PACKET_HEADER};

#[test]
fn build_empty_packet() {
    assert_eq!(build(&[]), vec![0xAA, 0, 0]);
}

#[test]
fn build_two_sliders() {
    // count 2, values 0x0102 and 0x0304 little endian, checksum 2^2^1^4^3 = 6
    assert_eq!(build(&[0x0102, 0x0304]), vec![0xAA, 2, 0x02, 0x01, 0x04, 0x03, 6]);
}

#[test]
fn build_uses_to_le_bytes() {
    let values = [0u16, 1, 255, 256, 2047, 65535];
    let packet = build(&values);
    assert_eq!(packet[0], PACKET_HEADER);
    assert_eq!(packet[1], values.len() as u8);
    let mut expected_checksum = values.len() as u8;
    for (i, v) in values.iter().enumerate() {
        let bytes = v.to_le_bytes();
        assert_eq!(packet[2 + 2 * i], bytes[0]);
        assert_eq!(packet[3 + 2 * i], bytes[1]);
        expected_checksum ^= bytes[0] ^ bytes[1];
    }
    assert_eq!(*packet.last().unwrap(), expected_checksum);
    assert_eq!(packet.len(), 2 * values.len() + 3);
}

#[test]
fn build_count_wraps_past_255() {
    let values = vec![7u16; 256];
    let packet = build(&values);
    assert_eq!(packet[1], 0);
    assert_eq!(packet.len(), 2 * 256 + 3);
}

#[test]
fn decoder_reads_back_built_packet() {
    let values = vec![0u16, 1023, 2047, 12, 500];
    let mut decoder = PacketDecoder::new();
    let packets = decoder.feed(&build(&values));
    assert_eq!(packets, vec![values]);
    assert_eq!(decoder.stage(), Stage::Header);
}

#[test]
fn decoder_reads_empty_packet() {
    let mut decoder = PacketDecoder::new();
    assert_eq!(decoder.feed(&build(&[])), vec![Vec::<u16>::new()]);
}

#[test]
fn decoder_emits_on_last_byte_only() {
    let packet = build(&[300, 400]);
    let mut decoder = PacketDecoder::new();
    for (i, byte) in packet.iter().enumerate() {
        let out = decoder.push(*byte);
        if i + 1 < packet.len() {
            assert_eq!(out, None);
        } else {
            assert_eq!(out, Some(vec![300, 400]));
        }
    }
}

#[test]
fn decoder_stages() {
    let mut decoder = PacketDecoder::new();
    assert_eq!(decoder.stage(), Stage::Header);
    decoder.push(0x10);
    assert_eq!(decoder.stage(), Stage::Header);
    decoder.push(0xAA);
    assert_eq!(decoder.stage(), Stage::Count);
    decoder.push(1);
    assert_eq!(decoder.stage(), Stage::Payload);
}

#[test]
fn decoder_skips_noise_before_header() {
    let mut stream = vec![0x00, 0x13, 0xFF, 0x42];
    stream.extend(build(&[1000, 2000]));
    let mut decoder = PacketDecoder::new();
    assert_eq!(decoder.feed(&stream), vec![vec![1000, 2000]]);
}

#[test]
fn decoder_drops_bad_checksum_and_recovers() {
    let mut bad = build(&[5, 6, 7]);
    let last = bad.len() - 1;
    bad[last] ^= 0x01;
    let mut stream = bad.clone();
    stream.extend(build(&[8, 9]));
    let mut decoder = PacketDecoder::new();
    assert_eq!(decoder.feed(&bad), Vec::<Vec<u16>>::new());
    assert_eq!(decoder.stage(), Stage::Header);
    let mut decoder = PacketDecoder::new();
    assert_eq!(decoder.feed(&stream), vec![vec![8, 9]]);
}

#[test]
fn decoder_reads_stream_of_packets() {
    let a = vec![1u16, 2, 3];
    let b = vec![65535u16];
    let c = vec![];
    let mut stream = build(&a);
    stream.extend(build(&b));
    stream.extend(build(&c));
    let mut decoder = PacketDecoder::new();
    assert_eq!(decoder.feed(&stream), vec![a, b, c]);
}

#[test]
fn decoder_keeps_state_across_chunks() {
    let packet = build(&[111, 222]);
    let mut decoder = PacketDecoder::new();
    assert_eq!(decoder.feed(&packet[..3]), Vec::<Vec<u16>>::new());
    assert_eq!(decoder.stage(), Stage::Payload);
    assert_eq!(decoder.feed(&packet[3..]), vec![vec![111, 222]]);
}

#[test]
fn emitted_packet_is_the_frame_that_was_read() {
    let mut stream = vec![0xAA, 0x01, 0x05, 0x00];
    // a well-formed packet follows some partial garbage that starts a bogus packet
    // of one value: its checksum byte is taken from the next packet's header and fails
    let packet = build(&[42, 43]);
    stream.extend(packet.iter());
    stream.extend(build(&[9]));
    let mut decoder = PacketDecoder::new();
    let out = decoder.feed(&stream);
    for values in &out {
        let framed = build(values);
        assert!(stream.windows(framed.len()).any(|w| w == framed.as_slice()));
    }
    assert_eq!(out.last(), Some(&vec![9]));
}
