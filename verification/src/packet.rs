//! The serial wire format between the board and the driver.
//!
//! A packet is `[0xAA] [count] [slider 0 lo, hi] ... [slider count-1 lo, hi] [checksum]`,
//! where every slider value is a little-endian `u16` and the checksum is the XOR of
//! the count byte and all value bytes (the header is not covered).
use vstd::prelude::*;

verus! {

/// First byte of every packet.
pub const PACKET_HEADER: u8 = 0xAA;

/// The two little-endian bytes of a value.
pub open spec fn le_bytes(v: u16) -> Seq<u8> {
    seq![(v % 256) as u8, (v / 256) as u8]
}

/// The value bytes of a packet: each value as two little-endian bytes, in order.
pub open spec fn encode_values(values: Seq<u16>) -> Seq<u8>
    decreases values.len(),
{
    if values.len() == 0 {
        seq![]
    } else {
        encode_values(values.drop_last()) + le_bytes(values.last())
    }
}

/// Reads consecutive little-endian byte pairs back as values.
pub open spec fn decode_values(bytes: Seq<u8>) -> Seq<u16> {
    Seq::new(bytes.len() / 2, |i: int| (bytes[2 * i] + 256 * bytes[2 * i + 1]) as u16)
}

/// XOR of all bytes of a sequence (0 for the empty one).
pub open spec fn xor_all(bytes: Seq<u8>) -> u8
    decreases bytes.len(),
{
    if bytes.len() == 0 {
        0
    } else {
        xor_all(bytes.drop_last()) ^ bytes.last()
    }
}

/// The checksum byte of a packet with the given count byte and value bytes.
pub open spec fn checksum(count: u8, body: Seq<u8>) -> u8 {
    xor_all(seq![count] + body)
}

/// The count byte that a packet of `n` values carries (the length taken modulo 256).
pub open spec fn count_byte(n: nat) -> u8 {
    (n % 256) as u8
}

/// The full packet that the board sends for the given slider values.
pub open spec fn frame(values: Seq<u16>) -> Seq<u8> {
    let count = count_byte(values.len());
    let body = encode_values(values);
    seq![PACKET_HEADER, count] + body + seq![checksum(count, body)]
}

/// Builds the packet for the given slider values.
pub fn build(sliders: &[u16]) -> (packet: Vec<u8>)
    requires
        2 * sliders@.len() + 3 <= usize::MAX,
    ensures
        packet@ == frame(sliders@),
{
    let n = sliders.len();
    let count = (n % 256) as u8;
    let mut packet: Vec<u8> = Vec::new();
    packet.push(PACKET_HEADER);
    packet.push(count);
    let mut i: usize = 0;
    while i < n
        invariant
            n == sliders@.len(),
            2 * n + 3 <= usize::MAX,
            i <= n,
            count == count_byte(n as nat),
            packet@ == seq![PACKET_HEADER, count] + encode_values(sliders@.take(i as int)),
        decreases n - i,
    {
        proof {
            lemma_encode_len(sliders@.take(i as int));
        }
        let val = sliders[i];
        packet.push((val % 256) as u8);
        packet.push((val / 256) as u8);
        proof {
            let t = sliders@.take(i + 1);
            assert(t.drop_last() =~= sliders@.take(i as int));
            assert(t.last() == val);
        }
        i = i + 1;
    }
    assert(sliders@.take(n as int) =~= sliders@);
    let ghost body = encode_values(sliders@);
    proof {
        lemma_encode_len(sliders@);
    }
    let len = packet.len();
    let mut acc: u8 = count;
    proof {
        lemma_xor_single(count);
        assert(packet@.subrange(1, 2) =~= seq![count]);
    }
    let mut j: usize = 2;
    while j < len
        invariant
            len == packet@.len(),
            2 <= j <= len,
            packet@ == seq![PACKET_HEADER, count] + body,
            acc == xor_all(packet@.subrange(1, j as int)),
        decreases len - j,
    {
        acc = acc ^ packet[j];
        proof {
            let s = packet@.subrange(1, j + 1);
            assert(s.drop_last() =~= packet@.subrange(1, j as int));
        }
        j = j + 1;
    }
    assert(packet@.subrange(1, len as int) =~= seq![count] + body);
    packet.push(acc);
    packet
}

/// How far the decoder has come through the current packet.
#[derive(Clone, Copy, Debug, PartialEq, Eq)]
pub enum Stage {
    /// Skipping bytes until a header byte comes.
    Header,
    /// The header was seen; the next byte is the count.
    Count,
    /// Collecting the value bytes and the checksum.
    Payload,
}

/// The abstract state of a packet decoder.
pub enum DecodeState {
    AwaitHeader,
    AwaitCount,
    Payload { count: u8, bytes: Seq<u8> },
}

/// What one byte does to a decoder: its next state, and the slider values of the
/// packet that the byte completes, if it completes one with a matching checksum.
/// A packet whose checksum does not match is dropped, and the decoder looks for
/// the next header after it.
pub open spec fn step(state: DecodeState, byte: u8) -> (DecodeState, Option<Seq<u16>>) {
    match state {
        DecodeState::AwaitHeader => (
            if byte == PACKET_HEADER {
                DecodeState::AwaitCount
            } else {
                DecodeState::AwaitHeader
            },
            None,
        ),
        DecodeState::AwaitCount => (DecodeState::Payload { count: byte, bytes: seq![] }, None),
        DecodeState::Payload { count, bytes } => {
            let got = bytes.push(byte);
            if got.len() == 2 * count + 1 {
                let body = got.take(2 * count);
                (
                    DecodeState::AwaitHeader,
                    if checksum(count, body) == byte {
                        Some(decode_values(body))
                    } else {
                        None
                    },
                )
            } else {
                (DecodeState::Payload { count, bytes: got }, None)
            }
        },
    }
}

/// Feeds a stream of bytes to a decoder: its final state and every packet it emitted,
/// in order.
pub open spec fn run(state: DecodeState, bytes: Seq<u8>) -> (DecodeState, Seq<Seq<u16>>)
    decreases bytes.len(),
{
    if bytes.len() == 0 {
        (state, seq![])
    } else {
        let (next, out) = step(state, bytes[0]);
        let (last, rest) = run(next, bytes.drop_first());
        (
            last,
            match out {
                Some(values) => seq![values] + rest,
                None => rest,
            },
        )
    }
}

/// The values held by an optional vector.
pub open spec fn opt_values(o: Option<Vec<u16>>) -> Option<Seq<u16>> {
    match o {
        Some(v) => Some(v@),
        None => None,
    }
}

/// An incremental decoder for the byte stream that comes from the board.
pub struct PacketDecoder {
    stage: Stage,
    count: u8,
    payload: Vec<u8>,
}

impl PacketDecoder {
    #[verifier::type_invariant]
    spec fn wf(self) -> bool {
        self.stage == Stage::Payload ==> self.payload@.len() < 2 * self.count + 1
    }

    /// The abstract state of this decoder.
    pub closed spec fn state(self) -> DecodeState {
        match self.stage {
            Stage::Header => DecodeState::AwaitHeader,
            Stage::Count => DecodeState::AwaitCount,
            Stage::Payload => DecodeState::Payload { count: self.count, bytes: self.payload@ },
        }
    }

    /// A decoder that waits for a header.
    pub fn new() -> (d: PacketDecoder)
        ensures
            d.state() == DecodeState::AwaitHeader,
    {
        PacketDecoder { stage: Stage::Header, count: 0, payload: Vec::new() }
    }

    /// The stage the decoder is in.
    pub fn stage(&self) -> (s: Stage)
        ensures
            s == Stage::Header <==> self.state() is AwaitHeader,
            s == Stage::Count <==> self.state() is AwaitCount,
            s == Stage::Payload <==> self.state() is Payload,
    {
        self.stage
    }

    /// Feeds one byte; returns the slider values of the packet that it completes.
    pub fn push(&mut self, byte: u8) -> (out: Option<Vec<u16>>)
        ensures
            (final(self).state(), opt_values(out)) == step(old(self).state(), byte),
    {
        proof {
            use_type_invariant(&*self);
        }
        match self.stage {
            Stage::Header => {
                if byte == PACKET_HEADER {
                    *self = PacketDecoder { stage: Stage::Count, count: 0, payload: Vec::new() };
                }
                None
            },
            Stage::Count => {
                *self = PacketDecoder { stage: Stage::Payload, count: byte, payload: Vec::new() };
                assert(self.payload@ =~= Seq::<u8>::empty());
                None
            },
            Stage::Payload => {
                let count = self.count;
                let need: usize = 2 * (count as usize) + 1;
                let mut got: Vec<u8> = Vec::new();
                std::mem::swap(&mut got, &mut self.payload);
                got.push(byte);
                if got.len() == need {
                    let ok = payload_checksum(count, &got) == byte;
                    let out = if ok {
                        Some(payload_values(count, &got))
                    } else {
                        None
                    };
                    *self = PacketDecoder { stage: Stage::Header, count: 0, payload: Vec::new() };
                    out
                } else {
                    *self = PacketDecoder { stage: Stage::Payload, count, payload: got };
                    None
                }
            },
        }
    }

    /// Feeds a whole chunk of bytes; returns every packet completed on the way, in order.
    pub fn feed(&mut self, bytes: &[u8]) -> (packets: Vec<Vec<u16>>)
        ensures
            run(old(self).state(), bytes@) == (final(self).state(), packets@.map_values(
                |v: Vec<u16>| v@,
            )),
    {
        let n = bytes.len();
        let mut packets: Vec<Vec<u16>> = Vec::new();
        let mut i: usize = 0;
        let ghost start = self.state();
        proof {
            assert(bytes@.skip(0) =~= bytes@);
            let (last, rest) = run(start, bytes@);
            assert(packets@.map_values(|v: Vec<u16>| v@) + rest =~= rest);
        }
        while i < n
            invariant
                n == bytes@.len(),
                i <= n,
                run(start, bytes@) == {
                    let (last, rest) = run(self.state(), bytes@.skip(i as int));
                    (last, packets@.map_values(|v: Vec<u16>| v@) + rest)
                },
            decreases n - i,
        {
            let ghost before = self.state();
            let ghost old_packets = packets@.map_values(|v: Vec<u16>| v@);
            assert(bytes@.skip(i as int)[0] == bytes[i as int]);
            assert(bytes@.skip(i as int).drop_first() =~= bytes@.skip(i + 1));
            match self.push(bytes[i]) {
                Some(v) => {
                    packets.push(v);
                    assert(packets@.map_values(|v: Vec<u16>| v@) =~= old_packets.push(v@));
                    proof {
                        let rest = run(self.state(), bytes@.skip(i + 1)).1;
                        assert(old_packets + (seq![v@] + rest) =~= old_packets.push(v@) + rest);
                    }
                },
                None => {},
            }
            i = i + 1;
        }
        assert(bytes@.skip(n as int) =~= Seq::<u8>::empty());
        assert(packets@.map_values(|v: Vec<u16>| v@) + Seq::<Seq<u16>>::empty() =~= packets@.map_values(
            |v: Vec<u16>| v@,
        ));
        packets
    }
}

/// The XOR of a single byte is that byte.
proof fn lemma_xor_single(b: u8)
    ensures
        xor_all(seq![b]) == b,
{
    let s = seq![b];
    assert(s.drop_last() =~= Seq::<u8>::empty());
    assert(xor_all(s.drop_last()) == 0);
    assert(s.last() == b);
    assert(0u8 ^ b == b) by (bit_vector);
}

/// Checksum of a complete payload (value bytes followed by the checksum byte).
fn payload_checksum(count: u8, got: &Vec<u8>) -> (c: u8)
    requires
        got@.len() == 2 * count + 1,
    ensures
        c == checksum(count, got@.take(2 * count)),
{
    let n: usize = 2 * (count as usize);
    let mut acc: u8 = count;
    let ghost s = seq![count] + got@.take(2 * count);
    proof {
        lemma_xor_single(count);
        assert(s.take(1) =~= seq![count]);
    }
    let mut i: usize = 0;
    while i < n
        invariant
            n == 2 * count,
            got@.len() == n + 1,
            s == seq![count] + got@.take(2 * count),
            i <= n,
            acc == xor_all(s.take(i + 1)),
        decreases n - i,
    {
        acc = acc ^ got[i];
        proof {
            assert(s.take(i + 2).drop_last() =~= s.take(i + 1));
            assert(s.take(i + 2).last() == got@[i as int]);
        }
        i = i + 1;
    }
    assert(s.take(n + 1) =~= s);
    acc
}

/// The values in a complete payload.
fn payload_values(count: u8, got: &Vec<u8>) -> (values: Vec<u16>)
    requires
        got@.len() == 2 * count + 1,
    ensures
        values@ == decode_values(got@.take(2 * count)),
{
    let n: usize = count as usize;
    let ghost body = got@.take(2 * count);
    let mut values: Vec<u16> = Vec::new();
    let mut i: usize = 0;
    while i < n
        invariant
            n == count,
            got@.len() == 2 * n + 1,
            body == got@.take(2 * count),
            i <= n,
            values@.len() == i,
            forall|k: int| 0 <= k < i ==> values@[k] == decode_values(body)[k],
        decreases n - i,
    {
        let lo = got[2 * i] as u16;
        let hi = got[2 * i + 1] as u16;
        values.push(lo + hi * 256);
        i = i + 1;
    }
    assert(values@ =~= decode_values(body));
    values
}

/// The value bytes of `values` are twice as many as the values.
pub proof fn lemma_encode_len(values: Seq<u16>)
    ensures
        encode_values(values).len() == 2 * values.len(),
    decreases values.len(),
{
    if values.len() > 0 {
        lemma_encode_len(values.drop_last());
    }
}

/// The bytes at `2 * i` and `2 * i + 1` of the encoding are the low and high byte of
/// the value at `i`.
pub proof fn lemma_encode_index(values: Seq<u16>, i: int)
    requires
        0 <= i < values.len(),
    ensures
        encode_values(values).len() == 2 * values.len(),
        encode_values(values)[2 * i] == (values[i] % 256) as u8,
        encode_values(values)[2 * i + 1] == (values[i] / 256) as u8,
    decreases values.len(),
{
    lemma_encode_len(values);
    let prefix = values.drop_last();
    lemma_encode_len(prefix);
    if i < values.len() - 1 {
        lemma_encode_index(prefix, i);
    }
}

/// Decoding the value bytes gives back the values.
pub proof fn lemma_decode_encode(values: Seq<u16>)
    ensures
        decode_values(encode_values(values)) == values,
{
    lemma_encode_len(values);
    let d = decode_values(encode_values(values));
    assert forall|i: int| 0 <= i < values.len() implies d[i] == values[i] by {
        lemma_encode_index(values, i);
        let v = values[i];
        assert((v % 256) as u8 + 256 * ((v / 256) as u8) == v);
    }
    assert(d =~= values);
}

/// Running a decoder over two chunks one after the other is running it over both.
pub proof fn lemma_run_append(state: DecodeState, a: Seq<u8>, b: Seq<u8>)
    ensures
        run(state, a + b) == {
            let (mid, first) = run(state, a);
            let (last, second) = run(mid, b);
            (last, first + second)
        },
    decreases a.len(),
{
    if a.len() == 0 {
        assert(a + b =~= b);
        let (last, second) = run(state, b);
        assert(Seq::<Seq<u16>>::empty() + second =~= second);
    } else {
        let (next, out) = step(state, a[0]);
        assert((a + b)[0] == a[0]);
        assert((a + b).drop_first() =~= a.drop_first() + b);
        lemma_run_append(next, a.drop_first(), b);
        let (mid, first_rest) = run(next, a.drop_first());
        let (last, second) = run(mid, b);
        match out {
            Some(values) => {
                assert(seq![values] + (first_rest + second) =~= (seq![values] + first_rest)
                    + second);
            },
            None => {},
        }
    }
}

/// Feeding the rest of a payload to a decoder in the middle of it: the decoder ends
/// waiting for a header, and emits the packet exactly when its checksum matches.
proof fn lemma_run_payload(count: u8, got: Seq<u8>, rest: Seq<u8>)
    requires
        rest.len() >= 1,
        got.len() + rest.len() == 2 * count + 1,
    ensures
        run(DecodeState::Payload { count, bytes: got }, rest) == {
            let all = got + rest;
            let body = all.take(2 * count);
            (
                DecodeState::AwaitHeader,
                if checksum(count, body) == all.last() {
                    seq![decode_values(body)]
                } else {
                    Seq::<Seq<u16>>::empty()
                },
            )
        },
    decreases rest.len(),
{
    let state = DecodeState::Payload { count, bytes: got };
    let next_got = got.push(rest[0]);
    let all = got + rest;
    let body = all.take(2 * count);
    if rest.len() == 1 {
        assert(all =~= next_got);
        assert(all.last() == rest[0]);
        assert(rest.drop_first() =~= Seq::<u8>::empty());
        let (s1, o) = step(state, rest[0]);
        assert(s1 == DecodeState::AwaitHeader);
        assert(run(s1, rest.drop_first()) == (s1, Seq::<Seq<u16>>::empty()));
        if checksum(count, body) == rest[0] {
            assert(o == Some(decode_values(body)));
            assert(seq![decode_values(body)] + Seq::<Seq<u16>>::empty() =~= seq![
                decode_values(body),
            ]);
        } else {
            assert(o is None);
        }
    } else {
        let (s1, o) = step(state, rest[0]);
        assert(s1 == DecodeState::Payload { count, bytes: next_got });
        assert(o is None);
        assert(run(state, rest) == run(s1, rest.drop_first()));
        lemma_run_payload(count, next_got, rest.drop_first());
        assert(next_got + rest.drop_first() =~= all);
    }
}

/// A decoder waiting for a header stays there, emitting nothing, over bytes that hold
/// no header byte.
pub proof fn lemma_run_noise(noise: Seq<u8>)
    requires
        !noise.contains(PACKET_HEADER),
    ensures
        run(DecodeState::AwaitHeader, noise) == (DecodeState::AwaitHeader, Seq::<Seq<u16>>::empty()),
    decreases noise.len(),
{
    if noise.len() > 0 {
        assert(noise[0] != PACKET_HEADER);
        assert(!noise.drop_first().contains(PACKET_HEADER)) by {
            if noise.drop_first().contains(PACKET_HEADER) {
                let k = choose|k: int|
                    0 <= k < noise.drop_first().len() && noise.drop_first()[k] == PACKET_HEADER;
                assert(noise[k + 1] == PACKET_HEADER);
            }
        }
        lemma_run_noise(noise.drop_first());
    }
}

/// A decoder that waits for a header reads a packet built from at most 255 values
/// back as exactly those values, and then waits for the next header.
pub proof fn lemma_frame_roundtrip(values: Seq<u16>)
    requires
        values.len() <= 255,
    ensures
        run(DecodeState::AwaitHeader, frame(values)) == (DecodeState::AwaitHeader, seq![values]),
{
    let count = count_byte(values.len());
    let body = encode_values(values);
    let f = frame(values);
    lemma_encode_len(values);
    assert(count == values.len());
    // header byte
    assert(f[0] == PACKET_HEADER);
    let f1 = f.drop_first();
    // count byte
    assert(f1[0] == count);
    let f2 = f1.drop_first();
    assert(f2 =~= body + seq![checksum(count, body)]);
    lemma_run_payload(count, seq![], f2);
    let all = Seq::<u8>::empty() + f2;
    assert(all =~= f2);
    assert(all.take(2 * count) =~= body);
    lemma_decode_encode(values);
    assert(run(DecodeState::AwaitHeader, f) == run(DecodeState::AwaitCount, f1));
    assert(run(DecodeState::AwaitCount, f1) == run(
        DecodeState::Payload { count, bytes: seq![] },
        f2,
    ));
    assert(f2.last() == checksum(count, body));
}

/// The packets built from each entry of `packets`, sent back to back.
pub open spec fn concat_frames(packets: Seq<Seq<u16>>) -> Seq<u8>
    decreases packets.len(),
{
    if packets.len() == 0 {
        seq![]
    } else {
        concat_frames(packets.drop_last()) + frame(packets.last())
    }
}

/// A stream of packets, each of at most 255 values, sent back to back, is read by a
/// fresh decoder as exactly those packets, in order.
pub proof fn lemma_stream_roundtrip(packets: Seq<Seq<u16>>)
    requires
        forall|i: int| 0 <= i < packets.len() ==> #[trigger] packets[i].len() <= 255,
    ensures
        run(DecodeState::AwaitHeader, concat_frames(packets)) == (DecodeState::AwaitHeader, packets),
    decreases packets.len(),
{
    if packets.len() == 0 {
        assert(packets =~= Seq::<Seq<u16>>::empty());
    } else {
        let prefix = packets.drop_last();
        assert forall|i: int| 0 <= i < prefix.len() implies #[trigger] prefix[i].len() <= 255 by {
            assert(prefix[i] == packets[i]);
        }
        lemma_stream_roundtrip(prefix);
        lemma_run_append(DecodeState::AwaitHeader, concat_frames(prefix), frame(packets.last()));
        lemma_frame_roundtrip(packets.last());
        assert(prefix + seq![packets.last()] =~= packets);
    }
}

/// Bytes without a header byte in front of a packet are skipped: the packet is still
/// read back exactly.
pub proof fn lemma_resync(noise: Seq<u8>, values: Seq<u16>)
    requires
        !noise.contains(PACKET_HEADER),
        values.len() <= 255,
    ensures
        run(DecodeState::AwaitHeader, noise + frame(values)) == (DecodeState::AwaitHeader, seq![values]),
{
    lemma_run_append(DecodeState::AwaitHeader, noise, frame(values));
    lemma_run_noise(noise);
    lemma_frame_roundtrip(values);
    assert(Seq::<Seq<u16>>::empty() + seq![values] =~= seq![values]);
}

/// A packet whose checksum byte is wrong is dropped: nothing is emitted, and the
/// decoder waits for the next header.
pub proof fn lemma_bad_checksum_dropped(values: Seq<u16>, bad: u8)
    requires
        values.len() <= 255,
        bad != checksum(count_byte(values.len()), encode_values(values)),
    ensures
        run(
            DecodeState::AwaitHeader,
            frame(values).drop_last().push(bad),
        ) == (DecodeState::AwaitHeader, Seq::<Seq<u16>>::empty()),
{
    let count = count_byte(values.len());
    let body = encode_values(values);
    let f = frame(values).drop_last().push(bad);
    lemma_encode_len(values);
    assert(f =~= seq![PACKET_HEADER, count] + (body + seq![bad]));
    let f1 = f.drop_first();
    let f2 = f1.drop_first();
    assert(f2 =~= body + seq![bad]);
    lemma_run_payload(count, seq![], f2);
    let all = Seq::<u8>::empty() + f2;
    assert(all =~= f2);
    assert(all.take(2 * count) =~= body);
    assert(f[0] == PACKET_HEADER);
    assert(f1[0] == count);
    assert(run(DecodeState::AwaitHeader, f) == run(DecodeState::AwaitCount, f1));
    assert(run(DecodeState::AwaitCount, f1) == run(
        DecodeState::Payload { count, bytes: seq![] },
        f2,
    ));
    assert(f2.last() == bad);
}

/// Encoding the values read from an even number of bytes gives back those bytes.
pub proof fn lemma_encode_decode(bytes: Seq<u8>)
    requires
        bytes.len() % 2 == 0,
    ensures
        encode_values(decode_values(bytes)) == bytes,
    decreases bytes.len(),
{
    let values = decode_values(bytes);
    if bytes.len() > 0 {
        let n = bytes.len();
        let front = bytes.take(n - 2);
        assert(values.drop_last() =~= decode_values(front));
        lemma_encode_decode(front);
        let lo = bytes[n - 2];
        let hi = bytes[n - 1];
        let v = values.last();
        assert(v == (lo + 256 * hi) as u16);
        assert((v % 256) as u8 == lo && (v / 256) as u8 == hi);
        assert(front + le_bytes(v) =~= bytes);
    } else {
        assert(bytes =~= Seq::<u8>::empty());
    }
}

/// Every packet a decoder emits is one the board could have sent: the header, the
/// count byte and the bytes since then are exactly the packet built from the emitted
/// values, checksum included.
pub proof fn law_emitted_packets_are_frames(count: u8, bytes: Seq<u8>, byte: u8)
    requires
        step(DecodeState::Payload { count, bytes }, byte).1 is Some,
    ensures
        ({
            let values = step(DecodeState::Payload { count, bytes }, byte).1.unwrap();
            seq![PACKET_HEADER, count] + bytes.push(byte) == frame(values)
        }),
{
    let got = bytes.push(byte);
    let body = got.take(2 * count);
    let values = decode_values(body);
    assert(body.len() % 2 == 0);
    lemma_encode_decode(body);
    assert(values.len() == count);
    assert(count_byte(values.len()) == count);
    assert(got =~= body + seq![byte]);
    assert(seq![PACKET_HEADER, count] + got =~= seq![PACKET_HEADER, count] + body + seq![byte]);
}


/// The checksum covers the count byte and every value byte, whatever its value:
/// with no value bytes it is the count byte, and one more value byte `b` changes it
/// by XOR with `b` (a byte equal to the header included).
pub proof fn law_checksum_covers_every_byte(count: u8, body: Seq<u8>, b: u8)
    ensures
        checksum(count, Seq::<u8>::empty()) == count,
        checksum(count, body.push(b)) == checksum(count, body) ^ b,
{
    lemma_xor_single(count);
    assert(seq![count] + Seq::<u8>::empty() =~= seq![count]);
    let s = seq![count] + body.push(b);
    assert(s.drop_last() =~= seq![count] + body);
    assert(s.last() == b);
}

/// What a built packet holds: the header, the number of values modulo 256, each
/// value as its low byte then its high byte, and last the checksum; nothing else.
pub proof fn law_frame_layout(values: Seq<u16>)
    ensures
        frame(values).len() == 2 * values.len() + 3,
        frame(values)[0] == PACKET_HEADER,
        frame(values)[1] == (values.len() % 256) as u8,
        forall|i: int|
            0 <= i < values.len() ==> frame(values)[2 + 2 * i] == (#[trigger] values[i] % 256) as u8
                && frame(values)[3 + 2 * i] == (values[i] / 256) as u8,
        frame(values).last() == checksum((values.len() % 256) as u8, encode_values(values)),
{
    lemma_encode_len(values);
    let f = frame(values);
    let body = encode_values(values);
    assert forall|i: int| 0 <= i < values.len() implies f[2 + 2 * i] == (#[trigger] values[i]
        % 256) as u8 && f[3 + 2 * i] == (values[i] / 256) as u8 by {
        lemma_encode_index(values, i);
        assert(f[2 + 2 * i] == body[2 * i]);
        assert(f[3 + 2 * i] == body[2 * i + 1]);
    }
}

} // verus!
