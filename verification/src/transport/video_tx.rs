//! Fragmentation of encoded video slices into UDP datagrams.
//!
//! Every datagram carries an 18-byte little-endian header followed by a run
//! of bytes of one slice:
//!
//! | bytes  | field         |
//! |--------|---------------|
//! | 0..4   | frame sequence number (u32) |
//! | 4..12  | capture timestamp in microseconds (u64) |
//! | 12     | slice index (u8) |
//! | 13     | flags (u8) |
//! | 14..16 | fragment index within the slice (u16) |
//! | 16..18 | number of fragments of the slice (u16) |

use vstd::prelude::*;
use vstd::bytes::*;
use vstd::assert_seqs_equal;

verus! {

/// Size of the datagram header that precedes each fragment.
pub const VIDEO_HEADER_SIZE: usize = 18;

/// Datagram size used on a LAN with jumbo frames.
pub const MTU_LAN: usize = 8972;

/// Datagram size used across the internet.
pub const MTU_WAN: usize = 1200;

/// Flag bit: this fragment starts a key frame.
pub const KEY_FRAME: u8 = 0x01;

/// Flag bit: this fragment is the last one of the last slice of its frame.
pub const LAST_SLICE: u8 = 0x02;

/// The datagram size a sender uses: the LAN size when jumbo frames are
/// enabled, the WAN size otherwise.
pub fn select_mtu(jumbo: bool) -> (mtu: usize)
    ensures
        mtu == (if jumbo { MTU_LAN } else { MTU_WAN }),
        VIDEO_HEADER_SIZE < mtu,
{
    if jumbo {
        MTU_LAN
    } else {
        MTU_WAN
    }
}

// ---------------------------------------------------------------------------
// Specification
// ---------------------------------------------------------------------------

/// Number of payload bytes carried by one datagram of size `mtu`.
pub open spec fn payload_size(mtu: usize) -> int {
    mtu - VIDEO_HEADER_SIZE
}

/// `len` divided by `p`, rounded up.
pub open spec fn ceil_div(len: int, p: int) -> int {
    if len % p == 0 {
        len / p
    } else {
        len / p + 1
    }
}

/// Number of fragments a slice of `len` bytes is cut into.
pub open spec fn fragment_count(len: int, mtu: usize) -> int {
    ceil_div(len, payload_size(mtu))
}

/// The fragment count as it is written into the header (truncated to 16 bits).
pub open spec fn header_total(len: int, mtu: usize) -> u16 {
    fragment_count(len, mtu) as u16
}

/// The flag byte of a fragment.
pub open spec fn video_flags(key_frame: bool, last_slice: bool) -> u8 {
    (if key_frame { KEY_FRAME } else { 0u8 }) | (if last_slice { LAST_SLICE } else { 0u8 })
}

/// The 18 header bytes of a fragment.
pub open spec fn video_header(
    frame_seq: u32,
    timestamp_us: u64,
    slice_idx: u8,
    flags: u8,
    frag_idx: u16,
    total_frags: u16,
) -> Seq<u8> {
    spec_u32_to_le_bytes(frame_seq) + spec_u64_to_le_bytes(timestamp_us) + seq![slice_idx, flags]
        + spec_u16_to_le_bytes(frag_idx) + spec_u16_to_le_bytes(total_frags)
}

/// Start offset in the slice of fragment `k`.
pub open spec fn fragment_start(k: int, mtu: usize) -> int {
    k * payload_size(mtu)
}

/// End offset (exclusive) in the slice of fragment `k`.
pub open spec fn fragment_end(len: int, k: int, mtu: usize) -> int {
    if (k + 1) * payload_size(mtu) <= len {
        (k + 1) * payload_size(mtu)
    } else {
        len
    }
}

/// Whether fragment `k` of a slice carries the key-frame flag.
pub open spec fn fragment_is_key(is_keyframe: bool, k: int) -> bool {
    is_keyframe && (k as u16) == 0
}

/// Whether fragment `k` of a slice of `len` bytes carries the last-slice flag.
pub open spec fn fragment_is_last(is_last_slice: bool, len: int, k: int, mtu: usize) -> bool {
    is_last_slice && (k as u16) == (header_total(len, mtu) - 1) as u16
}

/// Datagram `k` of a slice.
pub open spec fn slice_packet(
    frame_seq: u32,
    timestamp_us: u64,
    slice_idx: u8,
    is_last_slice: bool,
    is_keyframe: bool,
    data: Seq<u8>,
    mtu: usize,
    k: int,
) -> Seq<u8> {
    video_header(
        frame_seq,
        timestamp_us,
        slice_idx,
        video_flags(
            fragment_is_key(is_keyframe, k),
            fragment_is_last(is_last_slice, data.len() as int, k, mtu),
        ),
        k as u16,
        header_total(data.len() as int, mtu),
    ) + data.subrange(fragment_start(k, mtu), fragment_end(data.len() as int, k, mtu))
}

/// All datagrams of a slice, in sending order.
pub open spec fn slice_packets(
    frame_seq: u32,
    timestamp_us: u64,
    slice_idx: u8,
    is_last_slice: bool,
    is_keyframe: bool,
    data: Seq<u8>,
    mtu: usize,
) -> Seq<Seq<u8>> {
    Seq::new(
        fragment_count(data.len() as int, mtu) as nat,
        |k: int|
            slice_packet(
                frame_seq,
                timestamp_us,
                slice_idx,
                is_last_slice,
                is_keyframe,
                data,
                mtu,
                k,
            ),
    )
}

/// A slice can be cut without the last-fragment test underflowing: the
/// fragment count written into the header is only decremented for the last
/// slice of a frame, and it is zero there only if the slice is empty.
pub open spec fn slice_fits(is_last_slice: bool, len: int, mtu: usize) -> bool {
    is_last_slice ==> (len == 0 || header_total(len, mtu) != 0)
}

/// The datagram views of a list of packets.
pub open spec fn packet_views(packets: Seq<Vec<u8>>) -> Seq<Seq<u8>> {
    packets.map_values(|p: Vec<u8>| p@)
}

/// The datagrams of the first `n` slices of a frame, in sending order:
/// slice `i` is sent with slice index `i` (truncated to 8 bits), only slice 0
/// of a key frame is marked as key frame, and only the final slice is marked
/// as last.
pub open spec fn frame_packets(
    frame_seq: u32,
    slices: Seq<Vec<u8>>,
    is_keyframe: bool,
    timestamp_us: u64,
    mtu: usize,
    n: int,
) -> Seq<Seq<u8>>
    decreases n,
{
    if n <= 0 {
        Seq::empty()
    } else {
        frame_packets(frame_seq, slices, is_keyframe, timestamp_us, mtu, n - 1)
            + frame_slice_packets(frame_seq, slices, is_keyframe, timestamp_us, mtu, n - 1)
    }
}

/// The datagrams of slice `i` of a frame: it is sent with slice index `i`
/// (truncated to 8 bits), marked as key frame only if it is slice 0 of a
/// key frame, and as last only if it is the final slice.
pub open spec fn frame_slice_packets(
    frame_seq: u32,
    slices: Seq<Vec<u8>>,
    is_keyframe: bool,
    timestamp_us: u64,
    mtu: usize,
    i: int,
) -> Seq<Seq<u8>> {
    slice_packets(
        frame_seq,
        timestamp_us,
        i as u8,
        i == slices.len() - 1,
        is_keyframe && i == 0,
        slices[i]@,
        mtu,
    )
}

/// A frame can be cut: its last slice fits (see [`slice_fits`]).
pub open spec fn frame_fits(slices: Seq<Vec<u8>>, mtu: usize) -> bool {
    slices.len() > 0 ==> slice_fits(true, slices.last()@.len() as int, mtu)
}

// ---------------------------------------------------------------------------
// Arithmetic facts
// ---------------------------------------------------------------------------

proof fn lemma_fragment_bounds(len: int, p: int, k: int)
    requires
        0 <= len,
        0 < p,
        0 <= k < ceil_div(len, p),
    ensures
        0 <= k * p < len,
        (k + 1) * p == k * p + p,
        (k + 1) * p > len ==> k + 1 == ceil_div(len, p),
        k + 1 == ceil_div(len, p) ==> len <= (k + 1) * p,
{
    let q = len / p;
    let r = len % p;
    assert(len == q * p + r) by (nonlinear_arith)
        requires
            q == len / p,
            r == len % p,
            0 < p,
    ;
    assert(0 <= r < p) by (nonlinear_arith)
        requires
            r == len % p,
            0 < p,
    ;
    if k + 1 == ceil_div(len, p) {
        if r == 0 {
            assert((k + 1) * p == q * p);
        } else {
            assert((k + 1) * p == q * p + p) by (nonlinear_arith)
                requires
                    k + 1 == q + 1,
            ;
        }
    }
    if r == 0 {
        assert(k < q);
        assert(k * p < q * p) by (nonlinear_arith)
            requires
                0 <= k < q,
                0 < p,
        ;
        if (k + 1) * p > len {
            assert(k + 1 > q) by (nonlinear_arith)
                requires
                    (k + 1) * p > q * p,
                    0 < p,
            ;
        }
    } else {
        assert(k <= q);
        assert(k * p <= q * p) by (nonlinear_arith)
            requires
                0 <= k <= q,
                0 < p,
        ;
        if (k + 1) * p > len {
            assert(k + 1 > q) by (nonlinear_arith)
                requires
                    (k + 1) * p > q * p + r,
                    0 <= r,
                    0 < p,
            ;
        }
    }
    assert(0 <= k * p) by (nonlinear_arith)
        requires
            0 <= k,
            0 < p,
    ;
    assert((k + 1) * p == k * p + p) by (nonlinear_arith);
}

proof fn lemma_ceil_div_bound(len: int, p: int)
    requires
        0 <= len,
        0 < p,
    ensures
        0 <= ceil_div(len, p) <= len,
        len > 0 ==> ceil_div(len, p) > 0,
        len % p != 0 ==> len / p + 1 <= len,
{
    let q = len / p;
    let r = len % p;
    assert(len == q * p + r && 0 <= r < p && 0 <= q) by (nonlinear_arith)
        requires
            q == len / p,
            r == len % p,
            0 < p,
            0 <= len,
    ;
    assert(q <= q * p) by (nonlinear_arith)
        requires
            0 <= q,
            0 < p,
    ;
    if r != 0 {
        assert(q + 1 <= q * p + r) by (nonlinear_arith)
            requires
                0 <= q,
                1 <= p,
                0 < r,
        ;
    } else if len > 0 {
        assert(q > 0) by (nonlinear_arith)
            requires
                len == q * p,
                len > 0,
                0 < p,
        ;
    }
}

// ---------------------------------------------------------------------------
// Executable code
// ---------------------------------------------------------------------------

/// Appends the 18 header bytes of one fragment to `packet`.
fn push_video_header(
    packet: &mut Vec<u8>,
    frame_seq: u32,
    timestamp_us: u64,
    slice_idx: u8,
    flags: u8,
    frag_idx: u16,
    total_frags: u16,
)
    ensures
        final(packet)@ == old(packet)@ + video_header(
            frame_seq,
            timestamp_us,
            slice_idx,
            flags,
            frag_idx,
            total_frags,
        ),
{
    let ghost start = packet@;
    let mut seq_bytes = u32_to_le_bytes(frame_seq);
    packet.append(&mut seq_bytes);
    let mut ts_bytes = u64_to_le_bytes(timestamp_us);
    packet.append(&mut ts_bytes);
    packet.push(slice_idx);
    packet.push(flags);
    let mut frag_bytes = u16_to_le_bytes(frag_idx);
    packet.append(&mut frag_bytes);
    let mut total_bytes = u16_to_le_bytes(total_frags);
    packet.append(&mut total_bytes);
    assert(packet@ =~= start + video_header(
        frame_seq,
        timestamp_us,
        slice_idx,
        flags,
        frag_idx,
        total_frags,
    ));
}

/// Cuts one encoded slice into datagrams of at most `mtu` bytes, each made
/// of a header and the next run of slice bytes.
///
/// The key-frame flag goes on fragment 0 of a key-frame slice, the
/// last-slice flag on the final fragment of the last slice. An empty slice
/// yields no datagram.
pub fn packetize_slice(
    frame_seq: u32,
    timestamp_us: u64,
    slice_idx: u8,
    is_last_slice: bool,
    is_keyframe: bool,
    data: &[u8],
    mtu: usize,
) -> (packets: Vec<Vec<u8>>)
    requires
        VIDEO_HEADER_SIZE < mtu,
        slice_fits(is_last_slice, data@.len() as int, mtu),
    ensures
        packet_views(packets@) == slice_packets(
            frame_seq,
            timestamp_us,
            slice_idx,
            is_last_slice,
            is_keyframe,
            data@,
            mtu,
        ),
        packets@.len() == fragment_count(data@.len() as int, mtu),
        forall|k: int|
            0 <= k < packets@.len() ==> #[trigger] packets@[k]@ == slice_packet(
                frame_seq,
                timestamp_us,
                slice_idx,
                is_last_slice,
                is_keyframe,
                data@,
                mtu,
                k,
            ),
{
    let payload = mtu - VIDEO_HEADER_SIZE;
    let len = data.len();
    proof {
        lemma_ceil_div_bound(len as int, payload as int);
    }
    let count: usize = if len % payload == 0 {
        len / payload
    } else {
        len / payload + 1
    };
    let total_frags: u16 = #[verifier::truncate] (count as u16);
    let mut packets: Vec<Vec<u8>> = Vec::new();
    let mut k: usize = 0;
    while k < count
        invariant
            payload == payload_size(mtu),
            0 < payload,
            len == data@.len(),
            count == fragment_count(len as int, mtu),
            total_frags == header_total(len as int, mtu),
            slice_fits(is_last_slice, len as int, mtu),
            count <= len,
            k <= count,
            packets@.len() == k,
            forall|j: int|
                0 <= j < k ==> #[trigger] packets@[j]@ == slice_packet(
                    frame_seq,
                    timestamp_us,
                    slice_idx,
                    is_last_slice,
                    is_keyframe,
                    data@,
                    mtu,
                    j,
                ),
        decreases count - k,
    {
        proof {
            lemma_fragment_bounds(len as int, payload as int, k as int);
        }
        let start: usize = k * payload;
        let end: usize = if len - start < payload {
            len
        } else {
            start + payload
        };
        assert(end == fragment_end(len as int, k as int, mtu));
        let frag_idx: u16 = #[verifier::truncate] (k as u16);
        let key = is_keyframe && frag_idx == 0;
        let last = is_last_slice && frag_idx == total_frags - 1;
        let flags: u8 = (if key { KEY_FRAME } else { 0u8 }) | (if last { LAST_SLICE } else { 0u8 });
        let mut packet: Vec<u8> = Vec::with_capacity(VIDEO_HEADER_SIZE + (end - start));
        push_video_header(&mut packet, frame_seq, timestamp_us, slice_idx, flags, frag_idx, total_frags);
        let ghost header = packet@;
        let mut i: usize = start;
        while i < end
            invariant
                start <= i <= end,
                end <= len,
                len == data@.len(),
                packet@ == header + data@.subrange(start as int, i as int),
            decreases end - i,
        {
            packet.push(data[i]);
            assert(packet@ =~= header + data@.subrange(start as int, i + 1));
            i = i + 1;
        }
        packets.push(packet);
        assert(packets@[k as int]@ == slice_packet(
            frame_seq,
            timestamp_us,
            slice_idx,
            is_last_slice,
            is_keyframe,
            data@,
            mtu,
            k as int,
        ));
        k = k + 1;
    }
    assert(packet_views(packets@) =~= slice_packets(
        frame_seq,
        timestamp_us,
        slice_idx,
        is_last_slice,
        is_keyframe,
        data@,
        mtu,
    ));
    packets
}

/// Whether [`packetize_frame`] can cut these slices: the fragment count of
/// a non-empty last slice must not be a multiple of 65536, since it is
/// decremented as a 16-bit number to find the final fragment.
pub fn frame_can_be_cut(slices: &[Vec<u8>], mtu: usize) -> (ok: bool)
    requires
        VIDEO_HEADER_SIZE < mtu,
    ensures
        ok == frame_fits(slices@, mtu),
{
    let n = slices.len();
    if n == 0 {
        return true;
    }
    let len = slices[n - 1].len();
    let payload = mtu - VIDEO_HEADER_SIZE;
    proof {
        lemma_ceil_div_bound(len as int, payload as int);
    }
    let count: usize = if len % payload == 0 {
        len / payload
    } else {
        len / payload + 1
    };
    let total_frags: u16 = #[verifier::truncate] (count as u16);
    len == 0 || total_frags != 0
}

/// Cuts slice `slice_idx` of a frame into its datagrams, so that a sender
/// can send each slice as soon as it is cut.
pub fn packetize_frame_slice(
    frame_seq: u32,
    slices: &[Vec<u8>],
    slice_idx: usize,
    is_keyframe: bool,
    timestamp_us: u64,
    mtu: usize,
) -> (packets: Vec<Vec<u8>>)
    requires
        VIDEO_HEADER_SIZE < mtu,
        frame_fits(slices@, mtu),
        slice_idx < slices@.len(),
    ensures
        packet_views(packets@) == frame_slice_packets(
            frame_seq,
            slices@,
            is_keyframe,
            timestamp_us,
            mtu,
            slice_idx as int,
        ),
{
    let is_last_slice = slice_idx == slices.len() - 1;
    packetize_slice(
        frame_seq,
        timestamp_us,
        #[verifier::truncate] (slice_idx as u8),
        is_last_slice,
        is_keyframe && slice_idx == 0,
        slices[slice_idx].as_slice(),
        mtu,
    )
}

/// Cuts one encoded frame, made of one or more slices, into datagrams:
/// the datagrams of slice 0, then those of slice 1, and so on. Each slice
/// is fragmented on its own so that a receiver can decode slice 0 while
/// slice 1 is still in flight.
pub fn packetize_frame(
    frame_seq: u32,
    slices: &[Vec<u8>],
    is_keyframe: bool,
    timestamp_us: u64,
    mtu: usize,
) -> (packets: Vec<Vec<u8>>)
    requires
        VIDEO_HEADER_SIZE < mtu,
        frame_fits(slices@, mtu),
    ensures
        packet_views(packets@) == frame_packets(
            frame_seq,
            slices@,
            is_keyframe,
            timestamp_us,
            mtu,
            slices@.len() as int,
        ),
{
    let num_slices = slices.len();
    let mut packets: Vec<Vec<u8>> = Vec::new();
    let mut slice_idx: usize = 0;
    while slice_idx < num_slices
        invariant
            VIDEO_HEADER_SIZE < mtu,
            num_slices == slices@.len(),
            frame_fits(slices@, mtu),
            slice_idx <= num_slices,
            packet_views(packets@) == frame_packets(
                frame_seq,
                slices@,
                is_keyframe,
                timestamp_us,
                mtu,
                slice_idx as int,
            ),
        decreases num_slices - slice_idx,
    {
        let mut slice_packets_vec = packetize_frame_slice(
            frame_seq,
            slices,
            slice_idx,
            is_keyframe,
            timestamp_us,
            mtu,
        );
        let ghost before = packets@;
        packets.append(&mut slice_packets_vec);
        assert(packet_views(packets@) =~= packet_views(before) + frame_slice_packets(
            frame_seq,
            slices@,
            is_keyframe,
            timestamp_us,
            mtu,
            slice_idx as int,
        ));
        slice_idx = slice_idx + 1;
    }
    packets
}

// ---------------------------------------------------------------------------
// Laws
// ---------------------------------------------------------------------------

/// The bytes that follow the header in each datagram, concatenated in order.
pub open spec fn payloads(packets: Seq<Seq<u8>>) -> Seq<u8>
    decreases packets.len(),
{
    if packets.len() == 0 {
        Seq::empty()
    } else {
        payloads(packets.drop_last()) + packets.last().skip(VIDEO_HEADER_SIZE as int)
    }
}

/// The header is 18 bytes long and its fields read back little-endian.
proof fn lemma_header_fields(
    frame_seq: u32,
    timestamp_us: u64,
    slice_idx: u8,
    flags: u8,
    frag_idx: u16,
    total_frags: u16,
)
    ensures
        ({
            let h = video_header(frame_seq, timestamp_us, slice_idx, flags, frag_idx, total_frags);
            &&& h.len() == VIDEO_HEADER_SIZE
            &&& spec_u32_from_le_bytes(h.subrange(0, 4)) == frame_seq
            &&& spec_u64_from_le_bytes(h.subrange(4, 12)) == timestamp_us
            &&& h[12] == slice_idx
            &&& h[13] == flags
            &&& spec_u16_from_le_bytes(h.subrange(14, 16)) == frag_idx
            &&& spec_u16_from_le_bytes(h.subrange(16, 18)) == total_frags
        }),
{
    lemma_auto_spec_u16_to_from_le_bytes();
    lemma_auto_spec_u32_to_from_le_bytes();
    lemma_auto_spec_u64_to_from_le_bytes();
    let a = spec_u32_to_le_bytes(frame_seq);
    let b = spec_u64_to_le_bytes(timestamp_us);
    let c = spec_u16_to_le_bytes(frag_idx);
    let d = spec_u16_to_le_bytes(total_frags);
    let h = video_header(frame_seq, timestamp_us, slice_idx, flags, frag_idx, total_frags);
    assert(h.subrange(0, 4) =~= a);
    assert(h.subrange(4, 12) =~= b);
    assert(h.subrange(14, 16) =~= c);
    assert(h.subrange(16, 18) =~= d);
}

/// What the flag byte says, bit by bit.
proof fn lemma_video_flags_bits(key_frame: bool, last_slice: bool)
    ensures
        (video_flags(key_frame, last_slice) & KEY_FRAME != 0) == key_frame,
        (video_flags(key_frame, last_slice) & LAST_SLICE != 0) == last_slice,
        video_flags(key_frame, last_slice) & !(KEY_FRAME | LAST_SLICE) == 0,
{
    if key_frame {
        if last_slice {
            assert((1u8 | 2u8) & 1u8 != 0 && (1u8 | 2u8) & 2u8 != 0 && (1u8 | 2u8) & !(1u8 | 2u8)
                == 0) by (bit_vector);
        } else {
            assert((1u8 | 0u8) & 1u8 != 0 && (1u8 | 0u8) & 2u8 == 0 && (1u8 | 0u8) & !(1u8 | 2u8)
                == 0) by (bit_vector);
        }
    } else {
        if last_slice {
            assert((0u8 | 2u8) & 1u8 == 0 && (0u8 | 2u8) & 2u8 != 0 && (0u8 | 2u8) & !(1u8 | 2u8)
                == 0) by (bit_vector);
        } else {
            assert((0u8 | 0u8) & 1u8 == 0 && (0u8 | 0u8) & 2u8 == 0 && (0u8 | 0u8) & !(1u8 | 2u8)
                == 0) by (bit_vector);
        }
    }
}

/// The payloads of the first `n` datagrams of a slice are the first bytes
/// of the slice, up to the end of fragment `n - 1`.
proof fn lemma_payloads_prefix(
    frame_seq: u32,
    timestamp_us: u64,
    slice_idx: u8,
    is_last_slice: bool,
    is_keyframe: bool,
    data: Seq<u8>,
    mtu: usize,
    n: int,
)
    requires
        VIDEO_HEADER_SIZE < mtu,
        0 <= n <= fragment_count(data.len() as int, mtu),
    ensures
        payloads(
            slice_packets(
                frame_seq,
                timestamp_us,
                slice_idx,
                is_last_slice,
                is_keyframe,
                data,
                mtu,
            ).take(n),
        ) == data.subrange(
            0,
            if n == 0 {
                0
            } else {
                fragment_end(data.len() as int, n - 1, mtu)
            },
        ),
    decreases n,
{
    let ps = slice_packets(
        frame_seq,
        timestamp_us,
        slice_idx,
        is_last_slice,
        is_keyframe,
        data,
        mtu,
    );
    let len = data.len() as int;
    let p = payload_size(mtu);
    if n == 0 {
        assert(ps.take(0) =~= Seq::<Seq<u8>>::empty());
        assert(data.subrange(0, 0) =~= Seq::<u8>::empty());
    } else {
        lemma_payloads_prefix(
            frame_seq,
            timestamp_us,
            slice_idx,
            is_last_slice,
            is_keyframe,
            data,
            mtu,
            n - 1,
        );
        lemma_fragment_bounds(len, p, n - 1);
        if n >= 2 {
            lemma_fragment_bounds(len, p, n - 2);
        }
        let k = n - 1;
        lemma_header_fields(
            frame_seq,
            timestamp_us,
            slice_idx,
            video_flags(
                fragment_is_key(is_keyframe, k),
                fragment_is_last(is_last_slice, len, k, mtu),
            ),
            k as u16,
            header_total(len, mtu),
        );
        let start = fragment_start(k, mtu);
        let end = fragment_end(len, k, mtu);
        assert(ps.take(n).drop_last() =~= ps.take(n - 1));
        assert(ps.take(n).last() == ps[k]);
        assert(ps[k].skip(VIDEO_HEADER_SIZE as int) =~= data.subrange(start, end));
        assert(data.subrange(0, start) + data.subrange(start, end) =~= data.subrange(0, end));
    }
}

/// Reassembly: concatenating, in sending order, the bytes that follow the
/// header in each datagram of a slice gives back the slice.
pub proof fn law_slice_reassembles(
    frame_seq: u32,
    timestamp_us: u64,
    slice_idx: u8,
    is_last_slice: bool,
    is_keyframe: bool,
    data: Seq<u8>,
    mtu: usize,
)
    requires
        VIDEO_HEADER_SIZE < mtu,
    ensures
        payloads(
            slice_packets(
                frame_seq,
                timestamp_us,
                slice_idx,
                is_last_slice,
                is_keyframe,
                data,
                mtu,
            ),
        ) == data,
{
    let ps = slice_packets(
        frame_seq,
        timestamp_us,
        slice_idx,
        is_last_slice,
        is_keyframe,
        data,
        mtu,
    );
    let len = data.len() as int;
    let p = payload_size(mtu);
    let n = fragment_count(len, mtu);
    lemma_ceil_div_bound(len, p);
    lemma_payloads_prefix(
        frame_seq,
        timestamp_us,
        slice_idx,
        is_last_slice,
        is_keyframe,
        data,
        mtu,
        n,
    );
    assert(ps.take(n) =~= ps);
    if n > 0 {
        lemma_fragment_bounds(len, p, n - 1);
    }
    assert(data.subrange(0, len) =~= data);
}

/// Size: every datagram of a slice carries at least one slice byte and is
/// at most `mtu` bytes long, and there are just enough datagrams to carry
/// the slice.
pub proof fn law_slice_packet_sizes(
    frame_seq: u32,
    timestamp_us: u64,
    slice_idx: u8,
    is_last_slice: bool,
    is_keyframe: bool,
    data: Seq<u8>,
    mtu: usize,
    k: int,
)
    requires
        VIDEO_HEADER_SIZE < mtu,
        0 <= k < fragment_count(data.len() as int, mtu),
    ensures
        VIDEO_HEADER_SIZE < slice_packets(
            frame_seq,
            timestamp_us,
            slice_idx,
            is_last_slice,
            is_keyframe,
            data,
            mtu,
        )[k].len() <= mtu,
        (fragment_count(data.len() as int, mtu) - 1) * payload_size(mtu) < data.len()
            <= fragment_count(data.len() as int, mtu) * payload_size(mtu),
{
    let len = data.len() as int;
    let p = payload_size(mtu);
    let n = fragment_count(len, mtu);
    lemma_fragment_bounds(len, p, k);
    lemma_fragment_bounds(len, p, n - 1);
    lemma_header_fields(
        frame_seq,
        timestamp_us,
        slice_idx,
        video_flags(fragment_is_key(is_keyframe, k), fragment_is_last(is_last_slice, len, k, mtu)),
        k as u16,
        header_total(len, mtu),
    );
}

/// Header: every datagram of a slice starts with the frame sequence number,
/// the timestamp, the slice index, the fragment's index and the number of
/// fragments of the slice, each little-endian and truncated to its field.
pub proof fn law_slice_packet_header(
    frame_seq: u32,
    timestamp_us: u64,
    slice_idx: u8,
    is_last_slice: bool,
    is_keyframe: bool,
    data: Seq<u8>,
    mtu: usize,
    k: int,
)
    requires
        VIDEO_HEADER_SIZE < mtu,
        0 <= k < fragment_count(data.len() as int, mtu),
    ensures
        ({
            let pkt = slice_packets(
                frame_seq,
                timestamp_us,
                slice_idx,
                is_last_slice,
                is_keyframe,
                data,
                mtu,
            )[k];
            &&& spec_u32_from_le_bytes(pkt.subrange(0, 4)) == frame_seq
            &&& spec_u64_from_le_bytes(pkt.subrange(4, 12)) == timestamp_us
            &&& pkt[12] == slice_idx
            &&& spec_u16_from_le_bytes(pkt.subrange(14, 16)) == k as u16
            &&& spec_u16_from_le_bytes(pkt.subrange(16, 18)) == fragment_count(
                data.len() as int,
                mtu,
            ) as u16
        }),
{
    let len = data.len() as int;
    let flags = video_flags(
        fragment_is_key(is_keyframe, k),
        fragment_is_last(is_last_slice, len, k, mtu),
    );
    lemma_header_fields(frame_seq, timestamp_us, slice_idx, flags, k as u16, header_total(len, mtu));
    let h = video_header(frame_seq, timestamp_us, slice_idx, flags, k as u16, header_total(len, mtu));
    let pkt = slice_packets(
        frame_seq,
        timestamp_us,
        slice_idx,
        is_last_slice,
        is_keyframe,
        data,
        mtu,
    )[k];
    assert(pkt.subrange(0, 4) =~= h.subrange(0, 4));
    assert(pkt.subrange(4, 12) =~= h.subrange(4, 12));
    assert(pkt.subrange(14, 16) =~= h.subrange(14, 16));
    assert(pkt.subrange(16, 18) =~= h.subrange(16, 18));
}

/// Flags: in a slice of at most 65536 fragments, the key-frame flag is set
/// exactly on fragment 0 of a key-frame slice, the last-slice flag exactly
/// on the final fragment of the last slice, and no other bit is set.
pub proof fn law_slice_flags(
    frame_seq: u32,
    timestamp_us: u64,
    slice_idx: u8,
    is_last_slice: bool,
    is_keyframe: bool,
    data: Seq<u8>,
    mtu: usize,
    k: int,
)
    requires
        VIDEO_HEADER_SIZE < mtu,
        0 <= k < fragment_count(data.len() as int, mtu),
        fragment_count(data.len() as int, mtu) <= 0x10000,
    ensures
        ({
            let flags = slice_packets(
                frame_seq,
                timestamp_us,
                slice_idx,
                is_last_slice,
                is_keyframe,
                data,
                mtu,
            )[k][13];
            &&& (flags & KEY_FRAME != 0) == (is_keyframe && k == 0)
            &&& (flags & LAST_SLICE != 0) == (is_last_slice && k == fragment_count(
                data.len() as int,
                mtu,
            ) - 1)
            &&& flags & !(KEY_FRAME | LAST_SLICE) == 0
        }),
{
    let len = data.len() as int;
    let n = fragment_count(len, mtu);
    let key = fragment_is_key(is_keyframe, k);
    let last = fragment_is_last(is_last_slice, len, k, mtu);
    lemma_header_fields(
        frame_seq,
        timestamp_us,
        slice_idx,
        video_flags(key, last),
        k as u16,
        header_total(len, mtu),
    );
    lemma_video_flags_bits(key, last);
    assert(k as u16 == k);
    if n < 0x10000 {
        assert(header_total(len, mtu) == n);
        assert(((header_total(len, mtu) - 1) as u16) == n - 1);
    } else {
        assert(0x10000u32 as u16 == 0u16) by (bit_vector);
        assert(header_total(len, mtu) == 0x10000u32 as u16);
        assert(-1int as u16 == 0xffffu16) by (bit_vector);
        assert(((header_total(len, mtu) - 1) as u16) == n - 1);
    }
}

/// Frame: the datagrams of a frame are those of its slices, one after the
/// other, so their number is the sum of the slices' fragment counts.
pub open spec fn frame_fragment_count(slices: Seq<Vec<u8>>, mtu: usize, n: int) -> int
    decreases n,
{
    if n <= 0 {
        0
    } else {
        frame_fragment_count(slices, mtu, n - 1) + fragment_count(slices[n - 1]@.len() as int, mtu)
    }
}

/// Frame: every datagram of a frame carries the frame's sequence number and
/// timestamp, and the frame has as many datagrams as its slices have
/// fragments in all.
pub proof fn law_frame_packets_share_header(
    frame_seq: u32,
    slices: Seq<Vec<u8>>,
    is_keyframe: bool,
    timestamp_us: u64,
    mtu: usize,
    n: int,
)
    requires
        VIDEO_HEADER_SIZE < mtu,
        0 <= n <= slices.len(),
    ensures
        frame_packets(frame_seq, slices, is_keyframe, timestamp_us, mtu, n).len()
            == frame_fragment_count(slices, mtu, n),
        forall|j: int|
            0 <= j < frame_packets(frame_seq, slices, is_keyframe, timestamp_us, mtu, n).len()
                ==> {
                let pkt = #[trigger] frame_packets(
                    frame_seq,
                    slices,
                    is_keyframe,
                    timestamp_us,
                    mtu,
                    n,
                )[j];
                &&& spec_u32_from_le_bytes(pkt.subrange(0, 4)) == frame_seq
                &&& spec_u64_from_le_bytes(pkt.subrange(4, 12)) == timestamp_us
            },
    decreases n,
{
    if n > 0 {
        law_frame_packets_share_header(frame_seq, slices, is_keyframe, timestamp_us, mtu, n - 1);
        let prev = frame_packets(frame_seq, slices, is_keyframe, timestamp_us, mtu, n - 1);
        let data = slices[n - 1]@;
        let len = data.len() as int;
        lemma_ceil_div_bound(len, payload_size(mtu));
        let sp = slice_packets(
            frame_seq,
            timestamp_us,
            (n - 1) as u8,
            n - 1 == slices.len() - 1,
            is_keyframe && n - 1 == 0,
            data,
            mtu,
        );
        let all = frame_packets(frame_seq, slices, is_keyframe, timestamp_us, mtu, n);
        assert(all == prev + sp);
        assert forall|j: int| 0 <= j < all.len() implies {
            let pkt = #[trigger] all[j];
            &&& spec_u32_from_le_bytes(pkt.subrange(0, 4)) == frame_seq
            &&& spec_u64_from_le_bytes(pkt.subrange(4, 12)) == timestamp_us
        } by {
            if j < prev.len() {
                assert(all[j] == prev[j]);
            } else {
                let k = j - prev.len();
                assert(all[j] == sp[k]);
                law_slice_packet_header(
                    frame_seq,
                    timestamp_us,
                    (n - 1) as u8,
                    n - 1 == slices.len() - 1,
                    is_keyframe && n - 1 == 0,
                    data,
                    mtu,
                    k,
                );
            }
        }
    }
}

/// The flag byte of every datagram of a slice says which flags the slice
/// logic chose for it.
proof fn lemma_slice_flag_bits(
    frame_seq: u32,
    timestamp_us: u64,
    slice_idx: u8,
    is_last_slice: bool,
    is_keyframe: bool,
    data: Seq<u8>,
    mtu: usize,
    k: int,
)
    requires
        VIDEO_HEADER_SIZE < mtu,
        0 <= k < fragment_count(data.len() as int, mtu),
    ensures
        ({
            let flags = slice_packets(
                frame_seq,
                timestamp_us,
                slice_idx,
                is_last_slice,
                is_keyframe,
                data,
                mtu,
            )[k][13];
            &&& (flags & KEY_FRAME != 0) == fragment_is_key(is_keyframe, k)
            &&& (flags & LAST_SLICE != 0) == fragment_is_last(
                is_last_slice,
                data.len() as int,
                k,
                mtu,
            )
        }),
{
    let len = data.len() as int;
    let key = fragment_is_key(is_keyframe, k);
    let last = fragment_is_last(is_last_slice, len, k, mtu);
    lemma_header_fields(
        frame_seq,
        timestamp_us,
        slice_idx,
        video_flags(key, last),
        k as u16,
        header_total(len, mtu),
    );
    lemma_video_flags_bits(key, last);
}

proof fn lemma_frame_flags_prefix(
    frame_seq: u32,
    slices: Seq<Vec<u8>>,
    is_keyframe: bool,
    timestamp_us: u64,
    mtu: usize,
    n: int,
)
    requires
        VIDEO_HEADER_SIZE < mtu,
        1 <= n <= slices.len(),
        fragment_count(slices[0]@.len() as int, mtu) <= 0x10000,
        fragment_count(slices.last()@.len() as int, mtu) <= 0x10000,
    ensures
        slices[0]@.len() > 0 ==> frame_packets(
            frame_seq,
            slices,
            is_keyframe,
            timestamp_us,
            mtu,
            n,
        ).len() > 0,
        forall|j: int|
            0 <= j < frame_packets(frame_seq, slices, is_keyframe, timestamp_us, mtu, n).len()
                ==> {
                let flags = (#[trigger] frame_packets(
                    frame_seq,
                    slices,
                    is_keyframe,
                    timestamp_us,
                    mtu,
                    n,
                )[j])[13];
                &&& (flags & KEY_FRAME != 0) == (is_keyframe && j == 0 && slices[0]@.len() > 0)
                &&& (flags & LAST_SLICE != 0) == (n == slices.len() && j == frame_packets(
                    frame_seq,
                    slices,
                    is_keyframe,
                    timestamp_us,
                    mtu,
                    n,
                ).len() - 1 && slices.last()@.len() > 0)
            },
    decreases n,
{
    let ps = frame_packets(frame_seq, slices, is_keyframe, timestamp_us, mtu, n);
    let prev = frame_packets(frame_seq, slices, is_keyframe, timestamp_us, mtu, n - 1);
    let data = slices[n - 1]@;
    let len = data.len() as int;
    let is_last = n - 1 == slices.len() - 1;
    let is_key = is_keyframe && n - 1 == 0;
    let sp = slice_packets(frame_seq, timestamp_us, (n - 1) as u8, is_last, is_key, data, mtu);
    lemma_ceil_div_bound(len, payload_size(mtu));
    assert(ps == prev + sp);
    if n > 1 {
        lemma_frame_flags_prefix(frame_seq, slices, is_keyframe, timestamp_us, mtu, n - 1);
    } else {
        assert(prev.len() == 0);
    }
    assert forall|j: int| 0 <= j < ps.len() implies {
        let flags = (#[trigger] ps[j])[13];
        &&& (flags & KEY_FRAME != 0) == (is_keyframe && j == 0 && slices[0]@.len() > 0)
        &&& (flags & LAST_SLICE != 0) == (n == slices.len() && j == ps.len() - 1
            && slices.last()@.len() > 0)
    } by {
        if j < prev.len() {
            assert(ps[j] == prev[j]);
        } else {
            let k = j - prev.len();
            assert(ps[j] == sp[k]);
            lemma_slice_flag_bits(
                frame_seq,
                timestamp_us,
                (n - 1) as u8,
                is_last,
                is_key,
                data,
                mtu,
                k,
            );
            if is_last {
                law_slice_flags(
                    frame_seq,
                    timestamp_us,
                    (n - 1) as u8,
                    is_last,
                    is_key,
                    data,
                    mtu,
                    k,
                );
            }
            if is_key {
                law_slice_flags(
                    frame_seq,
                    timestamp_us,
                    (n - 1) as u8,
                    is_last,
                    is_key,
                    data,
                    mtu,
                    k,
                );
            }
        }
    }
}

/// Frame flags: when the first and the last slice of a frame have at most
/// 65536 fragments each, the key-frame flag is set exactly on the first
/// datagram of a key frame (if its first slice is not empty), and the
/// last-slice flag exactly on the final datagram of the frame (if its last
/// slice is not empty).
pub proof fn law_frame_flags(
    frame_seq: u32,
    slices: Seq<Vec<u8>>,
    is_keyframe: bool,
    timestamp_us: u64,
    mtu: usize,
    j: int,
)
    requires
        VIDEO_HEADER_SIZE < mtu,
        slices.len() > 0,
        fragment_count(slices[0]@.len() as int, mtu) <= 0x10000,
        fragment_count(slices.last()@.len() as int, mtu) <= 0x10000,
        0 <= j < frame_packets(
            frame_seq,
            slices,
            is_keyframe,
            timestamp_us,
            mtu,
            slices.len() as int,
        ).len(),
    ensures
        ({
            let ps = frame_packets(
                frame_seq,
                slices,
                is_keyframe,
                timestamp_us,
                mtu,
                slices.len() as int,
            );
            let flags = ps[j][13];
            &&& (flags & KEY_FRAME != 0) == (is_keyframe && j == 0 && slices[0]@.len() > 0)
            &&& (flags & LAST_SLICE != 0) == (j == ps.len() - 1 && slices.last()@.len() > 0)
        }),
{
    lemma_frame_flags_prefix(
        frame_seq,
        slices,
        is_keyframe,
        timestamp_us,
        mtu,
        slices.len() as int,
    );
}

/// Cutting: a frame can be cut whenever it has no slice or its last slice
/// is empty; otherwise it can be cut exactly when the number of datagrams
/// its last slice needs (the `n` with `(n - 1) * p < len <= n * p`, where
/// `p` is the payload size) is not a multiple of 65536. The other slices
/// do not matter.
pub proof fn law_frame_fits(slices: Seq<Vec<u8>>, mtu: usize, n: int)
    requires
        VIDEO_HEADER_SIZE < mtu,
        slices.len() > 0 ==> slices.last()@.len() <= usize::MAX,
    ensures
        slices.len() == 0 ==> frame_fits(slices, mtu),
        slices.len() > 0 && slices.last()@.len() == 0 ==> frame_fits(slices, mtu),
        slices.len() > 0 && slices.last()@.len() > 0 && (n - 1) * (mtu - VIDEO_HEADER_SIZE)
            < slices.last()@.len() <= n * (mtu - VIDEO_HEADER_SIZE) ==> (frame_fits(slices, mtu)
            <==> n % 0x10000 != 0),
{
    if slices.len() > 0 {
        let len = slices.last()@.len() as int;
        let p = payload_size(mtu);
        if len > 0 && (n - 1) * p < len <= n * p {
            let c = fragment_count(len, mtu);
            lemma_ceil_div_bound(len, p);
            lemma_fragment_bounds(len, p, c - 1);
            // c and n both satisfy (x - 1) * p < len <= x * p, so they are equal.
            if c < n {
                assert(c * p <= (n - 1) * p) by (nonlinear_arith)
                    requires
                        c <= n - 1,
                        0 < p,
                ;
            }
            if n < c {
                assert(n * p <= (c - 1) * p) by (nonlinear_arith)
                    requires
                        n <= c - 1,
                        0 < p,
                ;
            }
            assert(c == n);
            let m: u64 = c as u64;
            assert(m == c);
            assert((m as u16 == 0) <==> (m % 0x10000 == 0)) by (bit_vector);
            assert(header_total(len, mtu) == m as u16);
        }
    }
}

} // verus!
