//! Wire frames: decoding of the header, unmasking, encoding of outgoing
//! frames, and the reassembly of fragmented messages per connection.

use std::collections::HashMap;
use vstd::prelude::*;

verus! {

broadcast use vstd::std_specs::hash::group_hash_axioms;

pub const OPCODE_CONTINUATION: u8 = 0x0;

pub const OPCODE_TEXT: u8 = 0x1;

pub const OPCODE_BINARY: u8 = 0x2;

pub const OPCODE_CONNECTION_CLOSE: u8 = 0x8;

pub const OPCODE_PING: u8 = 0x9;

pub const OPCODE_PONG: u8 = 0xA;

/// 256 to the power `k`.
pub open spec fn pow256(k: nat) -> nat
    decreases k,
{
    if k == 0 {
        1
    } else {
        256 * pow256((k - 1) as nat)
    }
}

/// The number that a byte sequence spells in network (big-endian) order.
pub open spec fn be_value(s: Seq<u8>) -> nat
    decreases s.len(),
{
    if s.len() == 0 {
        0
    } else {
        (be_value(s.drop_last()) * 256 + s.last()) as nat
    }
}

/// The low `k` bytes of `n`, most significant first.
pub open spec fn be_bytes(n: nat, k: nat) -> Seq<u8>
    decreases k,
{
    if k == 0 {
        seq![]
    } else {
        be_bytes(n / 256, (k - 1) as nat).push((n % 256) as u8)
    }
}

/// The 7-bit length code of the second header byte.
pub open spec fn len_code(d: Seq<u8>) -> nat {
    (d[1] % 128) as nat
}

/// Bytes of extended length that follow a given length code.
pub open spec fn ext_len_size(code: nat) -> nat {
    if code < 126 {
        0
    } else if code == 126 {
        2
    } else {
        8
    }
}

/// Length of the header before the mask key: 2, 4 or 10 bytes.
pub open spec fn header_len(d: Seq<u8>) -> nat {
    2 + ext_len_size(len_code(d))
}

/// Whether the header, up to the mask key, is present in `d`.
pub open spec fn header_present(d: Seq<u8>) -> bool {
    d.len() >= 2 && d.len() >= header_len(d)
}

/// The payload length that the header declares.
pub open spec fn payload_len(d: Seq<u8>) -> nat {
    if len_code(d) < 126 {
        len_code(d)
    } else {
        be_value(d.subrange(2, header_len(d) as int))
    }
}

pub open spec fn frame_masked(d: Seq<u8>) -> bool {
    d[1] >= 128
}

pub open spec fn frame_fin(d: Seq<u8>) -> bool {
    d[0] >= 128
}

pub open spec fn frame_opcode(d: Seq<u8>) -> u8 {
    (d[0] % 16) as u8
}

/// Where the payload begins: after the header and, if present, the mask key.
pub open spec fn payload_start(d: Seq<u8>) -> nat {
    header_len(d) + if frame_masked(d) {
        4nat
    } else {
        0nat
    }
}

/// The length of the whole frame: header, mask key and payload.
pub open spec fn frame_len(d: Seq<u8>) -> nat {
    payload_start(d) + payload_len(d)
}

/// Whether `d` begins with a whole frame.
pub open spec fn frame_complete(d: Seq<u8>) -> bool {
    header_present(d) && d.len() >= frame_len(d)
}

pub open spec fn mask_key(d: Seq<u8>) -> Seq<u8> {
    d.subrange(header_len(d) as int, header_len(d) + 4int)
}

/// Each byte XORed with the key byte at its position modulo 4.
pub open spec fn mask_seq(p: Seq<u8>, key: Seq<u8>) -> Seq<u8> {
    Seq::new(p.len(), |i: int| p[i] ^ key[i % 4])
}

/// The payload of the frame at the start of `d`, unmasked.
pub open spec fn frame_payload(d: Seq<u8>) -> Seq<u8> {
    let raw = d.subrange(payload_start(d) as int, frame_len(d) as int);
    if frame_masked(d) {
        mask_seq(raw, mask_key(d))
    } else {
        raw
    }
}

/// Masking twice with one key gives back the payload.
pub proof fn lemma_mask_involution(p: Seq<u8>, key: Seq<u8>)
    requires
        key.len() == 4,
    ensures
        mask_seq(mask_seq(p, key), key) == p,
{
    assert forall|i: int| 0 <= i < p.len() implies #[trigger] mask_seq(mask_seq(p, key), key)[i]
        == p[i] by {
        let x = p[i];
        let k = key[i % 4];
        assert((x ^ k) ^ k == x) by (bit_vector);
    }
    assert(mask_seq(mask_seq(p, key), key) =~= p);
}

proof fn lemma_be_value_bound(s: Seq<u8>)
    ensures
        be_value(s) < pow256(s.len()),
    decreases s.len(),
{
    if s.len() > 0 {
        lemma_be_value_bound(s.drop_last());
        let v = be_value(s.drop_last());
        let p = pow256((s.len() - 1) as nat);
        let b = s.last() as nat;
        assert(v * 256 + b < 256 * p) by (nonlinear_arith)
            requires
                v < p,
                b < 256,
        ;
    }
}

/// The next 4 bytes of `data` from `at` as a key.
fn read_key(data: &[u8], at: usize) -> (r: [u8; 4])
    requires
        at + 4 <= data@.len(),
    ensures
        r@ == data@.subrange(at as int, at + 4),
{
    let r = [data[at], data[at + 1], data[at + 2], data[at + 3]];
    assert(r@ =~= data@.subrange(at as int, at + 4));
    r
}

/// Reads `k` bytes from `at` as a big-endian number.
fn read_be(data: &[u8], at: usize, k: usize) -> (r: u64)
    requires
        k <= 8,
        at + k <= data@.len(),
    ensures
        r as nat == be_value(data@.subrange(at as int, at + k)),
{
    let mut v: u64 = 0;
    let mut i: usize = at;
    let n: usize = data.len();
    let end: usize = at + k;
    while i < end
        invariant
            at <= i <= end,
            end == at + k,
            k <= 8,
            at + k <= data@.len(),
            v as nat == be_value(data@.subrange(at as int, i as int)),
        decreases end - i,
    {
        let ghost prev = data@.subrange(at as int, i as int);
        let ghost next = data@.subrange(at as int, i + 1);
        assert(next.drop_last() =~= prev);
        proof {
            lemma_be_value_bound(prev);
            lemma_pow256_mono((i - at) as nat, 7);
            reveal_with_fuel(pow256, 8);
        }
        assert(v * 256 + data[i as int] < 0x1_0000_0000_0000_0000) by (nonlinear_arith)
            requires
                v < pow256((i - at) as nat),
                pow256((i - at) as nat) <= pow256(7),
                pow256(7) == 0x100_0000_0000_0000,
                data[i as int] < 256,
        ;
        v = v * 256 + data[i] as u64;
        i = i + 1;
    }
    v
}

proof fn lemma_pow256_pos(k: nat)
    ensures
        pow256(k) > 0,
    decreases k,
{
    if k > 0 {
        lemma_pow256_pos((k - 1) as nat);
    }
}

proof fn lemma_pow256_mono(a: nat, b: nat)
    requires
        a <= b,
    ensures
        pow256(a) <= pow256(b),
    decreases b,
{
    if a < b {
        lemma_pow256_mono(a, (b - 1) as nat);
    }
}

/// What a frame or an assembled message holds, as plain values.
pub struct MessageView {
    pub opcode: u8,
    pub is_final: bool,
    pub was_masked: bool,
    pub payload: Seq<u8>,
}

/// A wire frame, or a message assembled from several.
pub struct Message {
    pub opcode: u8,
    pub is_final: bool,
    pub was_masked: bool,
    pub payload: Vec<u8>,
}

impl View for Message {
    type V = MessageView;

    open spec fn view(&self) -> MessageView {
        MessageView {
            opcode: self.opcode,
            is_final: self.is_final,
            was_masked: self.was_masked,
            payload: self.payload@,
        }
    }
}

/// The frame at the start of `d`, as a message.
pub open spec fn frame_view(d: Seq<u8>) -> MessageView {
    MessageView {
        opcode: frame_opcode(d),
        is_final: frame_fin(d),
        was_masked: frame_masked(d),
        payload: frame_payload(d),
    }
}

/// The first message followed by a later fragment: the first one's opcode,
/// both payloads in order.
pub open spec fn merged(first: MessageView, next: MessageView) -> MessageView {
    MessageView {
        opcode: first.opcode,
        is_final: first.is_final || next.is_final,
        was_masked: first.was_masked,
        payload: first.payload + next.payload,
    }
}

/// Largest payload length that the 64-bit length field can carry.
pub const MAX_PAYLOAD_LEN: u64 = 0x7FFF_FFFF_FFFF_FFFF;

/// The length field of an outgoing frame: inline, 16-bit or 64-bit.
pub open spec fn len_field(n: nat) -> Seq<u8> {
    if n < 126 {
        seq![n as u8]
    } else if n < 0x1_0000 {
        seq![126u8] + be_bytes(n, 2)
    } else {
        seq![127u8] + be_bytes(n, 8)
    }
}

/// An unmasked, final frame of the given opcode and payload.
pub open spec fn encode_frame(opcode: u8, payload: Seq<u8>) -> Seq<u8> {
    seq![(128 + opcode % 16) as u8] + len_field(payload.len()) + payload
}

/// The header length that an outgoing payload of length `n` takes.
pub open spec fn tier_len(n: nat) -> nat {
    if n < 126 {
        2
    } else if n < 0x1_0000 {
        4
    } else {
        10
    }
}

/// Why an outgoing frame cannot be written.
#[derive(Debug, PartialEq, Eq, Clone, Copy)]
pub enum FrameError {
    /// The payload is longer than the 64-bit length field allows.
    PayloadTooLarge,
    /// An incoming frame declares more bytes than the configured cap.
    FrameTooLarge,
}

impl Message {
    /// The frame that carries this message to a client: FIN set, unmasked.
    pub fn get_data(&self) -> (r: Result<Vec<u8>, FrameError>)
        ensures
            match r {
                Ok(bytes) => self.payload@.len() <= MAX_PAYLOAD_LEN && bytes@ == encode_frame(
                    self.opcode,
                    self.payload@,
                ),
                Err(e) => self.payload@.len() > MAX_PAYLOAD_LEN && e == FrameError::PayloadTooLarge,
            },
    {
        let n: usize = self.payload.len();
        if n as u64 > MAX_PAYLOAD_LEN {
            return Err(FrameError::PayloadTooLarge);
        }
        let mut result: Vec<u8> = Vec::new();
        result.push(128 + self.opcode % 16);
        if n < 126 {
            result.push(n as u8);
        } else if n < 0x1_0000 {
            result.push(126);
            push_be(&mut result, n as u64, 2);
        } else {
            result.push(127);
            push_be(&mut result, n as u64, 8);
        }
        let mut i: usize = 0;
        let ghost head = result@;
        while i < n
            invariant
                i <= n,
                n == self.payload@.len(),
                result@ == head + self.payload@.subrange(0, i as int),
            decreases n - i,
        {
            result.push(self.payload[i]);
            i = i + 1;
            assert(result@ =~= head + self.payload@.subrange(0, i as int));
        }
        assert(self.payload@.subrange(0, n as int) =~= self.payload@);
        assert(result@ =~= encode_frame(self.opcode, self.payload@));
        Ok(result)
    }

    /// The same message followed by a later fragment.
    pub fn merge(self, rhs: Message) -> (r: Message)
        ensures
            r@ == merged(self@, rhs@),
    {
        let mut payload = self.payload;
        let mut rest = rhs.payload;
        payload.append(&mut rest);
        Message {
            opcode: self.opcode,
            is_final: self.is_final || rhs.is_final,
            was_masked: self.was_masked,
            payload,
        }
    }

    pub fn is_final(&self) -> (r: bool)
        ensures
            r == self.is_final,
    {
        self.is_final
    }

    pub fn was_masked(&self) -> (r: bool)
        ensures
            r == self.was_masked,
    {
        self.was_masked
    }

    pub fn payload(&self) -> (r: &Vec<u8>)
        ensures
            r@ == self.payload@,
    {
        &self.payload
    }
}

proof fn lemma_be_bytes_index(n: nat, k: nat, i: int)
    requires
        0 <= i < k,
    ensures
        be_bytes(n, k).len() == k,
        be_bytes(n, k)[i] == ((n / pow256((k - 1 - i) as nat)) % 256) as u8,
    decreases k,
{
    lemma_be_bytes_len(n, k);
    if i < k - 1 {
        lemma_be_bytes_index(n / 256, (k - 1) as nat, i);
        lemma_be_bytes_len(n / 256, (k - 1) as nat);
        assert(be_bytes(n, k)[i] == be_bytes(n / 256, (k - 1) as nat)[i]);
        let j = (k - 2 - i) as nat;
        assert(pow256((j + 1) as nat) == 256 * pow256(j));
        lemma_pow256_pos(j);
        vstd::arithmetic::div_mod::lemma_div_denominator(n as int, 256, pow256(j) as int);
        assert((k - 1 - i) as nat == j + 1);
        assert(n / pow256((k - 1 - i) as nat) == (n / 256) / pow256(j));
    } else {
        assert(pow256(0) == 1);
        assert((k - 1 - i) as nat == 0);
        assert(n / pow256(0) == n);
        assert(be_bytes(n, k)[i] == (n % 256) as u8);
    }
}

proof fn lemma_be_bytes_len(n: nat, k: nat)
    ensures
        be_bytes(n, k).len() == k,
    decreases k,
{
    if k > 0 {
        lemma_be_bytes_len(n / 256, (k - 1) as nat);
    }
}

/// Appends the low `k` bytes of `n`, most significant first.
fn push_be(out: &mut Vec<u8>, n: u64, k: usize)
    requires
        1 <= k <= 8,
    ensures
        final(out)@ == old(out)@ + be_bytes(n as nat, k as nat),
{
    proof {
        lemma_be_bytes_len(n as nat, k as nat);
    }
    let ghost start = out@;
    let mut i: usize = 0;
    while i < k
        invariant
            i <= k <= 8,
            be_bytes(n as nat, k as nat).len() == k,
            out@ == start + be_bytes(n as nat, k as nat).subrange(0, i as int),
        decreases k - i,
    {
        let shift: u64 = 8 * (k - 1 - i) as u64;
        let b: u8 = ((n >> shift) & 0xff) as u8;
        proof {
            lemma_be_bytes_index(n as nat, k as nat, i as int);
            lemma_shift_is_div(n, (k - 1 - i) as nat);
        }
        out.push(b);
        i = i + 1;
        assert(out@ =~= start + be_bytes(n as nat, k as nat).subrange(0, i as int));
    }
    assert(be_bytes(n as nat, k as nat).subrange(0, k as int) =~= be_bytes(n as nat, k as nat));
}

proof fn lemma_shift_is_div(n: u64, j: nat)
    requires
        j < 8,
    ensures
        ((n >> (8 * j) as u64) & 0xff) as u8 == ((n as nat / pow256(j)) % 256) as u8,
{
    let s = (8 * j) as u64;
    assert((n >> s) & 0xff == (n >> s) % 256) by (bit_vector);
    vstd::bits::lemma_u64_shr_is_div(n, s);
    vstd::bits::lemma_u64_pow2_no_overflow(s as nat);
    lemma_pow256_is_pow2(j);
}

proof fn lemma_pow256_is_pow2(j: nat)
    ensures
        pow256(j) == vstd::arithmetic::power2::pow2(8 * j),
    decreases j,
{
    vstd::arithmetic::power2::lemma2_to64();
    if j > 0 {
        lemma_pow256_is_pow2((j - 1) as nat);
        vstd::arithmetic::power2::lemma_pow2_adds(8 * (j - 1) as nat, 8);
        vstd::arithmetic::power2::lemma2_to64();
        assert(8 * j == 8 * (j - 1) as nat + 8) by (nonlinear_arith)
            requires
                j > 0,
        ;
    }
}

/// The declared payload length and the header length of the frame at the
/// start of `data`; `None` while the header is not all there.
pub fn get_message_len(data: &[u8]) -> (r: Option<(u64, usize)>)
    ensures
        match r {
            Some((p, h)) => header_present(data@) && p as nat == payload_len(data@) && h as nat
                == header_len(data@),
            None => !header_present(data@),
        },
{
    let n: usize = data.len();
    if n < 2 {
        return None;
    }
    let code: u8 = data[1] % 128;
    if code < 126 {
        Some((code as u64, 2))
    } else if code == 126 {
        if n < 4 {
            return None;
        }
        Some((read_be(data, 2, 2), 4))
    } else {
        if n < 10 {
            return None;
        }
        Some((read_be(data, 2, 8), 10))
    }
}

/// Each byte of `data` XORed with the key byte at its position modulo 4.
pub fn unmask_data(data: Vec<u8>, mask: [u8; 4]) -> (r: Vec<u8>)
    ensures
        r@ == mask_seq(data@, mask@),
{
    let n: usize = data.len();
    let mut out: Vec<u8> = Vec::with_capacity(n);
    let mut i: usize = 0;
    while i < n
        invariant
            i <= n,
            n == data@.len(),
            mask@.len() == 4,
            out@ == mask_seq(data@, mask@).subrange(0, i as int),
        decreases n - i,
    {
        out.push(data[i] ^ mask[i % 4]);
        i = i + 1;
        assert(out@ =~= mask_seq(data@, mask@).subrange(0, i as int));
    }
    assert(out@ =~= mask_seq(data@, mask@));
    out
}

/// Copies `data[from..to]` into a new vector.
fn copy_range(data: &[u8], from: usize, to: usize) -> (r: Vec<u8>)
    requires
        from <= to <= data@.len(),
    ensures
        r@ == data@.subrange(from as int, to as int),
{
    let mut out: Vec<u8> = Vec::with_capacity(to - from);
    let mut i: usize = from;
    while i < to
        invariant
            from <= i <= to <= data@.len(),
            out@ == data@.subrange(from as int, i as int),
        decreases to - i,
    {
        out.push(data[i]);
        i = i + 1;
        assert(out@ =~= data@.subrange(from as int, i as int));
    }
    out
}

/// The frame at the start of `data` and the number of bytes it takes, or
/// `None` while the frame is not all there.
pub fn decode_frame(data: &[u8]) -> (r: Option<(Message, usize)>)
    ensures
        match r {
            Some((m, used)) => frame_complete(data@) && m@ == frame_view(data@) && used as nat
                == frame_len(data@),
            None => !frame_complete(data@),
        },
{
    let n: usize = data.len();
    match get_message_len(data) {
        None => None,
        Some((payload_len, header_len)) => {
            let masked: bool = data[1] >= 128;
            let key_len: usize = if masked { 4 } else { 0 };
            if n - header_len < key_len {
                return None;
            }
            let start: usize = header_len + key_len;
            if payload_len > (n - start) as u64 {
                return None;
            }
            let end: usize = start + payload_len as usize;
            let raw = copy_range(data, start, end);
            let payload = if masked {
                let key = read_key(data, header_len);
                unmask_data(raw, key)
            } else {
                raw
            };
            let m = Message {
                opcode: data[0] % 16,
                is_final: data[0] >= 128,
                was_masked: masked,
                payload,
            };
            Some((m, end))
        },
    }
}

proof fn lemma_be_round_trip(n: nat, k: nat)
    requires
        n < pow256(k),
    ensures
        be_value(be_bytes(n, k)) == n,
    decreases k,
{
    lemma_be_bytes_len(n, k);
    if k == 0 {
        assert(n == 0);
    } else {
        let p = pow256((k - 1) as nat);
        assert(n / 256 < p) by (nonlinear_arith)
            requires
                n < 256 * p,
        ;
        lemma_be_round_trip(n / 256, (k - 1) as nat);
        assert(be_bytes(n, k).drop_last() =~= be_bytes(n / 256, (k - 1) as nat));
        assert(n == (n / 256) * 256 + n % 256) by (nonlinear_arith);
    }
}

/// Encoding a payload and decoding the result gives back the payload, the
/// opcode, and the header length of the payload's length tier.
pub proof fn lemma_length_tier_round_trip(opcode: u8, payload: Seq<u8>)
    requires
        payload.len() <= MAX_PAYLOAD_LEN,
    ensures
        frame_complete(encode_frame(opcode, payload)),
        frame_len(encode_frame(opcode, payload)) == encode_frame(opcode, payload).len(),
        header_len(encode_frame(opcode, payload)) == tier_len(payload.len()),
        frame_view(encode_frame(opcode, payload)) == (MessageView {
            opcode: opcode % 16,
            is_final: true,
            was_masked: false,
            payload,
        }),
{
    let n = payload.len();
    let d = encode_frame(opcode, payload);
    reveal_with_fuel(pow256, 9);
    let b0: u8 = (128 + opcode % 16) as u8;
    assert(b0 % 16 == opcode % 16);
    if n < 126 {
        assert(d[1] == n as u8);
        assert(d.subrange(2, d.len() as int) =~= payload);
    } else if n < 0x1_0000 {
        lemma_be_bytes_len(n, 2);
        lemma_be_round_trip(n, 2);
        assert(d[1] == 126u8);
        assert(d.subrange(2, 4) =~= be_bytes(n, 2));
        assert(d.subrange(4, d.len() as int) =~= payload);
    } else {
        lemma_be_bytes_len(n, 8);
        lemma_be_round_trip(n, 8);
        assert(d[1] == 127u8);
        assert(d.subrange(2, 10) =~= be_bytes(n, 8));
        assert(d.subrange(10, d.len() as int) =~= payload);
    }
}

/// Appends the bytes of `data` to `out`.
fn append_bytes(out: &mut Vec<u8>, data: &[u8])
    ensures
        final(out)@ == old(out)@ + data@,
{
    let ghost start = out@;
    let n: usize = data.len();
    let mut i: usize = 0;
    while i < n
        invariant
            i <= n,
            n == data@.len(),
            out@ == start + data@.subrange(0, i as int),
        decreases n - i,
    {
        out.push(data[i]);
        i = i + 1;
        assert(out@ =~= start + data@.subrange(0, i as int));
    }
    assert(data@.subrange(0, n as int) =~= data@);
}

pub open spec fn opt_view(m: Option<Message>) -> Option<MessageView> {
    match m {
        Some(m) => Some(m@),
        None => None,
    }
}

/// A decoded frame meets what is pending for its connection: the pending
/// message afterwards, and the message that is complete now, if any.
pub open spec fn assemble(pending: Option<MessageView>, frame: MessageView) -> (
    Option<MessageView>,
    Option<MessageView>,
) {
    let m = match pending {
        Some(p) => merged(p, frame),
        None => frame,
    };
    if frame.is_final {
        (None, Some(m))
    } else {
        (Some(m), None)
    }
}

/// Per-connection decoding state: the bytes that do not yet form a whole
/// frame, and the message whose final fragment has not yet come.
pub struct MessageFactory {
    fragments: HashMap<usize, Vec<u8>>,
    messages: HashMap<usize, Message>,
}

impl MessageFactory {
    /// The bytes held back for connection `t`.
    pub closed spec fn buffered(&self, t: usize) -> Seq<u8> {
        if self.fragments@.contains_key(t) {
            self.fragments@[t]@
        } else {
            seq![]
        }
    }

    /// The unfinished message of connection `t`.
    pub closed spec fn pending(&self, t: usize) -> Option<MessageView> {
        if self.messages@.contains_key(t) {
            Some(self.messages@[t]@)
        } else {
            None
        }
    }

    /// Whether any state is kept for connection `t`.
    pub closed spec fn holds(&self, t: usize) -> bool {
        self.fragments@.contains_key(t) || self.messages@.contains_key(t)
    }

    /// The message that `parse` returns for bytes `data` from `client`.
    pub open spec fn parse_output(&self, data: Seq<u8>, client: usize) -> Option<MessageView> {
        let acc = self.buffered(client) + data;
        if frame_complete(acc) {
            assemble(self.pending(client), frame_view(acc)).1
        } else {
            None
        }
    }

    /// Whether the frame that bytes `data` from `client` begin or continue
    /// declares more than `max` bytes in all.
    pub open spec fn exceeds_limit(&self, data: Seq<u8>, client: usize, max: u64) -> bool {
        let acc = self.buffered(client) + data;
        header_present(acc) && frame_len(acc) > max
    }

    /// `next` is this state with nothing kept for `client`.
    pub open spec fn dropped(&self, next: MessageFactory, client: usize) -> bool {
        &&& !next.holds(client)
        &&& next.buffered(client) == Seq::<u8>::empty()
        &&& next.pending(client) is None
        &&& forall|u: usize|
            u != client ==> {
                &&& next.buffered(u) == self.buffered(u)
                &&& next.pending(u) == self.pending(u)
                &&& next.holds(u) == self.holds(u)
            }
    }

    /// `next` is this state after `parse` took bytes `data` from `client`.
    pub open spec fn parse_post(&self, next: MessageFactory, data: Seq<u8>, client: usize) -> bool {
        &&& forall|u: usize|
            u != client ==> {
                &&& next.buffered(u) == self.buffered(u)
                &&& next.pending(u) == self.pending(u)
                &&& next.holds(u) == self.holds(u)
            }
        &&& ({
            let acc = self.buffered(client) + data;
            if frame_complete(acc) {
                &&& next.buffered(client) == acc.subrange(frame_len(acc) as int, acc.len() as int)
                &&& next.pending(client) == assemble(self.pending(client), frame_view(acc)).0
            } else {
                &&& next.buffered(client) == acc
                &&& next.pending(client) == self.pending(client)
            }
        })
    }

    pub fn new() -> (r: MessageFactory)
        ensures
            forall|t: usize| !r.holds(t) && r.buffered(t) == Seq::<u8>::empty() && r.pending(t) is None,
    {
        MessageFactory { fragments: HashMap::new(), messages: HashMap::new() }
    }

    pub fn create_ping_message(&self) -> (r: Message)
        ensures
            r@ == (MessageView {
                opcode: OPCODE_PING,
                is_final: true,
                was_masked: false,
                payload: Seq::<u8>::empty(),
            }),
    {
        Message { opcode: OPCODE_PING, is_final: true, was_masked: false, payload: Vec::new() }
    }

    pub fn create_pong_message(&self) -> (r: Message)
        ensures
            r@ == (MessageView {
                opcode: OPCODE_PONG,
                is_final: true,
                was_masked: false,
                payload: Seq::<u8>::empty(),
            }),
    {
        Message { opcode: OPCODE_PONG, is_final: true, was_masked: false, payload: Vec::new() }
    }

    /// Takes the bytes of one read from connection `client`. They are added
    /// to what that connection held back; once a whole frame is there it is
    /// decoded, what follows it is held back, and the frame joins the
    /// connection's unfinished message. The message is returned when the
    /// frame was final.
    pub fn parse(&mut self, data: &[u8], client: usize) -> (r: Option<Message>)
        ensures
            old(self).parse_post(*final(self), data@, client),
            opt_view(r) == old(self).parse_output(data@, client),
    {
        let mut local: Vec<u8> = match self.fragments.remove(&client) {
            Some(v) => v,
            None => Vec::new(),
        };
        append_bytes(&mut local, data);
        self.settle(local, client)
    }

    /// Like `parse`, but a frame whose header declares more than
    /// `max_frame_len` bytes in all fails the connection: its state is
    /// dropped and nothing is buffered.
    pub fn parse_limited(&mut self, data: &[u8], client: usize, max_frame_len: u64) -> (r: Result<
        Option<Message>,
        FrameError,
    >)
        ensures
            match r {
                Ok(m) => {
                    &&& !old(self).exceeds_limit(data@, client, max_frame_len)
                    &&& old(self).parse_post(*final(self), data@, client)
                    &&& opt_view(m) == old(self).parse_output(data@, client)
                },
                Err(e) => {
                    &&& old(self).exceeds_limit(data@, client, max_frame_len)
                    &&& e == FrameError::FrameTooLarge
                    &&& old(self).dropped(*final(self), client)
                },
            },
    {
        let mut local: Vec<u8> = match self.fragments.remove(&client) {
            Some(v) => v,
            None => Vec::new(),
        };
        append_bytes(&mut local, data);
        match get_message_len(local.as_slice()) {
            Some((payload_len, header_len)) => {
                let key_len: u64 = if local[1] >= 128 { 4 } else { 0 };
                if payload_len > max_frame_len || header_len as u64 + key_len > max_frame_len
                    - payload_len {
                    self.messages.remove(&client);
                    return Err(FrameError::FrameTooLarge);
                }
            },
            None => {},
        }
        Ok(self.settle(local, client))
    }

    /// Takes the bytes `local` that connection `client` has delivered so far.
    fn settle(&mut self, local: Vec<u8>, client: usize) -> (r: Option<Message>)
        requires
            !old(self).fragments@.contains_key(client),
        ensures
            forall|u: usize|
                u != client ==> {
                    &&& final(self).buffered(u) == old(self).buffered(u)
                    &&& final(self).pending(u) == old(self).pending(u)
                    &&& final(self).holds(u) == old(self).holds(u)
                },
            ({
                let acc = local@;
                if frame_complete(acc) {
                    &&& final(self).buffered(client) == acc.subrange(
                        frame_len(acc) as int,
                        acc.len() as int,
                    )
                    &&& final(self).pending(client) == assemble(
                        old(self).pending(client),
                        frame_view(acc),
                    ).0
                    &&& opt_view(r) == assemble(old(self).pending(client), frame_view(acc)).1
                } else {
                    &&& final(self).buffered(client) == acc
                    &&& final(self).pending(client) == old(self).pending(client)
                    &&& r is None
                }
            }),
    {
        match decode_frame(local.as_slice()) {
            None => {
                self.fragments.insert(client, local);
                None
            },
            Some((frame, used)) => {
                let n: usize = local.len();
                if used < n {
                    let rest = copy_range(local.as_slice(), used, n);
                    self.fragments.insert(client, rest);
                } else {
                    assert(local@.subrange(used as int, n as int) =~= Seq::<u8>::empty());
                }
                let fin: bool = frame.is_final;
                let m = match self.messages.remove(&client) {
                    Some(prev) => prev.merge(frame),
                    None => frame,
                };
                if fin {
                    Some(m)
                } else {
                    self.messages.insert(client, m);
                    None
                }
            },
        }
    }

    /// Drops all that is kept for connection `client`.
    pub fn drop_client(&mut self, client: usize)
        ensures
            old(self).dropped(*final(self), client),
    {
        self.fragments.remove(&client);
        self.messages.remove(&client);
    }
}

} // verus!
