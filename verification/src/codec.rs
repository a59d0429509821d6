//! CoAP wire codec: the bijection between datagram bytes and decoded packets.
//!
//! A packet is laid out as a fixed four-byte header (version, type, token
//! length, code, message id), the token, a sequence of delta-encoded options,
//! and an optional payload introduced by a marker byte.

use vstd::prelude::*;

verus! {

/// CoAP Observe option number.
pub const OPT_OBSERVE: u32 = 6;
/// CoAP Uri-Path option number.
pub const OPT_URI_PATH: u32 = 11;
/// Request method GET (code 0.01).
pub const METHOD_GET: u8 = 1;
/// Request method PUT (code 0.03).
pub const METHOD_PUT: u8 = 3;
/// Response code 2.05 Content.
pub const CODE_CONTENT: u8 = 69;
/// Largest value an option delta or option length can carry on the wire
/// (two extension bytes on top of the nibble base 269).
pub const MAX_OPT_FIELD: u32 = 65804;
/// The byte separating the option list from a non-empty payload.
pub const PAYLOAD_MARKER: u8 = 255;

/// The four CoAP message types.
#[derive(Clone, Copy, PartialEq, Eq, Structural, Debug)]
pub enum MessageType {
    Confirmable,
    NonConfirmable,
    Acknowledgement,
    Reset,
}

/// Decoding failure: the datagram is not a well-formed CoAP message.
#[derive(Clone, Copy, PartialEq, Eq, Structural, Debug)]
pub enum DecodeError {
    Malformed,
}

/// A decoded CoAP message.
#[derive(Debug)]
pub struct Packet {
    pub version: u8,
    pub mtype: MessageType,
    pub code: u8,
    pub message_id: u16,
    pub token: Vec<u8>,
    pub options: Vec<(u32, Vec<u8>)>,
    pub payload: Vec<u8>,
}

/// Mathematical model of a packet.
#[verifier::ext_equal]
pub struct PacketView {
    pub version: u8,
    pub mtype: MessageType,
    pub code: u8,
    pub message_id: u16,
    pub token: Seq<u8>,
    pub options: Seq<(u32, Seq<u8>)>,
    pub payload: Seq<u8>,
}

pub open spec fn opts_view(s: Seq<(u32, Vec<u8>)>) -> Seq<(u32, Seq<u8>)> {
    Seq::new(s.len(), |i: int| (s[i].0, s[i].1@))
}

impl View for Packet {
    type V = PacketView;

    open spec fn view(&self) -> PacketView {
        PacketView {
            version: self.version,
            mtype: self.mtype,
            code: self.code,
            message_id: self.message_id,
            token: self.token@,
            options: opts_view(self.options@),
            payload: self.payload@,
        }
    }
}

pub open spec fn type_bits(t: MessageType) -> u8 {
    match t {
        MessageType::Confirmable => 0,
        MessageType::NonConfirmable => 1,
        MessageType::Acknowledgement => 2,
        MessageType::Reset => 3,
    }
}

pub open spec fn type_of_bits(b: int) -> MessageType {
    if b == 0 {
        MessageType::Confirmable
    } else if b == 1 {
        MessageType::NonConfirmable
    } else if b == 2 {
        MessageType::Acknowledgement
    } else {
        MessageType::Reset
    }
}

/// Options must be sorted by ascending number, with every delta and every
/// value length small enough to be expressed by the wire encoding.
pub open spec fn opts_sorted_from(opts: Seq<(u32, Seq<u8>)>, prev: u32) -> bool
    decreases opts.len(),
{
    opts.len() == 0 || {
        &&& prev <= opts[0].0
        &&& opts[0].0 - prev <= MAX_OPT_FIELD
        &&& opts[0].1.len() <= MAX_OPT_FIELD
        &&& opts_sorted_from(opts.drop_first(), opts[0].0)
    }
}

/// A packet the encoder accepts: version 1, a token of at most eight bytes,
/// and an encodable option list.
pub open spec fn wf_packet(p: PacketView) -> bool {
    &&& p.version == 1
    &&& p.token.len() <= 8
    &&& opts_sorted_from(p.options, 0)
}

/// Extension bytes written after the option header for a delta or length `v`.
pub open spec fn ext_bytes(v: int) -> Seq<u8> {
    if v < 13 {
        seq![]
    } else if v < 269 {
        seq![(v - 13) as u8]
    } else {
        seq![(((v - 269) / 256) as u8), (((v - 269) % 256) as u8)]
    }
}

/// The four-bit field announcing a delta or length `v`.
pub open spec fn nibble(v: int) -> u8 {
    if v < 13 {
        v as u8
    } else if v < 269 {
        13
    } else {
        14
    }
}

/// How many extension bytes follow a nibble.
pub open spec fn ext_len(nib: int) -> int {
    if nib < 13 {
        0
    } else if nib == 13 {
        1
    } else {
        2
    }
}

/// The delta or length announced by nibble `nib` with extension bytes at the
/// front of `s`.
pub open spec fn dec_ext(nib: int, s: Seq<u8>) -> int {
    if nib < 13 {
        nib
    } else if nib == 13 {
        13 + s[0]
    } else {
        269 + s[0] * 256 + s[1]
    }
}

/// One encoded option: header byte, delta extension, length extension, value.
pub open spec fn enc_one(delta: int, val: Seq<u8>) -> Seq<u8> {
    seq![(nibble(delta) * 16 + nibble(val.len() as int)) as u8] + ext_bytes(delta) + ext_bytes(
        val.len() as int,
    ) + val
}

/// The encoded option list, deltas taken against `prev`.
pub open spec fn enc_opts(opts: Seq<(u32, Seq<u8>)>, prev: u32) -> Seq<u8>
    decreases opts.len(),
{
    if opts.len() == 0 {
        seq![]
    } else {
        enc_one(opts[0].0 - prev, opts[0].1) + enc_opts(opts.drop_first(), opts[0].0)
    }
}

/// The fixed four-byte header.
pub open spec fn enc_header(p: PacketView) -> Seq<u8> {
    seq![
        (64 + type_bits(p.mtype) * 16 + p.token.len()) as u8,
        p.code,
        (p.message_id / 256) as u8,
        (p.message_id % 256) as u8,
    ]
}

/// Marker byte plus payload, or nothing when the payload is empty.
pub open spec fn enc_payload(pl: Seq<u8>) -> Seq<u8> {
    if pl.len() == 0 {
        seq![]
    } else {
        seq![PAYLOAD_MARKER] + pl
    }
}

/// The bytes `encode` emits for packet `p`.
pub open spec fn spec_encode(p: PacketView) -> Seq<u8> {
    enc_header(p) + p.token + enc_opts(p.options, 0) + enc_payload(p.payload)
}

/// Parse the option list and payload from `s`, the previous option number
/// being `prev`. Returns the options, and the payload bytes.
pub open spec fn dec_opts(s: Seq<u8>, prev: u32) -> Option<(Seq<(u32, Seq<u8>)>, Seq<u8>)>
    decreases s.len(),
{
    if s.len() == 0 {
        Some((seq![], seq![]))
    } else if s[0] == PAYLOAD_MARKER {
        if s.len() == 1 {
            None
        } else {
            Some((seq![], s.drop_first()))
        }
    } else {
        let dn = s[0] / 16;
        let ln = s[0] % 16;
        if dn == 15 || ln == 15 {
            None
        } else if s.len() < 1 + ext_len(dn as int) + ext_len(ln as int) {
            None
        } else {
            let delta = dec_ext(dn as int, s.drop_first());
            let hdr = 1 + ext_len(dn as int) + ext_len(ln as int);
            let vlen = dec_ext(ln as int, s.subrange(1 + ext_len(dn as int), s.len() as int));
            if prev + delta > u32::MAX {
                None
            } else if s.len() < hdr + vlen {
                None
            } else {
                let num = (prev + delta) as u32;
                let val = s.subrange(hdr, hdr + vlen);
                match dec_opts(s.subrange(hdr + vlen, s.len() as int), num) {
                    None => None,
                    Some((opts, pl)) => Some((seq![(num, val)] + opts, pl)),
                }
            }
        }
    }
}

/// The packet `decode` yields for datagram `s`, if any.
pub open spec fn spec_decode(s: Seq<u8>) -> Option<PacketView> {
    if s.len() < 4 {
        None
    } else {
        let b0 = s[0] as int;
        let ver = b0 / 64;
        let ty = (b0 / 16) % 4;
        let tkl = b0 % 16;
        if ver != 1 {
            None
        } else if tkl > 8 {
            None
        } else if s.len() < 4 + tkl {
            None
        } else {
            match dec_opts(s.subrange(4 + tkl, s.len() as int), 0) {
                None => None,
                Some((opts, pl)) => Some(
                    PacketView {
                        version: 1,
                        mtype: type_of_bits(ty),
                        code: s[1],
                        message_id: (s[2] * 256 + s[3]) as u16,
                        token: s.subrange(4, 4 + tkl),
                        options: opts,
                        payload: pl,
                    },
                ),
            }
        }
    }
}

fn nibble_of(v: u32) -> (n: u8)
    ensures
        n == nibble(v as int),
{
    if v < 13 {
        v as u8
    } else if v < 269 {
        13
    } else {
        14
    }
}

fn push_ext(v: u32, out: &mut Vec<u8>)
    requires
        v <= MAX_OPT_FIELD,
    ensures
        final(out)@ == old(out)@ + ext_bytes(v as int),
{
    if v < 13 {
        assert(out@ =~= old(out)@ + ext_bytes(v as int));
    } else if v < 269 {
        out.push((v - 13) as u8);
        assert(out@ =~= old(out)@ + ext_bytes(v as int));
    } else {
        out.push(((v - 269) / 256) as u8);
        out.push(((v - 269) % 256) as u8);
        assert(out@ =~= old(out)@ + ext_bytes(v as int));
    }
}

fn push_bytes(src: &Vec<u8>, out: &mut Vec<u8>)
    ensures
        final(out)@ == old(out)@ + src@,
{
    let mut i: usize = 0;
    while i < src.len()
        invariant
            i <= src.len(),
            out@ == old(out)@ + src@.take(i as int),
        decreases src.len() - i,
    {
        out.push(src[i]);
        i = i + 1;
        assert(old(out)@ + src@.take(i - 1) + seq![src@[i - 1]] =~= old(out)@ + src@.take(
            i as int,
        ));
    }
    assert(out@ =~= old(out)@ + src@);
}

fn encode_opts(opts: &Vec<(u32, Vec<u8>)>, i: usize, prev: u32, out: &mut Vec<u8>)
    requires
        i <= opts.len(),
        opts_sorted_from(opts_view(opts@).skip(i as int), prev),
    ensures
        final(out)@ == old(out)@ + enc_opts(opts_view(opts@).skip(i as int), prev),
    decreases opts.len() - i,
{
    let ghost ov = opts_view(opts@).skip(i as int);
    if i == opts.len() {
        assert(out@ =~= old(out)@ + enc_opts(ov, prev));
    } else {
        let num = opts[i].0;
        assert(ov[0] == (opts@[i as int].0, opts@[i as int].1@));
        let delta = num - prev;
        let vlen_usize = opts[i].1.len();
        let vlen: u32 = vlen_usize as u32;
        let hb: u8 = nibble_of(delta) * 16 + nibble_of(vlen);
        out.push(hb);
        push_ext(delta, out);
        push_ext(vlen, out);
        push_bytes(&opts[i].1, out);
        assert(out@ =~= old(out)@ + enc_one(delta as int, ov[0].1));
        assert(ov.drop_first() =~= opts_view(opts@).skip(i + 1));
        encode_opts(opts, i + 1, num, out);
        assert(out@ =~= old(out)@ + enc_opts(ov, prev));
    }
}

/// Encode a well-formed packet into its datagram bytes.
pub fn encode(p: &Packet) -> (out: Vec<u8>)
    requires
        wf_packet(p@),
    ensures
        out@ == spec_encode(p@),
{
    let mut out: Vec<u8> = Vec::new();
    let tb: u8 = match p.mtype {
        MessageType::Confirmable => 0,
        MessageType::NonConfirmable => 1,
        MessageType::Acknowledgement => 2,
        MessageType::Reset => 3,
    };
    let b0: u8 = 64 + tb * 16 + (p.token.len() as u8);
    out.push(b0);
    out.push(p.code);
    out.push((p.message_id / 256) as u8);
    out.push((p.message_id % 256) as u8);
    assert(out@ =~= enc_header(p@));
    push_bytes(&p.token, &mut out);
    assert(opts_view(p.options@).skip(0) =~= p@.options);
    encode_opts(&p.options, 0, 0, &mut out);
    if p.payload.len() > 0 {
        out.push(PAYLOAD_MARKER);
        push_bytes(&p.payload, &mut out);
    }
    assert(out@ =~= spec_encode(p@));
    out
}

fn copy_range(bytes: &Vec<u8>, from: usize, to: usize) -> (r: Vec<u8>)
    requires
        from <= to <= bytes.len(),
    ensures
        r@ == bytes@.subrange(from as int, to as int),
{
    let mut r: Vec<u8> = Vec::new();
    let mut j: usize = from;
    while j < to
        invariant
            from <= j <= to <= bytes.len(),
            r@ == bytes@.subrange(from as int, j as int),
        decreases to - j,
    {
        r.push(bytes[j]);
        j = j + 1;
        assert(r@ =~= bytes@.subrange(from as int, j as int));
    }
    r
}

fn dec_ext_exec(nib: u8, bytes: &Vec<u8>, j: usize) -> (r: u32)
    requires
        nib < 15,
        j + ext_len(nib as int) <= bytes.len(),
    ensures
        r == dec_ext(nib as int, bytes@.skip(j as int)),
        r <= MAX_OPT_FIELD,
{
    if nib < 13 {
        nib as u32
    } else if nib == 13 {
        assert(bytes@.skip(j as int)[0] == bytes@[j as int]);
        13 + (bytes[j] as u32)
    } else {
        assert(bytes@.skip(j as int)[0] == bytes@[j as int]);
        assert(bytes@.skip(j as int)[1] == bytes@[j + 1]);
        269 + (bytes[j] as u32) * 256 + (bytes[j + 1] as u32)
    }
}

#[verifier::rlimit(100)]
fn dec_opts_exec(bytes: &Vec<u8>, i: usize, prev: u32) -> (r: Option<
    (Vec<(u32, Vec<u8>)>, Vec<u8>),
>)
    requires
        i <= bytes.len(),
    ensures
        match r {
            Some(p) => dec_opts(bytes@.skip(i as int), prev) == Some((opts_view(p.0@), p.1@)),
            None => dec_opts(bytes@.skip(i as int), prev) is None,
        },
    decreases bytes.len() - i,
{
    let ghost s = bytes@.skip(i as int);
    if i == bytes.len() {
        let empty_opts: Vec<(u32, Vec<u8>)> = Vec::new();
        let empty_pl: Vec<u8> = Vec::new();
        assert(opts_view(empty_opts@) =~= Seq::<(u32, Seq<u8>)>::empty());
        assert(empty_pl@ =~= Seq::<u8>::empty());
        return Some((empty_opts, empty_pl));
    }
    assert(s[0] == bytes@[i as int]);
    let b = bytes[i];
    if b == PAYLOAD_MARKER {
        if i + 1 == bytes.len() {
            return None;
        }
        let empty_opts: Vec<(u32, Vec<u8>)> = Vec::new();
        let pl = copy_range(bytes, i + 1, bytes.len());
        assert(pl@ =~= s.drop_first());
        assert(opts_view(empty_opts@) =~= Seq::<(u32, Seq<u8>)>::empty());
        return Some((empty_opts, pl));
    }
    let dn: u8 = b / 16;
    let ln: u8 = b % 16;
    if dn == 15 || ln == 15 {
        return None;
    }
    let edl: usize = if dn < 13 {
        0
    } else if dn == 13 {
        1
    } else {
        2
    };
    let ell: usize = if ln < 13 {
        0
    } else if ln == 13 {
        1
    } else {
        2
    };
    let rem = bytes.len() - i;
    if rem < 1 + edl + ell {
        return None;
    }
    let delta = dec_ext_exec(dn, bytes, i + 1);
    assert(bytes@.skip(i + 1) =~= s.drop_first());
    let vlen32 = dec_ext_exec(ln, bytes, i + 1 + edl);
    assert(bytes@.skip(i + 1 + edl) =~= s.subrange(1 + ext_len(dn as int), s.len() as int));
    let hdr: usize = 1 + edl + ell;
    if delta > u32::MAX - prev {
        return None;
    }
    let num = prev + delta;
    let vlen: usize = vlen32 as usize;
    if rem - hdr < vlen {
        return None;
    }
    let val = copy_range(bytes, i + hdr, i + hdr + vlen);
    assert(val@ =~= s.subrange(hdr as int, hdr + vlen));
    let ghost rest_s = bytes@.skip(i + hdr + vlen);
    assert(rest_s =~= s.subrange(hdr + vlen, s.len() as int));
    let rest = dec_opts_exec(bytes, i + hdr + vlen, num);
    match rest {
        None => None,
        Some((opts_rest, pl)) => {
            let ghost opts0 = opts_rest@;
            let mut opts = opts_rest;
            opts.insert(0, (num, val));
            assert(opts_view(opts@) =~= seq![(num, val@)] + opts_view(opts0));
            Some((opts, pl))
        },
    }
}

/// Decode a datagram into a packet, rejecting anything malformed. The decoder
/// is total: it never panics, whatever the input bytes.
pub fn decode(bytes: &Vec<u8>) -> (r: Result<Packet, DecodeError>)
    ensures
        match r {
            Ok(p) => spec_decode(bytes@) == Some(p@),
            Err(_) => spec_decode(bytes@) is None,
        },
{
    if bytes.len() < 4 {
        return Err(DecodeError::Malformed);
    }
    let b0 = bytes[0];
    if b0 / 64 != 1 {
        return Err(DecodeError::Malformed);
    }
    let tkl: usize = (b0 % 16) as usize;
    if tkl > 8 {
        return Err(DecodeError::Malformed);
    }
    if bytes.len() < 4 + tkl {
        return Err(DecodeError::Malformed);
    }
    let tyb = (b0 / 16) % 4;
    let mtype = if tyb == 0 {
        MessageType::Confirmable
    } else if tyb == 1 {
        MessageType::NonConfirmable
    } else if tyb == 2 {
        MessageType::Acknowledgement
    } else {
        MessageType::Reset
    };
    let token = copy_range(bytes, 4, 4 + tkl);
    let mid: u16 = (bytes[2] as u16) * 256 + (bytes[3] as u16);
    assert(bytes@.skip(4 + tkl) =~= bytes@.subrange(4 + tkl, bytes@.len() as int));
    match dec_opts_exec(bytes, 4 + tkl, 0) {
        None => Err(DecodeError::Malformed),
        Some((options, payload)) => {
            let p = Packet {
                version: 1,
                mtype,
                code: bytes[1],
                message_id: mid,
                token,
                options,
                payload,
            };
            assert(spec_decode(bytes@) == Some(p@));
            Ok(p)
        },
    }
}

proof fn lemma_ext_roundtrip(v: int, s: Seq<u8>)
    requires
        0 <= v <= MAX_OPT_FIELD,
        ext_bytes(v).len() <= s.len(),
        forall|k: int| 0 <= k < ext_bytes(v).len() ==> s[k] == ext_bytes(v)[k],
    ensures
        dec_ext(nibble(v) as int, s) == v,
        ext_len(nibble(v) as int) == ext_bytes(v).len(),
{
    if v < 13 {
    } else if v < 269 {
        assert(s[0] == (v - 13) as u8);
    } else {
        assert(s[0] == ((v - 269) / 256) as u8);
        assert(s[1] == ((v - 269) % 256) as u8);
        assert((v - 269) / 256 < 256) by (nonlinear_arith)
            requires
                269 <= v <= 65804,
        ;
        vstd::arithmetic::div_mod::lemma_fundamental_div_mod(v - 269, 256);
    }
}

proof fn lemma_nibbles(d: int, l: int)
    requires
        0 <= d <= MAX_OPT_FIELD,
        0 <= l <= MAX_OPT_FIELD,
    ensures
        (nibble(d) * 16 + nibble(l)) as u8 != PAYLOAD_MARKER,
        ((nibble(d) * 16 + nibble(l)) as u8) / 16 == nibble(d),
        ((nibble(d) * 16 + nibble(l)) as u8) % 16 == nibble(l),
        nibble(d) < 15,
        nibble(l) < 15,
{
    let a = nibble(d) as int;
    let b = nibble(l) as int;
    assert(0 <= a <= 14 && 0 <= b <= 14);
    assert((a * 16 + b) / 16 == a && (a * 16 + b) % 16 == b) by (nonlinear_arith)
        requires
            0 <= a <= 14 && 0 <= b <= 14,
    ;
    assert(a * 16 + b <= 238);
}

#[verifier::rlimit(100)]
proof fn lemma_dec_opts_cons(s: Seq<u8>, prev: u32, num: u32, val: Seq<u8>, opts: Seq<(u32, Seq<u8>)>, pl: Seq<u8>)
    requires
        0 < s.len(),
        s[0] != PAYLOAD_MARKER,
        s[0] / 16 != 15,
        s[0] % 16 != 15,
        s.len() >= 1 + ext_len((s[0] / 16) as int) + ext_len((s[0] % 16) as int),
        prev <= num,
        dec_ext((s[0] / 16) as int, s.drop_first()) == num - prev,
        dec_ext(
            (s[0] % 16) as int,
            s.subrange(1 + ext_len((s[0] / 16) as int), s.len() as int),
        ) == val.len(),
        s.len() >= 1 + ext_len((s[0] / 16) as int) + ext_len((s[0] % 16) as int) + val.len(),
        val == s.subrange(
            1 + ext_len((s[0] / 16) as int) + ext_len((s[0] % 16) as int),
            1 + ext_len((s[0] / 16) as int) + ext_len((s[0] % 16) as int) + val.len() as int,
        ),
        dec_opts(
            s.subrange(
                1 + ext_len((s[0] / 16) as int) + ext_len((s[0] % 16) as int)
                    + val.len() as int,
                s.len() as int,
            ),
            num,
        ) == Some((opts, pl)),
    ensures
        dec_opts(s, prev) == Some((seq![(num, val)] + opts, pl)),
{
}

#[verifier::rlimit(100)]
proof fn lemma_dec_enc_step(num: u32, prev: u32, val: Seq<u8>, rest_opts: Seq<(u32, Seq<u8>)>, tail: Seq<u8>, pl: Seq<u8>)
    requires
        prev <= num,
        num - prev <= MAX_OPT_FIELD,
        val.len() <= MAX_OPT_FIELD,
        dec_opts(enc_opts(rest_opts, num) + tail, num) == Some((rest_opts, pl)),
    ensures
        dec_opts((enc_one(num - prev, val) + enc_opts(rest_opts, num)) + tail, prev) == Some(
            (seq![(num, val)] + rest_opts, pl),
        ),
{
    let s = (enc_one(num - prev, val) + enc_opts(rest_opts, num)) + tail;
    let d = num - prev;
    let l = val.len() as int;
    let ed = ext_bytes(d);
    let el = ext_bytes(l);
    let rest_bytes = enc_opts(rest_opts, num) + tail;
    lemma_nibbles(d, l);
    let hb = (nibble(d) * 16 + nibble(l)) as u8;
    assert(s =~= seq![hb] + (ed + (el + (val + rest_bytes))));
    assert(s[0] == hb);
    let sfx1 = s.drop_first();
    assert(sfx1 =~= ed + (el + (val + rest_bytes)));
    lemma_ext_roundtrip(d, sfx1);
    let sfx2 = s.subrange(1 + ed.len() as int, s.len() as int);
    assert(sfx2 =~= el + (val + rest_bytes));
    lemma_ext_roundtrip(l, sfx2);
    let hdr: int = 1 + ed.len() as int + el.len() as int;
    assert(s.len() == hdr + val.len() + rest_bytes.len());
    assert(s.subrange(hdr, hdr + val.len() as int) =~= val);
    assert(s.subrange(hdr + val.len() as int, s.len() as int) =~= rest_bytes);
    let dn = s[0] / 16;
    let ln = s[0] % 16;
    assert(dn == nibble(d) && ln == nibble(l));
    assert(dn != 15 && ln != 15);
    assert(ext_len(dn as int) == ed.len() && ext_len(ln as int) == el.len());
    assert(s.len() >= 1 + ext_len(dn as int) + ext_len(ln as int));
    assert(dec_ext(dn as int, s.drop_first()) == d);
    assert(dec_ext(ln as int, s.subrange(1 + ext_len(dn as int), s.len() as int)) == l);
    assert(1 + ext_len(dn as int) + ext_len(ln as int) == hdr);
    lemma_dec_opts_cons(s, prev, num, val, rest_opts, pl);
}

#[verifier::rlimit(100)]
#[verifier::spinoff_prover]
proof fn lemma_dec_enc_opts(opts: Seq<(u32, Seq<u8>)>, prev: u32, tail: Seq<u8>)
    requires
        opts_sorted_from(opts, prev),
        tail.len() == 0 || (tail[0] == PAYLOAD_MARKER && tail.len() >= 2),
    ensures
        dec_opts(enc_opts(opts, prev) + tail, prev) == Some(
            (
                opts,
                if tail.len() == 0 {
                    Seq::<u8>::empty()
                } else {
                    tail.drop_first()
                },
            ),
        ),
    decreases opts.len(),
{
    let s = enc_opts(opts, prev) + tail;
    let pl = if tail.len() == 0 {
        Seq::<u8>::empty()
    } else {
        tail.drop_first()
    };
    if opts.len() == 0 {
        assert(s =~= tail);
        if tail.len() != 0 {
            assert(s.drop_first() =~= tail.drop_first());
        }
    } else {
        let num = opts[0].0;
        let val = opts[0].1;
        lemma_dec_enc_opts(opts.drop_first(), num, tail);
        lemma_dec_enc_step(num, prev, val, opts.drop_first(), tail, pl);
        assert(seq![(num, val)] + opts.drop_first() =~= opts);
    }
}

/// Round trip: decoding the encoding of any well-formed packet yields the
/// packet itself.
#[verifier::rlimit(100)]
pub proof fn lemma_decode_encode(p: PacketView)
    requires
        wf_packet(p),
    ensures
        spec_decode(spec_encode(p)) == Some(p),
{
    let s = spec_encode(p);
    let hdr = enc_header(p);
    let opl = enc_opts(p.options, 0) + enc_payload(p.payload);
    let ty = type_bits(p.mtype) as int;
    let tkl = p.token.len() as int;
    assert(s =~= hdr + (p.token + opl));
    assert(s[0] == hdr[0] && s[1] == hdr[1] && s[2] == hdr[2] && s[3] == hdr[3]);
    let b0 = (64 + ty * 16 + tkl) as u8;
    assert(0 <= ty <= 3 && 0 <= tkl <= 8);
    assert(b0 == 64 + ty * 16 + tkl);
    assert(b0 / 64 == 1 && (b0 / 16) % 4 == ty && b0 % 16 == tkl) by (nonlinear_arith)
        requires
            b0 == 64 + ty * 16 + tkl && 0 <= ty <= 3 && 0 <= tkl <= 8,
    ;
    assert(s.len() == 4 + tkl + opl.len());
    assert(s.subrange(4, 4 + tkl) =~= p.token);
    assert(s.subrange(4 + tkl, s.len() as int) =~= enc_opts(p.options, 0) + enc_payload(
        p.payload,
    ));
    let tail = enc_payload(p.payload);
    assert(tail.len() == 0 || (tail[0] == PAYLOAD_MARKER && tail.len() >= 2));
    lemma_dec_enc_opts(p.options, 0, tail);
    let pl = if tail.len() == 0 {
        Seq::<u8>::empty()
    } else {
        tail.drop_first()
    };
    assert(pl =~= p.payload);
    vstd::arithmetic::div_mod::lemma_fundamental_div_mod(p.message_id as int, 256);
    assert(type_of_bits(ty) == p.mtype);
    let q = spec_decode(s).unwrap();
    assert(q =~= p);
}

/// The Uri-Path option values of a packet, in wire order.
pub open spec fn uri_path_segs(opts: Seq<(u32, Seq<u8>)>) -> Seq<Seq<u8>>
    decreases opts.len(),
{
    if opts.len() == 0 {
        seq![]
    } else if opts[0].0 == OPT_URI_PATH {
        seq![opts[0].1] + uri_path_segs(opts.drop_first())
    } else {
        uri_path_segs(opts.drop_first())
    }
}

/// Path segments joined by a slash byte.
pub open spec fn join_segs(segs: Seq<Seq<u8>>) -> Seq<u8>
    decreases segs.len(),
{
    if segs.len() == 0 {
        seq![]
    } else if segs.len() == 1 {
        segs[0]
    } else {
        segs[0] + seq![47u8] + join_segs(segs.drop_first())
    }
}

/// The resource path a request names: its Uri-Path options joined by slashes.
pub open spec fn spec_uri_path(p: PacketView) -> Seq<u8> {
    join_segs(uri_path_segs(p.options))
}

fn uri_path_from(opts: &Vec<(u32, Vec<u8>)>, i: usize) -> (r: Option<Vec<u8>>)
    requires
        i <= opts.len(),
    ensures
        match r {
            Some(v) => uri_path_segs(opts_view(opts@).skip(i as int)).len() > 0 && v@
                == join_segs(uri_path_segs(opts_view(opts@).skip(i as int))),
            None => uri_path_segs(opts_view(opts@).skip(i as int)).len() == 0,
        },
    decreases opts.len() - i,
{
    let ghost ov = opts_view(opts@).skip(i as int);
    if i == opts.len() {
        return None;
    }
    assert(ov[0] == (opts@[i as int].0, opts@[i as int].1@));
    assert(ov.drop_first() =~= opts_view(opts@).skip(i + 1));
    let rest = uri_path_from(opts, i + 1);
    if opts[i].0 == OPT_URI_PATH {
        let seg = &opts[i].1;
        let mut v = copy_range(seg, 0, seg.len());
        assert(v@ =~= seg@);
        assert(uri_path_segs(ov) == seq![ov[0].1] + uri_path_segs(ov.drop_first()));
        match rest {
            None => {
                assert(uri_path_segs(ov) =~= seq![ov[0].1]);
                Some(v)
            },
            Some(rv) => {
                v.push(47u8);
                push_bytes(&rv, &mut v);
                proof {
                    let segs = uri_path_segs(ov);
                    assert(segs[0] == ov[0].1);
                    assert(segs.drop_first() =~= uri_path_segs(ov.drop_first()));
                    assert(v@ =~= segs[0] + seq![47u8] + join_segs(segs.drop_first()));
                }
                Some(v)
            },
        }
    } else {
        assert(uri_path_segs(ov) == uri_path_segs(ov.drop_first()));
        rest
    }
}

/// The resource path named by a packet's Uri-Path options, slash-joined.
pub fn uri_path(p: &Packet) -> (r: Vec<u8>)
    ensures
        r@ == spec_uri_path(p@),
{
    assert(opts_view(p.options@).skip(0) =~= p@.options);
    match uri_path_from(&p.options, 0) {
        None => {
            let v: Vec<u8> = Vec::new();
            assert(v@ =~= join_segs(uri_path_segs(p@.options)));
            v
        },
        Some(v) => v,
    }
}

} // verus!
