//! Wire format for the networked protocol.
//!
//! Every message travels in a frame that starts with a 4-byte
//! little-endian length so a reader knows exactly how many bytes to
//! collect; ciphertexts and partial decryptions are carried as opaque,
//! length-prefixed byte blobs inside tagged messages. Decoding is the
//! exact inverse of encoding.

use vstd::prelude::*;
use crate::party::UpdateSearchRange;

verus! {

/// The four little-endian bytes of a 32-bit length.
pub open spec fn u32_le_spec(n: nat) -> Seq<u8> {
    seq![
        (n % 256) as u8,
        ((n / 256) % 256) as u8,
        ((n / 65536) % 256) as u8,
        ((n / 16777216) % 256) as u8,
    ]
}

/// The value of four little-endian bytes.
pub open spec fn u32_from_le_spec(b0: u8, b1: u8, b2: u8, b3: u8) -> nat {
    (b0 + 256 * b1 + 65536 * b2 + 16777216 * b3) as nat
}

/// Serializing a 32-bit length and reading it back is the identity.
pub proof fn lemma_u32_le_round_trip(n: nat)
    requires
        n < 0x1_0000_0000,
    ensures
        ({
            let b = u32_le_spec(n);
            u32_from_le_spec(b[0], b[1], b[2], b[3]) == n
        }),
{
    let x = n as int;
    vstd::arithmetic::div_mod::lemma_fundamental_div_mod(x, 256);
    vstd::arithmetic::div_mod::lemma_mod_bound(x, 256);
    vstd::arithmetic::div_mod::lemma_fundamental_div_mod(x / 256, 256);
    vstd::arithmetic::div_mod::lemma_mod_bound(x / 256, 256);
    vstd::arithmetic::div_mod::lemma_fundamental_div_mod(x / 65536, 256);
    vstd::arithmetic::div_mod::lemma_mod_bound(x / 65536, 256);
    vstd::arithmetic::div_mod::lemma_div_denominator(x, 256, 256);
    vstd::arithmetic::div_mod::lemma_div_denominator(x, 65536, 256);
    vstd::arithmetic::div_mod::lemma_div_pos_is_pos(x, 256);
    vstd::arithmetic::div_mod::lemma_div_pos_is_pos(x / 256, 256);
    vstd::arithmetic::div_mod::lemma_div_pos_is_pos(x / 65536, 256);
    assert(x / 16777216 < 256) by {
        vstd::arithmetic::div_mod::lemma_div_is_ordered(x, 0xffff_ffff, 16777216);
    }
}

/// A length-prefixed byte blob.
pub open spec fn blob_spec(b: Seq<u8>) -> Seq<u8> {
    u32_le_spec(b.len()) + b
}

/// A frame: the payload preceded by its 4-byte little-endian length.
pub open spec fn frame_spec(payload: Seq<u8>) -> Seq<u8> {
    u32_le_spec(payload.len()) + payload
}

/// Serializes a 32-bit length into its four little-endian bytes.
fn push_u32_le(out: &mut Vec<u8>, n: u32)
    ensures
        final(out)@ == old(out)@ + u32_le_spec(n as nat),
{
    let ghost pre = out@;
    out.push((n % 256) as u8);
    out.push(((n / 256) % 256) as u8);
    out.push(((n / 65536) % 256) as u8);
    out.push(((n / 16777216) % 256) as u8);
    proof {
        assert(final(out)@ =~= pre + u32_le_spec(n as nat));
    }
}

/// Reads the 32-bit little-endian length at position `at`.
fn read_u32_le(data: &Vec<u8>, at: usize) -> (n: u32)
    requires
        at + 4 <= data@.len(),
        data@.len() <= usize::MAX,
    ensures
        n as nat == u32_from_le_spec(
            data@[at as int],
            data@[at as int + 1],
            data@[at as int + 2],
            data@[at as int + 3],
        ),
{
    let b0 = data[at] as u32;
    let b1 = data[at + 1] as u32;
    let b2 = data[at + 2] as u32;
    let b3 = data[at + 3] as u32;
    b0 + 256 * b1 + 65536 * b2 + 16777216 * b3
}

/// Wraps a payload in a length-prefixed frame. A reader first collects
/// four bytes, then exactly the announced number of payload bytes.
pub fn frame_message(payload: &Vec<u8>) -> (framed: Vec<u8>)
    requires
        payload@.len() <= 0xffff_ffff,
    ensures
        framed@ == frame_spec(payload@),
{
    let mut out: Vec<u8> = Vec::new();
    push_u32_le(&mut out, payload.len() as u32);
    let mut i: usize = 0;
    while i < payload.len()
        invariant
            i <= payload@.len(),
            out@ == u32_le_spec(payload@.len()) + payload@.subrange(0, i as int),
        decreases payload@.len() - i,
    {
        proof {
            assert(payload@.subrange(0, i as int + 1) =~= payload@.subrange(0, i as int).push(
                payload@[i as int],
            ));
            assert((u32_le_spec(payload@.len()) + payload@.subrange(0, i as int)).push(
                payload@[i as int],
            ) =~= u32_le_spec(payload@.len()) + payload@.subrange(0, i as int + 1));
        }
        let b = payload[i];
        out.push(b);
        i = i + 1;
    }
    proof {
        assert(payload@.subrange(0, payload@.len() as int) =~= payload@);
        assert(out@ =~= frame_spec(payload@));
    }
    out
}

/// The length a frame header announces for the rest of the frame.
pub fn frame_payload_len(header: &Vec<u8>) -> (n: u32)
    requires
        header@.len() >= 4,
    ensures
        n as nat == u32_from_le_spec(header@[0], header@[1], header@[2], header@[3]),
        forall|p: Seq<u8>|
            p.len() <= 0xffff_ffff && header@ == frame_spec(p) ==> n as nat == p.len(),
{
    let hlen = header.len();
    proof {
        assert(header@.len() == hlen);
    }
    let n = read_u32_le(header, 0);
    proof {
        assert forall|p: Seq<u8>|
            p.len() <= 0xffff_ffff && header@ == frame_spec(p) implies n as nat == p.len() by {
            assert(header@[0] == u32_le_spec(p.len())[0]);
            assert(header@[1] == u32_le_spec(p.len())[1]);
            assert(header@[2] == u32_le_spec(p.len())[2]);
            assert(header@[3] == u32_le_spec(p.len())[3]);
            lemma_u32_le_round_trip(p.len());
        }
    }
    n
}

/// A message from a party to the coordinator: its two ciphertexts in
/// phase A, its two partial decryptions in phase B, as opaque bytes.
#[derive(Clone, Debug, PartialEq, Eq)]
pub enum ClientMessage {
    MsgCiphertext(Vec<u8>, Vec<u8>),
    MsgPartialDecryption(Vec<u8>, Vec<u8>),
}

/// A message from the coordinator to a party: the homomorphic sums to
/// share-decrypt, or the round verdict.
#[derive(Clone, Debug, PartialEq, Eq)]
pub enum ServerMessage {
    MsgDecryptRequest(Vec<u8>, Vec<u8>),
    MsgUpdateSearchRange(UpdateSearchRange),
}

/// The blobs of a message fit their 32-bit length prefixes.
pub open spec fn client_msg_wf(m: ClientMessage) -> bool {
    match m {
        ClientMessage::MsgCiphertext(a, b) => a@.len() <= 0xffff_ffff && b@.len() <= 0xffff_ffff,
        ClientMessage::MsgPartialDecryption(a, b) => a@.len() <= 0xffff_ffff && b@.len()
            <= 0xffff_ffff,
    }
}

pub open spec fn server_msg_wf(m: ServerMessage) -> bool {
    match m {
        ServerMessage::MsgDecryptRequest(a, b) => a@.len() <= 0xffff_ffff && b@.len()
            <= 0xffff_ffff,
        ServerMessage::MsgUpdateSearchRange(_) => true,
    }
}

pub open spec fn verdict_tag(u: UpdateSearchRange) -> u8 {
    match u {
        UpdateSearchRange::FoundK => 0u8,
        UpdateSearchRange::SearchBelow => 1u8,
        UpdateSearchRange::SearchAbove => 2u8,
        UpdateSearchRange::Abort => 3u8,
    }
}

pub open spec fn encode_client_spec(m: ClientMessage) -> Seq<u8> {
    match m {
        ClientMessage::MsgCiphertext(a, b) => seq![0u8] + blob_spec(a@) + blob_spec(b@),
        ClientMessage::MsgPartialDecryption(a, b) => seq![1u8] + blob_spec(a@) + blob_spec(b@),
    }
}

pub open spec fn encode_server_spec(m: ServerMessage) -> Seq<u8> {
    match m {
        ServerMessage::MsgDecryptRequest(a, b) => seq![0u8] + blob_spec(a@) + blob_spec(b@),
        ServerMessage::MsgUpdateSearchRange(u) => seq![1u8, verdict_tag(u)],
    }
}

/// Appends a length-prefixed blob.
fn push_blob(out: &mut Vec<u8>, blob: &Vec<u8>)
    requires
        blob@.len() <= 0xffff_ffff,
    ensures
        final(out)@ == old(out)@ + blob_spec(blob@),
{
    let ghost pre = out@;
    push_u32_le(out, blob.len() as u32);
    let mut i: usize = 0;
    while i < blob.len()
        invariant
            i <= blob@.len(),
            out@ == pre + u32_le_spec(blob@.len()) + blob@.subrange(0, i as int),
        decreases blob@.len() - i,
    {
        proof {
            assert((pre + u32_le_spec(blob@.len()) + blob@.subrange(0, i as int)).push(
                blob@[i as int],
            ) =~= pre + u32_le_spec(blob@.len()) + blob@.subrange(0, i as int + 1));
        }
        let b = blob[i];
        out.push(b);
        i = i + 1;
    }
    proof {
        assert(blob@.subrange(0, blob@.len() as int) =~= blob@);
        assert(out@ =~= pre + blob_spec(blob@));
    }
}

/// Serializes a party-to-coordinator message.
pub fn encode_client_message(m: &ClientMessage) -> (data: Vec<u8>)
    requires
        client_msg_wf(*m),
    ensures
        data@ == encode_client_spec(*m),
{
    let mut out: Vec<u8> = Vec::new();
    match m {
        ClientMessage::MsgCiphertext(a, b) => {
            out.push(0u8);
            proof {
                assert(out@ =~= seq![0u8]);
            }
            push_blob(&mut out, a);
            push_blob(&mut out, b);
            proof {
                assert(out@ =~= (seq![0u8] + blob_spec(a@)) + blob_spec(b@));
                assert((seq![0u8] + blob_spec(a@)) + blob_spec(b@) =~= seq![0u8] + blob_spec(a@)
                    + blob_spec(b@));
            }
        },
        ClientMessage::MsgPartialDecryption(a, b) => {
            out.push(1u8);
            proof {
                assert(out@ =~= seq![1u8]);
            }
            push_blob(&mut out, a);
            push_blob(&mut out, b);
            proof {
                assert(out@ =~= (seq![1u8] + blob_spec(a@)) + blob_spec(b@));
                assert((seq![1u8] + blob_spec(a@)) + blob_spec(b@) =~= seq![1u8] + blob_spec(a@)
                    + blob_spec(b@));
            }
        },
    }
    out
}

/// Serializes a coordinator-to-party message.
pub fn encode_server_message(m: &ServerMessage) -> (data: Vec<u8>)
    requires
        server_msg_wf(*m),
    ensures
        data@ == encode_server_spec(*m),
{
    let mut out: Vec<u8> = Vec::new();
    match m {
        ServerMessage::MsgDecryptRequest(a, b) => {
            out.push(0u8);
            proof {
                assert(out@ =~= seq![0u8]);
            }
            push_blob(&mut out, a);
            push_blob(&mut out, b);
            proof {
                assert(out@ =~= (seq![0u8] + blob_spec(a@)) + blob_spec(b@));
                assert((seq![0u8] + blob_spec(a@)) + blob_spec(b@) =~= seq![0u8] + blob_spec(a@)
                    + blob_spec(b@));
            }
        },
        ServerMessage::MsgUpdateSearchRange(u) => {
            out.push(1u8);
            let tag = match u {
                UpdateSearchRange::FoundK => 0u8,
                UpdateSearchRange::SearchBelow => 1u8,
                UpdateSearchRange::SearchAbove => 2u8,
                UpdateSearchRange::Abort => 3u8,
            };
            out.push(tag);
            proof {
                assert(out@ =~= seq![1u8, verdict_tag(*u)]);
            }
        },
    }
    out
}

/// Reads the length-prefixed blob at position `at`; returns the blob and
/// the position just after it.
#[verifier::rlimit(60)]
fn read_blob(data: &Vec<u8>, at: usize) -> (r: Option<(Vec<u8>, usize)>)
    requires
        at <= data@.len(),
    ensures
        (r matches Some((blob, end)) ==> {
            &&& at + 4 <= end <= data@.len()
            &&& end as int == at + 4 + blob@.len()
            &&& blob@.len() <= 0xffff_ffff
            &&& data@.subrange(at as int, end as int) == blob_spec(blob@)
        }),
        r is None ==> (forall|b: Seq<u8>, rest: Seq<u8>|
            b.len() <= 0xffff_ffff ==> data@.subrange(at as int, data@.len() as int) != blob_spec(
                b,
            ) + rest),
{
    if data.len() - at < 4 {
        proof {
            assert forall|b: Seq<u8>, rest: Seq<u8>|
                b.len() <= 0xffff_ffff implies data@.subrange(at as int, data@.len() as int)
                != blob_spec(b) + rest by {
                assert((blob_spec(b) + rest).len() >= 4);
            }
        }
        return None;
    }
    let n = read_u32_le(data, at);
    if (data.len() - at - 4) < n as usize {
        proof {
            let tail = data@.subrange(at as int, data@.len() as int);
            assert forall|b: Seq<u8>, rest: Seq<u8>|
                b.len() <= 0xffff_ffff implies tail != blob_spec(b) + rest by {
                if tail == blob_spec(b) + rest {
                    lemma_u32_le_round_trip(b.len());
                    assert(tail[0] == u32_le_spec(b.len())[0]);
                    assert(tail[1] == u32_le_spec(b.len())[1]);
                    assert(tail[2] == u32_le_spec(b.len())[2]);
                    assert(tail[3] == u32_le_spec(b.len())[3]);
                    assert(b.len() == n as nat);
                    assert(tail.len() >= 4 + b.len());
                }
            }
        }
        return None;
    }
    let end = at + 4 + n as usize;
    let mut blob: Vec<u8> = Vec::new();
    let mut i: usize = at + 4;
    while i < end
        invariant
            at + 4 <= i <= end <= data@.len(),
            blob@ == data@.subrange(at as int + 4, i as int),
        decreases end - i,
    {
        proof {
            assert(data@.subrange(at as int + 4, i as int + 1) =~= data@.subrange(
                at as int + 4,
                i as int,
            ).push(data@[i as int]));
        }
        let b = data[i];
        blob.push(b);
        i = i + 1;
    }
    proof {
        lemma_u32_le_round_trip(blob@.len());
        assert(data@.subrange(at as int, end as int) =~= blob_spec(blob@)) by {
            assert(blob@ =~= data@.subrange(at as int + 4, end as int));
            assert(blob@.len() == n as nat);
            assert(u32_le_spec(blob@.len())[0] == data@[at as int]);
        }
    }
    Some((blob, end))
}

/// `d` is the encoding of a two-blob message with the given tag.
pub open spec fn is_two_blob_encoding(d: Seq<u8>, tag: u8, a: Seq<u8>, b: Seq<u8>) -> bool {
    &&& a.len() <= 0xffff_ffff
    &&& b.len() <= 0xffff_ffff
    &&& d == seq![tag] + blob_spec(a) + blob_spec(b)
}

/// Two equal two-blob encodings carry the same tag and blobs.
#[verifier::rlimit(60)]
pub proof fn lemma_two_blob_encoding_unique(
    d: Seq<u8>,
    tag1: u8,
    a1: Seq<u8>,
    b1: Seq<u8>,
    tag2: u8,
    a2: Seq<u8>,
    b2: Seq<u8>,
)
    requires
        is_two_blob_encoding(d, tag1, a1, b1),
        is_two_blob_encoding(d, tag2, a2, b2),
    ensures
        tag1 == tag2,
        a1 == a2,
        b1 == b2,
{
    assert(d[0] == tag1 && d[0] == tag2);
    assert(d[1] == u32_le_spec(a1.len())[0] && d[2] == u32_le_spec(a1.len())[1] && d[3]
        == u32_le_spec(a1.len())[2] && d[4] == u32_le_spec(a1.len())[3]);
    assert(d[1] == u32_le_spec(a2.len())[0] && d[2] == u32_le_spec(a2.len())[1] && d[3]
        == u32_le_spec(a2.len())[2] && d[4] == u32_le_spec(a2.len())[3]);
    lemma_u32_le_round_trip(a1.len());
    lemma_u32_le_round_trip(a2.len());
    assert(a1.len() == a2.len());
    assert(b1.len() == b2.len()) by {
        assert(d.len() == 9 + a1.len() + b1.len());
        assert(d.len() == 9 + a2.len() + b2.len());
    }
    assert(a1 =~= a2) by {
        assert(forall|i: int| 0 <= i < a1.len() ==> a1[i] == d[5 + i] && a2[i] == d[5 + i]);
    }
    assert(b1 =~= b2) by {
        assert(forall|i: int|
            0 <= i < b1.len() ==> b1[i] == d[9 + a1.len() + i] && b2[i] == d[9 + a2.len() + i]);
    }
}

/// Parses a party-to-coordinator message; the exact inverse of encoding:
/// a parsed message re-encodes to the input, and every well-formed
/// encoding parses.
pub fn parse_client_message(data: &Vec<u8>) -> (r: Option<ClientMessage>)
    ensures
        (r matches Some(m) ==> client_msg_wf(m) && encode_client_spec(m) == data@),
        forall|tag: u8, a: Seq<u8>, b: Seq<u8>|
            tag <= 1 && is_two_blob_encoding(data@, tag, a, b) ==> r is Some,
{
    let parsed = parse_two_blobs(data);
    match parsed {
        Some((tag, a, b)) => {
            let m = if tag == 0 {
                ClientMessage::MsgCiphertext(a, b)
            } else {
                ClientMessage::MsgPartialDecryption(a, b)
            };
            Some(m)
        },
        None => None,
    }
}

/// Parses a tag byte followed by two length-prefixed blobs.
#[verifier::rlimit(100)]
fn parse_two_blobs(data: &Vec<u8>) -> (r: Option<(u8, Vec<u8>, Vec<u8>)>)
    ensures
        (r matches Some((tag, a, b)) ==> tag <= 1 && is_two_blob_encoding(data@, tag, a@, b@)),
        forall|tag: u8, a: Seq<u8>, b: Seq<u8>|
            tag <= 1 && is_two_blob_encoding(data@, tag, a, b) ==> r is Some,
{
    let d = data;
    if d.len() == 0 {
        proof {
            assert forall|tag: u8, a: Seq<u8>, b: Seq<u8>|
                tag <= 1 && is_two_blob_encoding(d@, tag, a, b) implies false by {
                assert(d@.len() >= 9);
            }
        }
        return None;
    }
    let tag = d[0];
    if tag > 1 {
        proof {
            assert forall|t: u8, a: Seq<u8>, b: Seq<u8>|
                t <= 1 && is_two_blob_encoding(d@, t, a, b) implies false by {
                assert(d@[0] == t);
            }
        }
        return None;
    }
    let first = read_blob(d, 1);
    let (a, after_a) = match first {
        Some(x) => x,
        None => {
            proof {
                assert forall|t: u8, a: Seq<u8>, b: Seq<u8>|
                    t <= 1 && is_two_blob_encoding(d@, t, a, b) implies false by {
                    assert(d@.subrange(1, d@.len() as int) =~= blob_spec(a) + blob_spec(b));
                }
            }
            return None;
        },
    };
    let second = read_blob(d, after_a);
    let (b, after_b) = match second {
        Some(x) => x,
        None => {
            proof {
                assert forall|t: u8, aa: Seq<u8>, bb: Seq<u8>|
                    t <= 1 && is_two_blob_encoding(d@, t, aa, bb) implies false by {
                    assert(d@.subrange(1, d@.len() as int) =~= blob_spec(aa) + blob_spec(bb));
                    lemma_blob_starts_align(d@, 1, a@, aa, blob_spec(bb));
                    assert(after_a as int == 5 + aa.len());
                    assert(d@.subrange(after_a as int, d@.len() as int) =~= blob_spec(bb)
                        + Seq::<u8>::empty());
                }
            }
            return None;
        },
    };
    if after_b != d.len() {
        proof {
            assert forall|t: u8, aa: Seq<u8>, bb: Seq<u8>|
                t <= 1 && is_two_blob_encoding(d@, t, aa, bb) implies false by {
                assert(d@.subrange(1, d@.len() as int) =~= blob_spec(aa) + blob_spec(bb));
                lemma_blob_starts_align(d@, 1, a@, aa, blob_spec(bb));
                assert(after_a as int == 5 + aa.len());
                assert(d@.subrange(after_a as int, d@.len() as int) =~= blob_spec(bb)
                    + Seq::<u8>::empty());
                lemma_blob_starts_align(d@, after_a as int, b@, bb, Seq::<u8>::empty());
                assert(after_b as int == d@.len());
            }
        }
        return None;
    }
    proof {
        assert(is_two_blob_encoding(d@, tag, a@, b@)) by {
            assert(d@ =~= seq![d@[0]] + d@.subrange(1, after_a as int) + d@.subrange(
                after_a as int,
                after_b as int,
            ));
        }
    }
    Some((tag, a, b))
}

/// If the bytes from `at` on are a blob followed by a rest, and a blob was
/// actually read at `at`, both blobs agree.
proof fn lemma_blob_starts_align(d: Seq<u8>, at: int, read: Seq<u8>, claimed: Seq<u8>, rest: Seq<u8>)
    requires
        0 <= at,
        at + 4 + read.len() <= d.len(),
        read.len() <= 0xffff_ffff,
        claimed.len() <= 0xffff_ffff,
        d.subrange(at, at + 4 + read.len()) == blob_spec(read),
        d.subrange(at, d.len() as int) == blob_spec(claimed) + rest,
    ensures
        read == claimed,
{
    let tail = d.subrange(at, d.len() as int);
    assert(tail[0] == u32_le_spec(read.len())[0]);
    assert(tail[1] == u32_le_spec(read.len())[1]);
    assert(tail[2] == u32_le_spec(read.len())[2]);
    assert(tail[3] == u32_le_spec(read.len())[3]);
    assert(tail[0] == u32_le_spec(claimed.len())[0]);
    assert(tail[1] == u32_le_spec(claimed.len())[1]);
    assert(tail[2] == u32_le_spec(claimed.len())[2]);
    assert(tail[3] == u32_le_spec(claimed.len())[3]);
    lemma_u32_le_round_trip(read.len());
    lemma_u32_le_round_trip(claimed.len());
    assert(read.len() == claimed.len());
    assert forall|i: int| 0 <= i < read.len() implies read[i] == claimed[i] by {
        assert(read[i] == blob_spec(read)[4 + i]);
        assert(blob_spec(read)[4 + i] == d.subrange(at, at + 4 + read.len())[4 + i]);
        assert(d.subrange(at, at + 4 + read.len())[4 + i] == d[at + 4 + i]);
        assert(tail[4 + i] == d[at + 4 + i]);
        assert(tail[4 + i] == (blob_spec(claimed) + rest)[4 + i]);
        assert((blob_spec(claimed) + rest)[4 + i] == claimed[i]);
    }
    assert(read =~= claimed);
}

/// Parses a coordinator-to-party message; the exact inverse of encoding:
/// a parsed message re-encodes to the input, and every well-formed
/// encoding parses.
pub fn parse_server_message(data: &Vec<u8>) -> (r: Option<ServerMessage>)
    ensures
        (r matches Some(m) ==> server_msg_wf(m) && encode_server_spec(m) == data@),
        forall|a: Seq<u8>, b: Seq<u8>| is_two_blob_encoding(data@, 0u8, a, b) ==> r is Some,
        forall|u: UpdateSearchRange| data@ == seq![1u8, verdict_tag(u)] ==> r is Some,
{
    if data.len() >= 1 && data[0] == 1 {
        proof {
            assert forall|a: Seq<u8>, b: Seq<u8>|
                is_two_blob_encoding(data@, 0u8, a, b) implies false by {
                assert(data@[0] == 0u8);
            }
        }
        if data.len() != 2 {
            return None;
        }
        let v = data[1];
        let u = if v == 0 {
            UpdateSearchRange::FoundK
        } else if v == 1 {
            UpdateSearchRange::SearchBelow
        } else if v == 2 {
            UpdateSearchRange::SearchAbove
        } else if v == 3 {
            UpdateSearchRange::Abort
        } else {
            return None;
        };
        let m = ServerMessage::MsgUpdateSearchRange(u);
        proof {
            assert(encode_server_spec(m) =~= data@);
        }
        return Some(m);
    }
    let parsed = parse_two_blobs(data);
    match parsed {
        Some((tag, a, b)) => {
            proof {
                assert(data@[0] == tag);
                assert(tag == 0u8);
            }
            Some(ServerMessage::MsgDecryptRequest(a, b))
        },
        None => {
            proof {
                assert forall|u: UpdateSearchRange|
                    data@ == seq![1u8, verdict_tag(u)] implies false by {
                    assert(data@[0] == 1u8);
                }
            }
            None
        },
    }
}

} // verus!
